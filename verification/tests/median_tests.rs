use vptree::less_eq;
use vptree::quick_select_by;
use vptree::small_median;
use vptree::small_median_by;

#[test]
fn test_medians() {
    assert_eq!(small_median(&[1, 2, 3]), 1);
}

#[test]
fn test_quick_select_by() {
    for i in 0..11 {
        let mut v = vec![2, 0, 4, 6, 5, 1, 3, 9, 7, 8, 2];
        quick_select_by(&mut v, i, &|a, b| a <= b);
        for x in 0..i {
            assert!(v[x] <= v[i]);
        }
        for x in i + 1..10 {
            assert!(v[i] <= v[x]);
        }
    }
}

#[test]
fn test_less_eq() {
    assert!(less_eq(&1, &2));
    assert!(less_eq(&2, &2));
    assert!(!less_eq(&3, &2));
}

#[test]
fn test_small_median_cases() {
    assert_eq!(small_median(&[1]), 0);
    assert_eq!(small_median(&[1, 2]), 0);
    assert_eq!(small_median(&[2, 1]), 1);
    assert_eq!(small_median(&[1, 2, 3]), 1);
    assert_eq!(small_median(&[1, 3, 2]), 2);
    assert_eq!(small_median(&[3, 1, 2]), 2);
    assert_eq!(small_median(&[2, 1, 3]), 0);
    assert_eq!(small_median(&[3, 2, 1]), 1);
    assert_eq!(small_median(&[2, 3, 1]), 0);
}

#[test]
fn test_small_median_by_matches_small_median() {
    let le = |a: &u64, b: &u64| a <= b;
    assert_eq!(small_median_by(&[5u64], &le), 0);
    assert_eq!(small_median_by(&[7u64, 4], &le), 1);
    assert_eq!(small_median_by(&[1u64, 3, 2], &le), 2);
    assert_eq!(small_median_by(&[9u64, 2, 5], &le), 2);
}

#[test]
fn test_quick_select_with_duplicates() {
    let mut v: Vec<u64> = vec![5, 5, 5, 5, 5, 5, 5];
    quick_select_by(&mut v, 3, &|a, b| a <= b);
    assert_eq!(v, vec![5, 5, 5, 5, 5, 5, 5]);

    let mut w: Vec<u64> = vec![1, 1, 2, 2, 0, 0, 1];
    for k in 0..7 {
        let mut c = w.clone();
        quick_select_by(&mut c, k, &|a, b| a <= b);
        let mut sorted = w.clone();
        sorted.sort();
        assert_eq!(c[k], sorted[k]);
    }
}
