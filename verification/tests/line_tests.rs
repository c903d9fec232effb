use vptree::LinePoint;
use vptree::MetricItem;
use vptree::VPTree;

fn line_points(values: &[u64]) -> Vec<LinePoint> {
    values.iter().map(|&v| LinePoint { v }).collect()
}

#[test]
fn test_nearest_on_line() {
    let points = line_points(&[1, 2, 3, 4, 5, 6, 7, 8, 9, 10]);
    let tree = VPTree::new(points).unwrap();
    let n = tree.nearest_neighbor(&LinePoint { v: 7 });
    assert_eq!(*n, LinePoint { v: 7 });
}

#[test]
fn test_every_point_own_nearest() {
    let points = line_points(&[1, 2, 3, 4, 5, 6, 7, 8, 9, 10]);
    let tree = VPTree::new(points).unwrap();
    for v in 1..=10 {
        let p = LinePoint { v };
        assert_eq!(*tree.nearest_neighbor(&p), p);
    }
}

#[test]
fn test_empty_input() {
    let tree = VPTree::<LinePoint>::new(Vec::new());
    assert!(tree.is_none());
}

#[test]
fn test_single_point() {
    let p = LinePoint { v: 42 };
    let tree = VPTree::new(vec![p]).unwrap();
    assert_eq!(*tree.nearest_neighbor(&p), p);
    let ps = tree.nearest_neighbors(&p, 5, false);
    assert_eq!(ps.len(), 1);
    assert_eq!(*ps[0], p);
}

#[test]
fn test_k_nearest_cardinality() {
    let points = line_points(&[3, 1, 4, 1, 5, 9, 2, 6]);
    let tree = VPTree::new(points).unwrap();
    let q = LinePoint { v: 4 };
    for k in 0..12 {
        let ps = tree.nearest_neighbors(&q, k, false);
        assert_eq!(ps.len(), k.min(8));
    }
}

#[test]
fn test_k_nearest_matches_brute_force() {
    let values: [u64; 9] = [13, 2, 99, 45, 45, 7, 60, 31, 24];
    let points = line_points(&values);
    let tree = VPTree::new(points).unwrap();
    let q = LinePoint { v: 40 };
    for k in 1..=9 {
        let ps = tree.nearest_neighbors(&q, k, true);
        let mut got: Vec<u64> = ps.iter().map(|p| q.distance(p)).collect();
        let mut brute: Vec<u64> = values.iter().map(|&v| q.distance(&LinePoint { v })).collect();
        brute.sort();
        brute.truncate(k);
        got.sort();
        assert_eq!(got, brute);
    }
}

#[test]
fn test_radius_matches_brute_force() {
    let values: [u64; 9] = [13, 2, 99, 45, 45, 7, 60, 31, 24];
    let points = line_points(&values);
    let tree = VPTree::new(points).unwrap();
    let q = LinePoint { v: 40 };
    for radius in [0, 1, 6, 20, 100] {
        let ps = tree.within_radius(&q, radius, true);
        let mut got: Vec<u64> = ps.iter().map(|p| p.v).collect();
        let mut brute: Vec<u64> = values
            .iter()
            .copied()
            .filter(|&v| q.distance(&LinePoint { v }) < radius)
            .collect();
        got.sort();
        brute.sort();
        assert_eq!(got, brute);
    }
}

#[test]
fn test_radius_is_strict() {
    let points = line_points(&[0, 5, 10]);
    let tree = VPTree::new(points).unwrap();
    let q = LinePoint { v: 5 };
    let ps = tree.within_radius(&q, 5, false);
    assert_eq!(ps.len(), 1);
    assert_eq!(*ps[0], q);
}

#[test]
fn test_repeated_queries_identical() {
    let points = line_points(&[8, 3, 20, 14, 5, 11, 2]);
    let tree = VPTree::new(points).unwrap();
    let q = LinePoint { v: 9 };
    let a1: Vec<LinePoint> = tree.nearest_neighbors(&q, 3, true).iter().map(|p| **p).collect();
    let a2: Vec<LinePoint> = tree.nearest_neighbors(&q, 3, true).iter().map(|p| **p).collect();
    assert_eq!(a1, a2);
    let r1: Vec<LinePoint> = tree.within_radius(&q, 7, false).iter().map(|p| **p).collect();
    let r2: Vec<LinePoint> = tree.within_radius(&q, 7, false).iter().map(|p| **p).collect();
    assert_eq!(r1, r2);
}

#[test]
fn test_deep_tree_matches_brute_force() {
    // A few hundred scattered values (a fixed quadratic scramble), so
    // the tree is several levels deep and both prune branches fire.
    let values: Vec<u64> = (0u64..300).map(|i| (i * i * 7 + i * 131) % 10_007).collect();
    let points = line_points(&values);
    let tree = VPTree::new(points).unwrap();
    for &qv in &[0u64, 977, 5_003, 10_006] {
        let q = LinePoint { v: qv };
        for k in [1usize, 2, 17, 300, 400] {
            let ps = tree.nearest_neighbors(&q, k, true);
            assert_eq!(ps.len(), k.min(300));
            let mut got: Vec<u64> = ps.iter().map(|p| q.distance(p)).collect();
            let mut brute: Vec<u64> =
                values.iter().map(|&v| q.distance(&LinePoint { v })).collect();
            brute.sort();
            brute.truncate(k);
            got.sort();
            assert_eq!(got, brute);
        }
        for radius in [0u64, 50, 1_000, 20_000] {
            let ps = tree.within_radius(&q, radius, false);
            let mut got: Vec<u64> = ps.iter().map(|p| p.v).collect();
            let mut brute: Vec<u64> = values
                .iter()
                .copied()
                .filter(|&v| q.distance(&LinePoint { v }) < radius)
                .collect();
            got.sort();
            brute.sort();
            assert_eq!(got, brute);
        }
    }
}

#[test]
fn test_duplicate_points() {
    let points = line_points(&[4, 4, 4, 9]);
    let tree = VPTree::new(points).unwrap();
    let q = LinePoint { v: 4 };
    let ps = tree.nearest_neighbors(&q, 3, true);
    assert_eq!(ps.len(), 3);
    assert_eq!(*ps[0], q);
    assert_eq!(*ps[1], q);
    assert_eq!(*ps[2], q);
    let all = tree.nearest_neighbors(&q, 10, true);
    assert_eq!(all.len(), 4);
    assert_eq!(*all[3], LinePoint { v: 9 });
}
