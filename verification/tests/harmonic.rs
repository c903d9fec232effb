use vptree::LinePoint;
use vptree::VPTree;

// The fractional coordinates x/n and 1/x are carried in fixed point:
// each value is scaled by a constant large enough to keep all values
// distinct, which leaves every nearest-neighbor relation unchanged.

#[test]
fn test_linear() {
    for n in 10..101u64 {
        let points: Vec<LinePoint> = (0..n + 1).map(|x| LinePoint { v: x * 100_000 / n }).collect();

        let vp = VPTree::new(points.clone());
        assert!(vp.is_some());
        let vp = vp.unwrap();

        for p in &points {
            // each point should be nearest to itself.
            assert_eq!(vp.nearest_neighbor(p), p);
        }
    }
}

#[test]
fn test_harmonic() {
    for n in 10..101u64 {
        let points: Vec<LinePoint> = (1..n + 1).map(|x| LinePoint { v: 1_000_000_000 / x }).collect();

        let vp = VPTree::new(points.clone());
        assert!(vp.is_some());
        let vp = vp.unwrap();

        for p in &points {
            // each point should be nearest to itself.
            assert_eq!(vp.nearest_neighbor(p), p);
        }
    }
}
