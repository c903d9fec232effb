use vptree::MetricItem;
use vptree::PlanePoint;
use vptree::VPTree;

fn lattice_points(n: u32) -> Vec<PlanePoint> {
    let mut out = Vec::new();
    for i in 0..n {
        for j in 0..n {
            out.push(PlanePoint { x: i * 100, y: j * 100 });
        }
    }
    out
}

#[test]
fn point_check() {
    let a = PlanePoint { x: 0, y: 0 };
    let b = PlanePoint { x: 100, y: 0 };

    assert_eq!(PlanePoint::distance(&a, &b), 100);
}

#[test]
fn lattice_vpn() {
    let points = lattice_points(20);
    let tree = VPTree::new(points).unwrap();

    // Grid coordinates are scaled by 100, so (4.46, 4.4) is (446, 440).
    let ps = tree.nearest_neighbors(&PlanePoint { x: 446, y: 440 }, 4, true);
    assert_eq!(ps.len(), 4);
    assert_eq!(ps[0].x, 400);
    assert_eq!(ps[0].y, 400);

    assert_eq!(ps[1].x, 500);
    assert_eq!(ps[1].y, 400);

    assert_eq!(ps[2].x, 400);
    assert_eq!(ps[2].y, 500);

    assert_eq!(ps[3].x, 500);
    assert_eq!(ps[3].y, 500);
}

#[test]
fn lattice_radius() {
    let points = lattice_points(20);
    let tree = VPTree::new(points).unwrap();
    let q = PlanePoint { x: 446, y: 440 };
    let ps = tree.within_radius(&q, 95, true);
    assert_eq!(ps.len(), 2);
    assert_eq!(ps[0].x, 400);
    assert_eq!(ps[0].y, 400);
    assert_eq!(ps[1].x, 500);
    assert_eq!(ps[1].y, 400);
}
