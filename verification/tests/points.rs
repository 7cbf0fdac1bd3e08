use quadtree::points::As2dPoint;
use quadtree::points::COORD_MAX;
use quadtree::points::IndexPoint;
use quadtree::points::Point;

#[test]
fn test_valid_coord_window() {
    assert!(Point { x: 0, y: 0 }.as_valid_coord());
    assert!(Point { x: COORD_MAX, y: -COORD_MAX }.as_valid_coord());
    assert!(!Point { x: COORD_MAX + 1, y: 0 }.as_valid_coord());
    assert!(!Point { x: 0, y: -COORD_MAX - 1 }.as_valid_coord());
}

#[test]
fn test_dist_sq_and_dist() {
    let a = Point { x: 0, y: 0 };
    let b = Point { x: 3, y: 4 };

    assert_eq!(a.dist_sq(b), 25);
    assert_eq!(a.dist(b), 5);

    let c = Point { x: 1, y: 1 };
    let d = Point { x: 2, y: 3 };
    assert_eq!(c.dist_sq(d), 5);
    // 2 * 2 <= 5 < 3 * 3
    assert_eq!(c.dist(d), 2);
}

#[test]
fn test_point_tchebychev_dist() {
    let a = Point { x: -2, y: 5 };
    let b = Point { x: 4, y: 7 };

    assert_eq!(a.tchebychev_dist(b), 6);
    assert_eq!(b.tchebychev_dist(a), 6);
}

#[test]
fn test_index_point_into_point() {
    let ip = IndexPoint::new(11, -4, 9);

    assert_eq!(ip.i, 9);
    assert_eq!(ip.into_point(), Point { x: 11, y: -4 });
}

#[test]
fn test_as_2d_point_impls() {
    let t = (8i64, -3i64);
    assert_eq!(t.x(), 8);
    assert_eq!(t.y(), -3);
    assert_eq!(t.as_point(), Point { x: 8, y: -3 });

    let p = Point { x: 1, y: 2 };
    assert_eq!(p.as_point(), p);
}
