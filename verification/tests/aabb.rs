use quadtree::aabb::Aabb;
use quadtree::aabb::DiagonalDirection;
use quadtree::points::As2dPoint;
use quadtree::points::Point;

#[test]
fn test_aabb_contain_point1() {
    let aabb = Aabb::new((5, 5), 3);
    let inside_point = Point { x: 6, y: 6 };
    let outside_point = Point { x: 9, y: 9 };

    assert!(aabb.contain_pt(inside_point));
    assert!(!aabb.contain_pt(outside_point));
}

#[test]
fn test_aabb_intersect() {
    let aabb1 = Aabb::new((5, 5), 3);
    let aabb2 = Aabb::new((6, 6), 3);
    let aabb3 = Aabb::new((10, 10), 2);

    assert!(aabb1.intersect(aabb2));
    assert!(!aabb1.intersect(aabb3));
}

#[test]
fn test_aabb_subdivide() {
    let aabb = Aabb::new((5, 5), 4);
    let quadrants = aabb.subdivide();

    assert_eq!(quadrants.len(), 4);
    assert_eq!(quadrants[0].half_dim, 2);
}

#[test]
fn test_aabb_from_min_max() {
    let max = (150, 150);
    let min = (0, 0);
    let mid = (75, 0);

    let aabb = Aabb::from_min_max(min, max);

    assert!(aabb.contain_pt(min.as_point()));
    assert!(aabb.contain_pt(max.as_point()));
    assert!(aabb.contain_pt(mid.as_point()));
}

#[test]
fn test_aabb_subdivide_centers() {
    let aabb = Aabb::new((0, 0), 4);
    let quadrants = aabb.subdivide();

    // up-left, up-right, down-right, down-left
    assert_eq!(quadrants[0].center, Point { x: -2, y: 2 });
    assert_eq!(quadrants[1].center, Point { x: 2, y: 2 });
    assert_eq!(quadrants[2].center, Point { x: 2, y: -2 });
    assert_eq!(quadrants[3].center, Point { x: -2, y: -2 });
    for q in quadrants.iter() {
        assert_eq!(q.half_dim, 2);
    }
}

#[test]
fn test_aabb_subdivide_odd_rounds_up() {
    let aabb = Aabb::new((0, 0), 5);
    let quadrants = aabb.subdivide();

    // the quadrants of a region with an odd half-dimension round it
    // up, so that together they cover the parent
    assert_eq!(quadrants[0].half_dim, 3);
    assert_eq!(quadrants[1].center, Point { x: 3, y: 3 });
}

#[test]
fn test_aabb_quadrants_of_points() {
    let aabb = Aabb::new((5, 5), 3);

    assert_eq!(aabb.diag_pos_from_center(Point { x: 6, y: 6 }), DiagonalDirection::UpRight);
    assert_eq!(aabb.diag_pos_from_center(Point { x: 4, y: 6 }), DiagonalDirection::UpLeft);
    assert_eq!(aabb.diag_pos_from_center(Point { x: 4, y: 4 }), DiagonalDirection::DownLeft);
    assert_eq!(aabb.diag_pos_from_center(Point { x: 6, y: 4 }), DiagonalDirection::DownRight);
    // ties go to the lower/left side
    assert_eq!(aabb.diag_pos_from_center(Point { x: 5, y: 9 }), DiagonalDirection::UpLeft);
    assert_eq!(aabb.diag_pos_from_center(Point { x: 9, y: 5 }), DiagonalDirection::DownRight);
    assert_eq!(aabb.diag_pos_from_center(Point { x: 5, y: 5 }), DiagonalDirection::DownLeft);
}

#[test]
fn test_aabb_edge_touching_regions_do_not_intersect() {
    // [0,2] x [0,2] and [2,4] x [2,4] touch along an edge only
    let a = Aabb::new((1, 1), 1);
    let b = Aabb::new((3, 3), 1);

    assert!(!a.intersect(b));
    assert!(!b.intersect(a));
}

#[test]
fn test_aabb_from_min_max_odd_distance() {
    // corners at an odd Chebyshev distance: the half-dimension
    // rounds up, so both corners stay contained
    let aabb = Aabb::from_min_max((0, 0), (2, 3));

    assert_eq!(aabb.center, Point { x: 1, y: 1 });
    assert_eq!(aabb.half_dim, 2);
    assert!(aabb.contain_pt(Point { x: 0, y: 0 }));
    assert!(aabb.contain_pt(Point { x: 2, y: 3 }));
}

#[test]
fn test_aabb_tchebychev_dist() {
    let aabb = Aabb::new((0, 0), 10);

    assert_eq!(aabb.tchebychev_dist(Point { x: 3, y: -7 }), 7);
    assert_eq!(aabb.tchebychev_dist(Point { x: 0, y: 0 }), 0);
}
