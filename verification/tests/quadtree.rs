use std::cell::Cell;

use quadtree::aabb::Aabb;
use quadtree::points::Point;
use quadtree::quadtree::Quadtree;
use quadtree::quadtree::QuadtreeError;

fn sorted(mut v: Vec<usize>) -> Vec<usize> {
    v.sort();
    v
}

#[test]
fn test_quadtree_insert() {
    let boundary = Aabb::new((5, 5), 5);
    let mut quadtree: Quadtree<Point, 4> = Quadtree::empty(boundary);

    let point = Point { x: 6, y: 6 };
    assert!(quadtree.insert(point).is_ok());
}

#[test]
fn test_quadtree_query_range() {
    let boundary = Aabb::new((5, 5), 5);
    let mut quadtree: Quadtree<Point, 4> = Quadtree::empty(boundary);

    let point = Point { x: 4, y: 4 };
    quadtree.insert(point).unwrap();

    let query_range = Aabb::new((4, 4), 1);
    let result = quadtree.query_range(query_range);

    assert_eq!(result.len(), 1);
}

#[test]
fn test_rebuild() {
    let boundary = Aabb::new((0, 0), 100);
    let mut qtree: Quadtree<Point, 3> = Quadtree::empty(boundary);

    let points = vec![
        Point { x: 4, y: 4 },
        Point { x: 8, y: 4 },
        Point { x: 10, y: 5 },
        Point { x: 25, y: -1 },
    ];
    for p in points {
        qtree.insert(p).unwrap();
    }
}

#[test]
fn test_insert_in_boundary_succeeds_and_grows_store() {
    let mut tree: Quadtree<Point, 4> = Quadtree::empty(Aabb::new((0, 0), 10));

    assert_eq!(tree.len(), 0);
    assert!(tree.is_empty());
    assert!(tree.insert(Point { x: 3, y: -2 }).is_ok());
    assert_eq!(tree.len(), 1);
    assert!(tree.insert(Point { x: -10, y: 10 }).is_ok());
    assert_eq!(tree.len(), 2);
    assert!(!tree.is_empty());
}

#[test]
fn test_insert_out_of_boundary_fails_and_leaves_store() {
    let boundary = Aabb::new((0, 0), 10);
    let mut tree: Quadtree<Point, 4> = Quadtree::empty(boundary);
    tree.insert(Point { x: 1, y: 1 }).unwrap();

    let p = Point { x: 20, y: 0 };
    let r = tree.insert(p);

    assert_eq!(r, Err(QuadtreeError::OutOfBoundary(boundary, p)));
    assert_eq!(tree.len(), 1);
}

#[test]
fn test_insert_invalid_coord_rejected_before_boundary() {
    // an invalid coordinate is rejected as invalid even when the
    // point also lies outside the boundary
    let boundary = Aabb::new((0, 0), 10);
    let mut tree: Quadtree<Point, 4> = Quadtree::empty(boundary);

    let p = Point { x: 2_000_000_000, y: 0 };
    assert_eq!(tree.insert(p), Err(QuadtreeError::InvalidCoord(p)));
    assert_eq!(tree.len(), 0);
}

#[test]
fn test_insert_fit_refits_to_padded_extents() {
    let mut tree: Quadtree<Point, 4> = Quadtree::empty(Aabb::new((0, 0), 2));
    tree.insert(Point { x: 1, y: 1 }).unwrap();

    // (10, 10) does not fit: the boundary is recomputed from the
    // element extents [1, 10] x [1, 10], padded to [0, 11] on each
    // axis, giving center (5, 5) and half-dimension 5
    tree.insert_fit(Point { x: 10, y: 10 });

    let refit = Aabb::new((5, 5), 5);
    let outside = Point { x: 11, y: 0 };
    assert_eq!(
        tree.insert(outside),
        Err(QuadtreeError::OutOfBoundary(refit, outside))
    );
}

#[test]
fn test_insert_invalid_coord_fails() {
    // a boundary large enough to contain a point whose coordinate
    // lies outside the valid window
    let boundary = Aabb::new((0, 0), 2_000_000_000);
    let mut tree: Quadtree<Point, 4> = Quadtree::empty(boundary);

    let p = Point { x: 1_500_000_000, y: 0 };
    let r = tree.insert(p);

    assert_eq!(r, Err(QuadtreeError::InvalidCoord(p)));
    assert_eq!(tree.len(), 0);
}

#[test]
fn test_insert_fit_never_fails() {
    let mut tree: Quadtree<Point, 4> = Quadtree::empty(Aabb::new((0, 0), 2));

    tree.insert_fit(Point { x: 1, y: 1 });
    assert_eq!(tree.len(), 1);
    // far outside the boundary: the index is rebuilt to fit
    tree.insert_fit(Point { x: 1000, y: -700 });
    assert_eq!(tree.len(), 2);
    tree.insert_fit(Point { x: -3000, y: 0 });
    assert_eq!(tree.len(), 3);

    let everything = Aabb::new((0, 0), 1_000_000);
    assert_eq!(sorted(tree.query_range(everything)), vec![0, 1, 2]);
}

#[test]
fn test_five_clustered_points_subdivide_once() {
    let mut tree: Quadtree<Point, 4> = Quadtree::empty(Aabb::new((0, 0), 8));
    assert_eq!(tree.depth(), 1);

    // clustered well within the root region, spread over two
    // quadrants of its center
    tree.insert(Point { x: 1, y: 1 }).unwrap();
    tree.insert(Point { x: 2, y: 2 }).unwrap();
    tree.insert(Point { x: -1, y: -1 }).unwrap();
    tree.insert(Point { x: -2, y: -2 }).unwrap();
    assert_eq!(tree.depth(), 1);
    tree.insert(Point { x: 1, y: 2 }).unwrap();

    assert_eq!(tree.depth(), 2);
}

#[test]
fn test_coincident_points_beyond_capacity() {
    let mut tree: Quadtree<Point, 3> = Quadtree::empty(Aabb::new((0, 0), 4));

    for _ in 0..5 {
        assert!(tree.insert(Point { x: 1, y: 1 }).is_ok());
    }
    assert_eq!(tree.len(), 5);
    assert_eq!(sorted(tree.query_range(Aabb::new((0, 0), 100))), vec![0, 1, 2, 3, 4]);
}

#[test]
fn test_query_covering_returns_all_indices() {
    let mut tree: Quadtree<Point, 2> = Quadtree::empty(Aabb::new((0, 0), 50));
    let points = [
        Point { x: 1, y: 1 },
        Point { x: -20, y: 30 },
        Point { x: 40, y: -40 },
        Point { x: 7, y: 7 },
        Point { x: 7, y: 8 },
        Point { x: -3, y: -49 },
    ];
    for p in points.iter() {
        tree.insert(*p).unwrap();
    }

    let covering = Aabb::new((0, 0), 60);
    assert_eq!(sorted(tree.query_range(covering)), vec![0, 1, 2, 3, 4, 5]);
}

#[test]
fn test_query_empty_tree() {
    let tree: Quadtree<Point, 4> = Quadtree::empty(Aabb::new((0, 0), 10));
    assert!(tree.query_range(Aabb::new((0, 0), 100)).is_empty());
}

#[test]
fn test_rebuild_preserves_query_set() {
    let mut tree: Quadtree<Point, 2> = Quadtree::empty(Aabb::new((0, 0), 50));
    let points = [
        Point { x: 5, y: 5 },
        Point { x: -8, y: 13 },
        Point { x: 44, y: -21 },
        Point { x: 6, y: 5 },
    ];
    for p in points.iter() {
        tree.insert(*p).unwrap();
    }
    let covering = Aabb::new((0, 0), 60);
    let before = sorted(tree.query_range(covering));

    tree.rebuild().unwrap();
    let after = sorted(tree.query_range(covering));

    assert_eq!(before, after);
    assert_eq!(after, vec![0, 1, 2, 3]);
}

#[test]
fn test_change_bounds_ok_and_err() {
    let mut tree: Quadtree<Point, 4> = Quadtree::empty(Aabb::new((0, 0), 10));
    tree.insert(Point { x: 9, y: 9 }).unwrap();
    tree.insert(Point { x: -1, y: 0 }).unwrap();

    // growing the boundary keeps everything reachable
    assert!(tree.change_bounds(Aabb::new((0, 0), 100)).is_ok());
    assert_eq!(sorted(tree.query_range(Aabb::new((0, 0), 200))), vec![0, 1]);

    // a boundary that misses an element is rejected, with the first
    // offending element reported, and the tree left as it was
    let small = Aabb::new((0, 0), 5);
    let r = tree.change_bounds(small);
    assert_eq!(r, Err(QuadtreeError::OutOfBoundary(small, Point { x: 9, y: 9 })));
    assert_eq!(sorted(tree.query_range(Aabb::new((0, 0), 200))), vec![0, 1]);
}

#[test]
fn test_new_refits_boundary_when_needed() {
    let points = vec![Point { x: 0, y: 0 }, Point { x: 500, y: -500 }];
    let tree: Quadtree<Point, 4> = Quadtree::new(Aabb::new((0, 0), 1), points);

    assert_eq!(tree.len(), 2);
    assert_eq!(sorted(tree.query_range(Aabb::new((0, 0), 10_000))), vec![0, 1]);
}

#[test]
fn test_get_set_iter() {
    let mut tree: Quadtree<Point, 4> = Quadtree::empty(Aabb::new((0, 0), 10));
    tree.insert(Point { x: 1, y: 2 }).unwrap();
    tree.insert(Point { x: 3, y: 4 }).unwrap();

    assert_eq!(*tree.get(0), Point { x: 1, y: 2 });
    assert_eq!(tree.iter().len(), 2);
    assert_eq!(tree.iter()[1], Point { x: 3, y: 4 });

    tree.set(1, Point { x: -5, y: -5 });
    assert_eq!(*tree.get(1), Point { x: -5, y: -5 });
    assert_eq!(tree.len(), 2);
}

#[test]
fn test_map_query_range_moves_matched_points() {
    let mut tree: Quadtree<Point, 4> = Quadtree::empty(Aabb::new((0, 0), 10));
    tree.insert(Point { x: 0, y: 0 }).unwrap();
    tree.insert(Point { x: 5, y: 5 }).unwrap();

    // both points share the root leaf, so the broad-phase match
    // touches both even though only one is inside the region
    tree.map_query_range(Aabb::new((0, 0), 2), |p: &Point| Point { x: p.x + 1, y: p.y });

    assert_eq!(*tree.get(0), Point { x: 1, y: 0 });
    assert_eq!(*tree.get(1), Point { x: 6, y: 5 });
}

#[test]
fn test_map_with_elem_in_range_visits_pair_from_each_side() {
    let mut tree: Quadtree<Point, 4> = Quadtree::empty(Aabb::new((0, 0), 10));
    tree.insert(Point { x: 0, y: 0 }).unwrap();
    tree.insert(Point { x: 3, y: 0 }).unwrap();

    let calls = Cell::new(0u32);
    tree.map_with_elem_in_range(
        |p: &Point| Aabb::new((p.x, p.y), 5),
        |a: &Point, b: &Point| {
            calls.set(calls.get() + 1);
            (*a, *b)
        },
    );

    // the unordered pair is visited once from each side
    assert_eq!(calls.get(), 2);
}

#[test]
fn test_update_pair_interacts_exactly_once() {
    let mut tree: Quadtree<Point, 4> = Quadtree::empty(Aabb::new((0, 0), 10));
    tree.insert(Point { x: 0, y: 0 }).unwrap();
    tree.insert(Point { x: 3, y: 0 }).unwrap();

    let pair_calls = Cell::new(0u32);
    let first_calls = Cell::new(0u32);
    let last_calls = Cell::new(0u32);
    tree.map_then_map_with_elem_in_range_then_map(
        |p: &Point| {
            first_calls.set(first_calls.get() + 1);
            *p
        },
        |p: &Point| Aabb::new((p.x, p.y), 5),
        |a: &Point, b: &Point| {
            pair_calls.set(pair_calls.get() + 1);
            (*a, *b)
        },
        |p: &Point| {
            last_calls.set(last_calls.get() + 1);
            *p
        },
    );

    // each element is pre- and post-processed once; the pairwise
    // callback fires exactly once for the unordered pair
    assert_eq!(first_calls.get(), 2);
    assert_eq!(last_calls.get(), 2);
    assert_eq!(pair_calls.get(), 1);
}

#[test]
fn test_update_moves_elements_and_reindexes() {
    let mut tree: Quadtree<Point, 4> = Quadtree::empty(Aabb::new((0, 0), 10));
    tree.insert(Point { x: 0, y: 0 }).unwrap();
    tree.insert(Point { x: 4, y: 4 }).unwrap();

    // move every element far outside the boundary: the sweep falls
    // back to a full refit, and the index stays usable
    tree.map_then_map_with_elem_in_range_then_map(
        |p: &Point| Point { x: p.x + 1000, y: p.y },
        |p: &Point| Aabb::new((p.x, p.y), 2),
        |a: &Point, b: &Point| (*a, *b),
        |p: &Point| Point { x: p.x, y: p.y - 1000 },
    );

    assert_eq!(*tree.get(0), Point { x: 1000, y: -1000 });
    assert_eq!(*tree.get(1), Point { x: 1004, y: -996 });
    assert_eq!(sorted(tree.query_range(Aabb::new((0, 0), 100_000))), vec![0, 1]);
}

#[test]
fn test_rebuild_fit_keeps_boundary_when_everything_fits() {
    let mut tree: Quadtree<Point, 4> = Quadtree::empty(Aabb::new((0, 0), 10));
    tree.insert(Point { x: 2, y: 2 }).unwrap();
    tree.rebuild_fit();

    // the boundary was kept, so a point just outside it is still
    // rejected by insert
    let p = Point { x: 11, y: 0 };
    assert_eq!(
        tree.insert(p),
        Err(QuadtreeError::OutOfBoundary(Aabb::new((0, 0), 10), p))
    );
}
