//! Square axis-aligned regions under the Chebyshev metric.
//!
//! A region is a center point plus a half-dimension; it contains the
//! points whose Chebyshev distance from the center is at most the
//! half-dimension (a closed square).  Two regions intersect when the
//! distance between their centers is strictly below the sum of their
//! half-dimensions, so squares that merely touch along an edge do not
//! count as intersecting.
//!
//! Subdividing a region yields the four quadrant regions.  On the
//! integer grid an odd half-dimension cannot be halved exactly; the
//! quadrants round it up, so that together they always cover the
//! parent region.

use vstd::prelude::*;

use crate::points::Point;
use crate::points::As2dPoint;
use crate::points::abs_of;
use crate::points::cheb_dist;
use crate::points::point_of;

verus! {

/// Bound on `|center coordinate| + 2 * half_dim` of a well-formed
/// region.  Subdividing keeps the bound, and it keeps all region
/// arithmetic far away from `i64` overflow.
pub const REGION_MAX: i64 = 8_000_000_000;

/// One of the four diagonal quadrants of a region.
#[derive(Debug, Clone, Copy, PartialEq, Eq, Structural)]
pub enum DiagonalDirection {
    UpRight,
    UpLeft,
    DownLeft,
    DownRight,
}

/// A square region: all points within Chebyshev distance `half_dim`
/// of `center`.
#[derive(Debug, Clone, Copy, PartialEq, Eq, Structural)]
pub struct Aabb {
    pub center: Point,
    pub half_dim: i64,
}

impl Aabb {
    /// A region is well formed when it has positive extent and sits
    /// within the coordinate window that region arithmetic supports.
    pub open spec fn wf(self) -> bool {
        &&& 1 <= self.half_dim
        &&& -REGION_MAX <= self.center.x - 2 * self.half_dim
        &&& self.center.x + 2 * self.half_dim <= REGION_MAX
        &&& -REGION_MAX <= self.center.y - 2 * self.half_dim
        &&& self.center.y + 2 * self.half_dim <= REGION_MAX
    }

    /// The closed containment test of the Chebyshev metric.
    pub open spec fn contains_point(self, p: Point) -> bool {
        cheb_dist(self.center, p) <= self.half_dim
    }

    /// Strict containment: the point is inside, not on the border.
    pub open spec fn strictly_contains(self, p: Point) -> bool {
        cheb_dist(self.center, p) < self.half_dim
    }

    /// The open intersection test: edge-touching regions do not
    /// intersect.
    pub open spec fn intersects(self, other: Aabb) -> bool {
        cheb_dist(self.center, other.center) < self.half_dim + other.half_dim
    }

    /// Which quadrant a point falls in, relative to the center.
    /// Points exactly on an axis go to the lower/left side: the
    /// comparison is strict.
    pub open spec fn quadrant_of(self, p: Point) -> DiagonalDirection {
        if p.x > self.center.x {
            if p.y > self.center.y {
                DiagonalDirection::UpRight
            } else {
                DiagonalDirection::DownRight
            }
        } else {
            if p.y > self.center.y {
                DiagonalDirection::UpLeft
            } else {
                DiagonalDirection::DownLeft
            }
        }
    }

    /// Half-dimension of the quadrant regions: half of `half_dim`,
    /// rounded up so the quadrants cover the parent.
    pub open spec fn quarter(self) -> int {
        (self.half_dim + 1) / 2
    }

    /// The quadrant region in direction `dir`: centered a quarter
    /// dimension diagonally from the parent center.
    pub open spec fn child_region(self, dir: DiagonalDirection) -> Aabb {
        let q = self.quarter();
        match dir {
            DiagonalDirection::UpRight => Aabb {
                center: Point { x: (self.center.x + q) as i64, y: (self.center.y + q) as i64 },
                half_dim: q as i64,
            },
            DiagonalDirection::UpLeft => Aabb {
                center: Point { x: (self.center.x - q) as i64, y: (self.center.y + q) as i64 },
                half_dim: q as i64,
            },
            DiagonalDirection::DownLeft => Aabb {
                center: Point { x: (self.center.x - q) as i64, y: (self.center.y - q) as i64 },
                half_dim: q as i64,
            },
            DiagonalDirection::DownRight => Aabb {
                center: Point { x: (self.center.x + q) as i64, y: (self.center.y - q) as i64 },
                half_dim: q as i64,
            },
        }
    }

    /// Quadrant regions of a subdividable region are well formed,
    /// strictly smaller, and stay within the parent's window.
    pub proof fn lemma_child_region_wf(self, dir: DiagonalDirection)
        requires
            self.wf(),
            self.half_dim >= 2,
        ensures
            self.child_region(dir).wf(),
            self.child_region(dir).half_dim < self.half_dim,
    {
    }

    /// Every point of a region is contained in the quadrant region
    /// that `quadrant_of` assigns it to.
    pub proof fn lemma_quadrant_covers(self, p: Point)
        requires
            self.wf(),
            self.contains_point(p),
        ensures
            self.child_region(self.quadrant_of(p)).contains_point(p),
    {
    }

    /// Triangle inequality of the Chebyshev metric: a region holding
    /// a point that lies strictly inside a query region intersects
    /// that query region.
    pub proof fn lemma_contained_point_intersects(self, range: Aabb, p: Point)
        requires
            self.contains_point(p),
            range.strictly_contains(p),
        ensures
            self.intersects(range),
    {
    }

    pub fn new(center: (i64, i64), half_width: i64) -> (r: Self)
        requires
            (Aabb { center: Point { x: center.0, y: center.1 }, half_dim: half_width }).wf(),
        ensures
            r == (Aabb { center: Point { x: center.0, y: center.1 }, half_dim: half_width }),
            r.wf(),
    {
        Self { center: Point { x: center.0, y: center.1 }, half_dim: half_width }
    }

    /// Chebyshev distance from the region's center to a point.
    pub fn tchebychev_dist(self, point: Point) -> (r: u64)
        ensures
            r == cheb_dist(self.center, point),
    {
        self.center.tchebychev_dist(point)
    }

    /// Closed containment test.
    pub fn contain_pt(self, point: Point) -> (r: bool)
        ensures
            r == self.contains_point(point),
    {
        let d: u64 = self.tchebychev_dist(point);
        self.half_dim >= 0 && d <= (self.half_dim as u64)
    }

    /// Open intersection test.
    pub fn intersect(self, other: Self) -> (r: bool)
        ensures
            r == self.intersects(other),
    {
        let d: u64 = self.tchebychev_dist(other.center);
        (d as i128) < (self.half_dim as i128) + (other.half_dim as i128)
    }

    /// Which quadrant a point falls in, relative to the center.
    pub fn diag_pos_from_center(&self, point: Point) -> (r: DiagonalDirection)
        ensures
            r == self.quadrant_of(point),
    {
        match (point.x > self.center.x, point.y > self.center.y) {
            (false, false) => DiagonalDirection::DownLeft,
            (false, true) => DiagonalDirection::UpLeft,
            (true, false) => DiagonalDirection::DownRight,
            (true, true) => DiagonalDirection::UpRight,
        }
    }

    /// The quadrant region in direction `dir`.
    pub fn quadrant_region(self, dir: DiagonalDirection) -> (r: Self)
        requires
            self.wf(),
        ensures
            r == self.child_region(dir),
    {
        let q: i64 = (self.half_dim + 1) / 2;
        let cx: i64 = self.center.x;
        let cy: i64 = self.center.y;
        match dir {
            DiagonalDirection::UpRight => Self {
                center: Point { x: cx + q, y: cy + q },
                half_dim: q,
            },
            DiagonalDirection::UpLeft => Self {
                center: Point { x: cx - q, y: cy + q },
                half_dim: q,
            },
            DiagonalDirection::DownLeft => Self {
                center: Point { x: cx - q, y: cy - q },
                half_dim: q,
            },
            DiagonalDirection::DownRight => Self {
                center: Point { x: cx + q, y: cy - q },
                half_dim: q,
            },
        }
    }

    /// The four quadrant regions, in the order up-left, up-right,
    /// down-right, down-left.
    pub fn subdivide(self) -> (r: [Self; 4])
        requires
            self.wf(),
        ensures
            r[0] == self.child_region(DiagonalDirection::UpLeft),
            r[1] == self.child_region(DiagonalDirection::UpRight),
            r[2] == self.child_region(DiagonalDirection::DownRight),
            r[3] == self.child_region(DiagonalDirection::DownLeft),
    {
        let q: i64 = (self.half_dim + 1) / 2;
        let cx: i64 = self.center.x;
        let cy: i64 = self.center.y;
        [
            Self { center: Point { x: cx - q, y: cy + q }, half_dim: q },
            Self { center: Point { x: cx + q, y: cy + q }, half_dim: q },
            Self { center: Point { x: cx + q, y: cy - q }, half_dim: q },
            Self { center: Point { x: cx - q, y: cy - q }, half_dim: q },
        ]
    }

    /// The square region spanned by two corner points: centered at
    /// their midpoint (rounded toward zero), with half their
    /// Chebyshev distance as half-dimension, rounded up so that both
    /// corners are contained even when the distance is odd.
    pub fn from_min_max<T: As2dPoint, U: As2dPoint>(min: T, max: U) -> (r: Self)
        requires
            point_of(min).is_valid(),
            point_of(max).is_valid(),
        ensures
            r.center.x == mid_toward_zero(point_of(min).x as int, point_of(max).x as int),
            r.center.y == mid_toward_zero(point_of(min).y as int, point_of(max).y as int),
            r.half_dim == (cheb_dist(point_of(min), point_of(max)) + 1) / 2,
            r.contains_point(point_of(min)),
            r.contains_point(point_of(max)),
            cheb_dist(point_of(min), point_of(max)) >= 1 ==> r.wf(),
    {
        let pmin: Point = min.as_point();
        let pmax: Point = max.as_point();
        let cx: i64 = half_toward_zero(pmin.x + pmax.x);
        let cy: i64 = half_toward_zero(pmin.y + pmax.y);
        let d: u64 = pmin.tchebychev_dist(pmax);
        let half: i64 = ((d + 1) / 2) as i64;
        let r = Self { center: Point { x: cx, y: cy }, half_dim: half };
        proof {
            lemma_mid_deviation(pmin.x as int, pmax.x as int);
            lemma_mid_deviation(pmin.y as int, pmax.y as int);
        }
        r
    }
}

/// The midpoint of two integers, rounded toward zero, is less than
/// half their distance, rounded up, away from either of them.
proof fn lemma_mid_deviation(a: int, b: int)
    ensures
        abs_of(a - mid_toward_zero(a, b)) <= (abs_of(b - a) + 1) / 2,
        abs_of(b - mid_toward_zero(a, b)) <= (abs_of(b - a) + 1) / 2,
{
}

/// The midpoint of two integers, rounded toward zero.
pub open spec fn mid_toward_zero(a: int, b: int) -> int {
    if a + b >= 0 {
        (a + b) / 2
    } else {
        -((-(a + b)) / 2)
    }
}

/// Half of an integer, rounded toward zero, as `/` rounds in
/// executable code.
pub(crate) fn half_toward_zero(v: i64) -> (r: i64)
    requires
        -4_000_000_000 <= v <= 4_000_000_000,
    ensures
        r == (if v >= 0 { (v as int) / 2 } else { -((-(v as int)) / 2) }),
{
    if v >= 0 {
        v / 2
    } else {
        -((-v) / 2)
    }
}

} // verus!
