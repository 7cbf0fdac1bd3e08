//! Plain 2D points on the integer grid, and the distance functions of
//! the Chebyshev metric that the region algebra is built on.
//!
//! A coordinate is *valid* when its magnitude is at most [`COORD_MAX`];
//! points with a coordinate outside that window are rejected by the
//! tree, never stored, so every distance computation on stored points
//! stays far away from machine overflow.

use vstd::prelude::*;

verus! {

/// Largest magnitude a coordinate of a stored point may have.
pub const COORD_MAX: i64 = 1_000_000_000;

/// Magnitude of an integer.
pub open spec fn abs_of(v: int) -> int {
    if v < 0 {
        -v
    } else {
        v
    }
}

/// The larger of two integers.
pub open spec fn max_of(a: int, b: int) -> int {
    if a < b {
        b
    } else {
        a
    }
}

/// A 2D point with integer coordinates.
#[derive(Debug, Clone, Copy, PartialEq, Eq, Structural)]
pub struct Point {
    pub x: i64,
    pub y: i64,
}

/// Chebyshev distance between two points: `max(|dx|, |dy|)`.
pub open spec fn cheb_dist(a: Point, b: Point) -> int {
    max_of(abs_of(b.x - a.x), abs_of(b.y - a.y))
}

/// Squared Euclidean distance between two points.
pub open spec fn euclid_dist_sq(a: Point, b: Point) -> int {
    (b.x - a.x) * (b.x - a.x) + (b.y - a.y) * (b.y - a.y)
}

impl Point {
    /// Both coordinates lie within the valid window.
    pub open spec fn is_valid(self) -> bool {
        &&& -COORD_MAX <= self.x <= COORD_MAX
        &&& -COORD_MAX <= self.y <= COORD_MAX
    }

    /// True exactly when both coordinates are within the valid window.
    pub fn as_valid_coord(&self) -> (r: bool)
        ensures
            r == self.is_valid(),
    {
        -COORD_MAX <= self.x && self.x <= COORD_MAX && -COORD_MAX <= self.y && self.y <= COORD_MAX
    }

    /// Squared Euclidean distance to `other`.
    pub fn dist_sq(self, other: Self) -> (r: u64)
        requires
            self.is_valid(),
            other.is_valid(),
        ensures
            r == euclid_dist_sq(self, other),
    {
        let dx: i64 = other.x - self.x;
        let dy: i64 = other.y - self.y;
        proof {
            assert(0 <= dx * dx <= 4_000_000_000_000_000_000 && 0 <= dy * dy
                <= 4_000_000_000_000_000_000) by (nonlinear_arith)
                requires
                    -2_000_000_000 <= dx <= 2_000_000_000,
                    -2_000_000_000 <= dy <= 2_000_000_000,
            ;
        }
        (dx * dx + dy * dy) as u64
    }

    /// Euclidean distance to `other`, rounded down to an integer.
    pub fn dist(self, other: Self) -> (r: u64)
        requires
            self.is_valid(),
            other.is_valid(),
        ensures
            r * r <= euclid_dist_sq(self, other) < (r + 1) * (r + 1),
    {
        isqrt(self.dist_sq(other))
    }

    /// Chebyshev distance to `other`.
    pub fn tchebychev_dist(self, other: Self) -> (r: u64)
        ensures
            r == cheb_dist(self, other),
    {
        let dx: i128 = (other.x as i128) - (self.x as i128);
        let dy: i128 = (other.y as i128) - (self.y as i128);
        let adx: i128 = if dx < 0 {
            -dx
        } else {
            dx
        };
        let ady: i128 = if dy < 0 {
            -dy
        } else {
            dy
        };
        let m: i128 = if adx < ady {
            ady
        } else {
            adx
        };
        m as u64
    }
}

/// Integer square root: the largest `r` with `r * r <= n`.
fn isqrt(n: u64) -> (r: u64)
    ensures
        r * r <= n < (r + 1) * (r + 1),
{
    let mut lo: u64 = 0;
    let mut hi: u64 = 4_294_967_296;
    while lo + 1 < hi
        invariant
            lo < hi <= 4_294_967_296,
            lo * lo <= n,
            n < hi * hi,
        decreases hi - lo,
    {
        let mid: u64 = lo + (hi - lo) / 2;
        proof {
            assert((mid as int) * (mid as int) <= 0x1_0000_0000_0000_0000) by (nonlinear_arith)
                requires
                    0 <= mid <= 0x1_0000_0000,
            ;
        }
        if ((mid as u128) * (mid as u128)) <= (n as u128) {
            lo = mid;
        } else {
            hi = mid;
        }
    }
    lo
}

/// A point together with the backing-store index of the element it
/// was taken from.  Indices are stable: the store is append-only.
#[derive(Debug, Clone, Copy, PartialEq, Eq, Structural)]
pub struct IndexPoint {
    pub x: i64,
    pub y: i64,
    pub i: usize,
}

impl IndexPoint {
    /// The bare coordinates of this entry.
    pub open spec fn pt(self) -> Point {
        Point { x: self.x, y: self.y }
    }

    pub fn new(x: i64, y: i64, i: usize) -> (r: Self)
        ensures
            r == (IndexPoint { x, y, i }),
    {
        Self { x, y, i }
    }

    /// Forget the index, keeping the coordinates.
    pub fn into_point(self) -> (r: Point)
        ensures
            r == self.pt(),
    {
        Point { x: self.x, y: self.y }
    }
}

/// Anything that exposes a 2D position.  The tree indexes its elements
/// through this trait alone.
pub trait As2dPoint: Sized {
    /// The x coordinate, at the specification level.
    spec fn x_spec(self) -> i64;

    /// The y coordinate, at the specification level.
    spec fn y_spec(self) -> i64;

    fn x(&self) -> (r: i64)
        ensures
            r == self.x_spec(),
    ;

    fn y(&self) -> (r: i64)
        ensures
            r == self.y_spec(),
    ;

    fn as_point(&self) -> (r: Point)
        ensures
            r == (Point { x: self.x_spec(), y: self.y_spec() }),
    {
        Point { x: self.x(), y: self.y() }
    }
}

/// The position of an element, as a [`Point`].
pub open spec fn point_of<T: As2dPoint>(t: T) -> Point {
    Point { x: t.x_spec(), y: t.y_spec() }
}

impl As2dPoint for (i64, i64) {
    open spec fn x_spec(self) -> i64 {
        self.0
    }

    open spec fn y_spec(self) -> i64 {
        self.1
    }

    fn x(&self) -> i64 {
        self.0
    }

    fn y(&self) -> i64 {
        self.1
    }
}

impl As2dPoint for Point {
    open spec fn x_spec(self) -> i64 {
        self.x
    }

    open spec fn y_spec(self) -> i64 {
        self.y
    }

    fn x(&self) -> i64 {
        self.x
    }

    fn y(&self) -> i64 {
        self.y
    }
}

impl As2dPoint for IndexPoint {
    open spec fn x_spec(self) -> i64 {
        self.x
    }

    open spec fn y_spec(self) -> i64 {
        self.y
    }

    fn x(&self) -> i64 {
        self.x
    }

    fn y(&self) -> i64 {
        self.y
    }
}

} // verus!
