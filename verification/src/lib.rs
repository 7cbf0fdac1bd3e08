//! A quadtree index for two-dimensional points on an integer grid.
//!
//! The tree partitions a square region (measured with the Chebyshev
//! metric) into four quadrants, recursively, and stores for every
//! element of an append-only backing store the index under which it
//! was inserted.  Region queries walk the tree and prune whole
//! subtrees whose boundary does not intersect the query region.

pub mod aabb;
pub mod points;
mod node;
pub mod quadtree;

pub use crate::aabb::Aabb;
pub use crate::aabb::DiagonalDirection;
pub use crate::points::As2dPoint;
pub use crate::points::COORD_MAX;
pub use crate::points::IndexPoint;
pub use crate::points::Point;
pub use crate::quadtree::Quadtree;
pub use crate::quadtree::QuadtreeError;
