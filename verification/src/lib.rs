//! A two-dimensional spatial index: a region quadtree over integer grid
//! coordinates.
//!
//! The tree stores point records (a planar coordinate plus an opaque payload
//! handle) and answers axis-aligned rectangle range queries. Nodes hold at
//! most `capacity` records; an overflowing leaf splits into four equal
//! quadrants and migrates its records into them. Node bounds are half-open
//! (`[min, max)` on both axes), so every coordinate inside the world
//! rectangle is owned by exactly one leaf; query rectangles use closed
//! containment, so a point exactly on a query edge is reported.

mod geometry;
mod quadtree;

pub use geometry::Point;
pub use geometry::Rect;
pub use geometry::COORD_LIMIT;
pub use geometry::rect_wf;
pub use geometry::rect_owns;
pub use geometry::rect_covers;
pub use geometry::rect_meets;
pub use geometry::rect_mid;
pub use geometry::rect_splittable;
pub use geometry::rect_atomic;
pub use geometry::rect_region;
pub use geometry::rect_from_center_size;
pub use geometry::quad_ne;
pub use geometry::quad_nw;
pub use geometry::quad_se;
pub use geometry::quad_sw;
pub use geometry::lemma_quadrants_partition;
pub use quadtree::TreeNode;
pub use quadtree::QuadTree;
pub use quadtree::covered_by;
pub use quadtree::count_saturated;
