//! A point quadtree over an integer grid: points are indexed inside an
//! axis-aligned rectangle that is split into four quadrants whenever a leaf
//! runs out of room.

pub mod geometry;
pub mod quadtree;
