//! An in-memory approximate nearest neighbor index: a forest of
//! randomized binary space-partitioning trees over fixed-dimension
//! vectors. Coordinates are IEEE 754 single-precision values, carried
//! throughout as their raw 32-bit patterns.

pub mod single;
pub mod vector;
pub mod hyperplane;
pub mod tree;
pub mod ann_index;
