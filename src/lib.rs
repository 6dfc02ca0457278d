//! Traversal of fixed-rank strided arrays: elements in row-major order, the
//! extent and stride of each axis, and the one-index-thick slabs along an axis.
pub mod array;
pub mod iter;
pub mod laws;
pub mod model;
