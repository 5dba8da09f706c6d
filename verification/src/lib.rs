//! Dense n-dimensional array ("tensor") library.
//!
//! The core offers shape-aware indexing, row-major storage, construction and
//! mutation of arrays, column iteration, transposition, reductions, and a
//! broadcasting matrix multiplication. A tiled execution model mirrors a GPU
//! compute dispatch: the tiled interior of the output grid is produced by an
//! external device, while the trailing remainder bands are computed on the
//! CPU and the two parts are merged by addition.

#![verifier::loop_isolation(false)]

pub mod error;
pub mod gpu;
pub mod matmul;
pub mod ops;
pub mod ndarray;
pub mod shape;
