//! Error kinds reported by the array core and by the tiled matmul engine.

use vstd::prelude::*;

verus! {

broadcast use vstd::group_vstd_default;

/// Failure kinds of array construction, indexing, mutation and reduction.
///
/// Every fallible operation of the core returns one of these instead of
/// panicking; no operation mutates its output when it fails.
#[derive(Clone, Copy, Debug, PartialEq, Eq, Structural)]
pub enum NdArrayError {
    /// A dimension vector contains a zero where a non-empty axis is required.
    InvalidShape,
    /// A coordinate vector has the wrong rank or an out-of-range component.
    IndexOutOfBounds,
    /// A value buffer's length differs from the span of the target shape.
    LengthMismatch,
    /// Two operands are not contraction- or broadcast-compatible.
    ShapeMismatch,
    /// A reduction was requested over an array with no elements.
    EmptyArray,
}

impl NdArrayError {
    /// A short human-readable name for the error kind.
    pub fn describe(&self) -> (r: &'static str)
        ensures
            true,
    {
        match self {
            NdArrayError::InvalidShape => "invalid shape",
            NdArrayError::IndexOutOfBounds => "index out of bounds",
            NdArrayError::LengthMismatch => "length mismatch",
            NdArrayError::ShapeMismatch => "shape mismatch",
            NdArrayError::EmptyArray => "empty array",
        }
    }
}

/// Failure kinds of the device-assisted matmul path.
#[derive(Clone, Copy, Debug, PartialEq, Eq, Structural)]
pub enum GpuNdArrayError {
    /// No compute-capable device could be initialized.
    NoExecutor,
    /// The compute pipeline failed to build or load.
    NoShader,
}

impl GpuNdArrayError {
    /// A short human-readable name for the error kind.
    pub fn describe(&self) -> (r: &'static str)
        ensures
            true,
    {
        match self {
            GpuNdArrayError::NoExecutor => "no executor",
            GpuNdArrayError::NoShader => "no shader",
        }
    }
}

} // verus!
