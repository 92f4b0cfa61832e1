use vstd::prelude::*;

verus! {

/// The closed set of failures shared by every matrix operation.
#[derive(Debug, Clone, Copy, PartialEq, Eq, Structural)]
pub enum MatrixError {
    InvalidParams,
    SliceError,
    ViewError,
    BroadcastError,
    OpError,
    DimError,
    MatmulShapeError,
    ShapeError,
    OutOfBounds,
    ReshapeError,
}

impl MatrixError {
    /// Human-readable description of the error.
    pub fn message(&self) -> &'static str {
        match self {
            MatrixError::InvalidParams => "Invalid parameters",
            MatrixError::SliceError => "Invalid slice for Matrix",
            MatrixError::ViewError => "Invalid view shape for Matrix",
            MatrixError::BroadcastError => "Shapes are not broadcastable",
            MatrixError::OpError => "Matrix cannot be operated on",
            MatrixError::DimError => "Matrix cannot be operated on over the given dimension",
            MatrixError::MatmulShapeError =>
                "Matrix must have at least two dimensions and have same shape in all dims except the last dimension",
            MatrixError::ShapeError =>
                "Matrix must have the same shape in all dims except the last dimension",
            MatrixError::OutOfBounds => "Indices are out of bounds for the matrix",
            MatrixError::ReshapeError => "Matrix cannot be reshaped into given shape",
        }
    }
}

} // verus!
