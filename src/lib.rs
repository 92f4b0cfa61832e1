//! Strided N-dimensional arrays: storage addressed through a shape, strides and a
//! memory layout, with bounds-checked indexing, metadata-only reshaping and transposition,
//! NumPy-style broadcasting, odometer iteration and elementwise and matrix arithmetic.

pub mod activations;
pub mod arithmetic;
pub mod broadcast;
pub mod errors;
pub mod layout;
pub mod matrix;
pub mod shape_math;
pub mod type_traits;
pub mod utils;
