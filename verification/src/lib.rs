//! Dense tensors of fixed rank: a shape, row-major storage, access by
//! coordinate, deep copy and elementwise addition.

pub mod scalar;
pub mod shape;
pub mod tensor;

pub use crate::scalar::Scalar;
pub use crate::shape::{Dim, Dimension, ShapeMismatch};
pub use crate::tensor::Tensor;
