//! Strided n-dimensional tensors: shapes, strides and views, broadcasting,
//! element-wise maps, reductions and matrix products over any element type.
pub mod layout;
pub mod tensor;

pub use tensor::Tensor;
