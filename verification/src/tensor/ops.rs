//! Operations on tensors: views, element-wise maps, reductions and products.
pub mod binary;
pub mod matmul;
pub mod reduce;
pub mod unary;
pub mod view;
