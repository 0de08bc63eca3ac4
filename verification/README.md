# yudanet

Strided n-dimensional tensors with verified layout logic, written in Verus.

- `src/layout.rs`: the mathematics of shapes, strides and row-major order
  (sizes, flat offsets, the correspondence between positions and indices).
- `src/tensor.rs` and `src/tensor/`: the `Tensor<T>` type and its operations:
  construction, getters and slicing, iteration, broadcasting, element-wise
  maps, reductions, views (transpose, permute, reshape), matrix products
  (plain and the tiled product fused with an activation), printing, and the
  byte format of a saved tensor. Element arithmetic is passed in as closures,
  so the traversals are verified for any element type.
- `app/`: the `f32` program around the library: the float arithmetic handed
  to the verified traversals, the parallel row-block product (rayon), file
  input and output, and `main`.
- `tests/`: the test suite, run against the compiled library.
