//! The strided tensor: shared element storage read through a shape, strides
//! and an offset.
use std::sync::Arc;
use vstd::prelude::*;

use crate::layout::{
    all_positive,
    dot,
    in_bounds,
    lemma_dot_le_max,
    lemma_max_index_in_bounds,
    lemma_padded_fits_suffixes,
    lemma_ravel_unravel,
    lemma_row_major_dot_bound,
    lemma_row_major_max_bound,
    lemma_size_positive,
    max_index,
    padded_size,
    row_major_strides,
    shape_size,
    unravel,
};

pub mod broadcast;
pub mod constructor;
pub mod display;
pub mod getter;
pub mod iter;
pub mod ops;
pub mod serialization;
pub mod util;

verus! {

/// An n-dimensional array of elements of type `T`.
///
/// The element at multi-index `idx` is `data[offset + sum_i strides[i] * idx[i]]`.
/// Views made by slicing, transposing or permuting share `data` with the
/// tensor they come from.
pub struct Tensor<T> {
    data: Arc<Vec<T>>,
    shape: Vec<usize>,
    strides: Vec<usize>,
    offset: usize,
}

impl<T> Tensor<T> {
    /// The element storage.
    pub closed spec fn data_view(&self) -> Seq<T> {
        self.data@
    }

    /// The dimensions.
    pub closed spec fn shape_view(&self) -> Seq<usize> {
        self.shape@
    }

    /// The step in storage taken by one unit of each index.
    pub closed spec fn strides_view(&self) -> Seq<usize> {
        self.strides@
    }

    /// Position in storage of the element at the all-zero index.
    pub closed spec fn offset_view(&self) -> nat {
        self.offset as nat
    }

    /// Well-formedness: at least one axis, one stride per axis, the
    /// dimensions' product (zero dimensions counted as one) within `usize`,
    /// and every in-bounds index addressing a stored element.
    #[verifier::type_invariant]
    pub closed spec fn wf(&self) -> bool {
        &&& 1 <= self.shape@.len() <= usize::MAX
        &&& self.strides@.len() == self.shape@.len()
        &&& padded_size(self.shape@) <= usize::MAX
        &&& self.data@.len() <= usize::MAX
        &&& self.offset + dot(max_index(self.shape@), self.strides@) <= usize::MAX
        &&& shape_size(self.shape@) > 0 ==> self.offset + dot(max_index(self.shape@), self.strides@)
            < self.data@.len()
    }

    /// Number of elements.
    pub open spec fn size(&self) -> nat {
        shape_size(self.shape_view())
    }

    /// Storage position of the element at `idx`.
    pub open spec fn flat(&self, idx: Seq<usize>) -> nat {
        self.offset_view() + dot(idx, self.strides_view())
    }

    /// The element at `idx`.
    pub open spec fn at(&self, idx: Seq<usize>) -> T {
        self.data_view()[self.flat(idx) as int]
    }

    /// The elements in row-major order (last axis fastest).
    pub open spec fn elems(&self) -> Seq<T> {
        Seq::new(self.size(), |k: int| self.at(unravel(k as nat, self.shape_view())))
    }

    /// The tensor owns a fresh row-major layout: offset zero, row-major
    /// strides and storage holding exactly its elements.
    pub open spec fn is_row_major(&self) -> bool {
        &&& self.offset_view() == 0
        &&& self.strides_view() == row_major_strides(self.shape_view())
        &&& self.data_view().len() == self.size()
    }

    /// What `is_contiguous` reports: offset zero and storage length equal to
    /// the number of elements.
    pub open spec fn contiguous_spec(&self) -> bool {
        &&& self.offset_view() == 0
        &&& self.data_view().len() == self.size()
    }

    /// Two tensors read the same storage through the same layout.
    pub open spec fn same_view(&self, other: &Self) -> bool {
        &&& self.data_view() == other.data_view()
        &&& self.shape_view() == other.shape_view()
        &&& self.strides_view() == other.strides_view()
        &&& self.offset_view() == other.offset_view()
    }

    /// Every in-bounds index of a well-formed tensor addresses stored data.
    pub proof fn lemma_flat_in_range(&self, idx: Seq<usize>)
        requires
            self.wf(),
            in_bounds(idx, self.shape_view()),
        ensures
            self.flat(idx) < self.data_view().len(),
            self.flat(idx) <= usize::MAX,
    {
        assert(all_positive(self.shape@)) by {
            assert forall|i: int| 0 <= i < self.shape@.len() implies #[trigger] self.shape@[i]
                > 0 by {
                assert(idx[i] < self.shape@[i]);
            }
        }
        lemma_size_positive(self.shape@);
        lemma_dot_le_max(idx, self.shape@, self.strides@);
    }

    /// A row-major tensor lists its storage in order.
    pub proof fn lemma_row_major_elems(&self)
        requires
            self.wf(),
            self.is_row_major(),
        ensures
            self.elems() == self.data_view(),
    {
        lemma_padded_fits_suffixes(self.shape@);
        assert forall|k: int| 0 <= k < self.size() implies #[trigger] self.elems()[k]
            == self.data_view()[k] by {
            lemma_ravel_unravel(k as nat, self.shape@);
        }
        assert(self.elems() =~= self.data_view());
    }

    /// The row-major layout of a shape is well formed over storage of its size.
    pub proof fn lemma_row_major_layout(shape: Seq<usize>)
        requires
            shape.len() >= 1,
            padded_size(shape) <= usize::MAX,
        ensures
            shape_size(shape) > 0 ==> dot(max_index(shape), row_major_strides(shape))
                < shape_size(shape),
            dot(max_index(shape), row_major_strides(shape)) < usize::MAX,
    {
        lemma_padded_fits_suffixes(shape);
        lemma_row_major_max_bound(shape);
        if shape_size(shape) > 0 {
            lemma_size_positive(shape);
            lemma_max_index_in_bounds(shape);
            lemma_row_major_dot_bound(max_index(shape), shape);
        }
    }
}

} // verus!
