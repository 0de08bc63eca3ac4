//! Building tensors over fresh row-major storage.
use std::sync::Arc;
use vstd::prelude::*;

use super::util::shape_len;
use super::Tensor;
use crate::layout::{lemma_padded_fits_suffixes, padded_size, row_major_strides, shape_size};

verus! {

impl<T: Copy> Tensor<T> {
    /// A tensor of the given shape over `data`, read in row-major order.
    /// The data must hold exactly as many elements as the shape has.
    pub fn new(data: Vec<T>, shape: Vec<usize>) -> (r: Self)
        requires
            shape@.len() >= 1,
            padded_size(shape@) <= usize::MAX,
            data@.len() == shape_size(shape@),
        ensures
            r.data_view() == data@,
            r.shape_view() == shape@,
            r.strides_view() == row_major_strides(shape@),
            r.offset_view() == 0,
            r.is_row_major(),
            r.elems() == data@,
    {
        proof {
            lemma_padded_fits_suffixes(shape@);
            Self::lemma_row_major_layout(shape@);
        }
        let strides: Vec<usize> = Self::compute_strides(shape.as_slice());
        let r = Tensor { data: Arc::new(data), shape, strides, offset: 0 };
        proof {
            r.lemma_row_major_elems();
        }
        r
    }

    /// A tensor of the given shape with every element equal to `fill_value`.
    pub fn full(shape: Vec<usize>, fill_value: T) -> (r: Self)
        requires
            shape@.len() >= 1,
            padded_size(shape@) <= usize::MAX,
        ensures
            r.shape_view() == shape@,
            r.is_row_major(),
            r.elems() == Seq::new(shape_size(shape@), |k: int| fill_value),
            r.data_view() == Seq::new(shape_size(shape@), |k: int| fill_value),
    {
        let size: usize = shape_len(shape.as_slice());
        let mut data: Vec<T> = Vec::new();
        let mut i: usize = 0;
        while i < size
            invariant
                0 <= i <= size,
                data@ == Seq::new(i as nat, |k: int| fill_value),
            decreases size - i,
        {
            data.push(fill_value);
            i = i + 1;
            assert(data@ =~= Seq::new(i as nat, |k: int| fill_value));
        }
        Self::new(data, shape)
    }
}

impl<T: Copy + Default> Tensor<T> {
    /// A tensor of the given shape filled with the default value of `T`
    /// (zero for numbers).
    pub fn zeros(shape: Vec<usize>) -> (r: Self)
        requires
            shape@.len() >= 1,
            padded_size(shape@) <= usize::MAX,
        ensures
            r.shape_view() == shape@,
            r.is_row_major(),
            r.elems() == r.data_view(),
            exists|d: T|
                call_ensures(T::default, (), d) && #[trigger] r.elems() == Seq::new(
                    shape_size(shape@),
                    |k: int| d,
                ),
    {
        let d = T::default();
        let r = Self::full(shape, d);
        assert(call_ensures(T::default, (), d));
        r
    }
}

impl<T: Copy + From<u8>> Tensor<T> {
    /// A tensor of the given shape filled with the value of `T` converted
    /// from one.
    pub fn ones(shape: Vec<usize>) -> (r: Self)
        requires
            shape@.len() >= 1,
            padded_size(shape@) <= usize::MAX,
        ensures
            r.shape_view() == shape@,
            r.is_row_major(),
            r.elems() == r.data_view(),
            exists|d: T|
                call_ensures(T::from, (1u8,), d) && #[trigger] r.elems() == Seq::new(
                    shape_size(shape@),
                    |k: int| d,
                ),
    {
        let d = T::from(1u8);
        let r = Self::full(shape, d);
        assert(call_ensures(T::from, (1u8,), d));
        r
    }
}

} // verus!
