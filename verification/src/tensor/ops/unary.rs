//! Element-wise maps of one tensor.
use vstd::prelude::*;

use super::super::Tensor;
use crate::layout::{lemma_padded_fits_suffixes};

verus! {

impl<T: Copy> Tensor<T> {
    /// Maps `f` over the elements into a fresh row-major tensor of the same
    /// shape. A tensor that `is_contiguous` accepts is mapped in storage
    /// order; any other in row-major order.
    pub fn apply_unary<F: Fn(T) -> T>(&self, f: F) -> (r: Tensor<T>)
        requires
            forall|x: T| #[trigger] f.requires((x,)),
        ensures
            r.shape_view() == self.shape_view(),
            r.is_row_major(),
            r.elems() == r.data_view(),
            self.contiguous_spec() ==> forall|k: int|
                0 <= k < r.size() ==> #[trigger] f.ensures((self.data_view()[k],), r.elems()[k]),
            !self.contiguous_spec() ==> forall|k: int|
                0 <= k < r.size() ==> #[trigger] f.ensures((self.elems()[k],), r.elems()[k]),
            (self.contiguous_spec() ==> self.elems() == self.data_view()) ==> forall|k: int|
                0 <= k < r.size() ==> #[trigger] f.ensures((self.elems()[k],), r.elems()[k]),
    {
        proof {
            use_type_invariant(self);
        }
        let n = self.len();
        let mut data: Vec<T> = Vec::new();
        let ghost source = if self.contiguous_spec() {
            self.data_view()
        } else {
            self.elems()
        };
        if self.is_contiguous() {
            let original_data = self.data();
            let mut idx: usize = 0;
            while idx < n
                invariant
                    0 <= idx <= n,
                    n as nat == self.size(),
                    original_data@ == self.data_view(),
                    self.contiguous_spec(),
                    source == self.data_view(),
                    forall|x: T| #[trigger] f.requires((x,)),
                    data@.len() == idx,
                    forall|k: int| 0 <= k < idx ==> #[trigger] f.ensures((source[k],), data@[k]),
                decreases n - idx,
            {
                let v = f(original_data[idx]);
                data.push(v);
                idx = idx + 1;
            }
        } else {
            let mut it = self.iter();
            let mut idx: usize = 0;
            loop
                invariant
                    0 <= idx <= n,
                    n as nat == self.size(),
                    source == self.elems(),
                    it.source() == *self,
                    it.position() == idx,
                    forall|x: T| #[trigger] f.requires((x,)),
                    data@.len() == idx,
                    forall|k: int| 0 <= k < idx ==> #[trigger] f.ensures((source[k],), data@[k]),
                ensures
                    data@.len() == n,
                    forall|k: int| 0 <= k < n ==> #[trigger] f.ensures((source[k],), data@[k]),
                decreases n - idx,
            {
                match it.next() {
                    Some(val) => {
                        let v = f(val);
                        data.push(v);
                        idx = idx + 1;
                    },
                    None => {
                        break;
                    },
                }
            }
        }
        proof {
            lemma_padded_fits_suffixes(self.shape@);
        }
        let shape = self.shape.clone();
        Self::new(data, shape)
    }
}

} // verus!
