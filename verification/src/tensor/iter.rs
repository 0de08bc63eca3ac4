//! Walking a tensor's elements in row-major order.
use vstd::prelude::*;

use super::Tensor;
use crate::layout::{lemma_size_positive, lemma_unravel_in_bounds, unravel};

verus! {

/// A cursor over a tensor's elements in row-major order (last axis fastest).
pub struct Iter<'a, T> {
    tensor: &'a Tensor<T>,
    idx: usize,
    indices: Vec<usize>,
}

impl<'a, T> Iter<'a, T> {
    /// The tensor being walked.
    pub closed spec fn source(&self) -> Tensor<T> {
        *self.tensor
    }

    /// How many elements have been handed out.
    pub closed spec fn position(&self) -> nat {
        self.idx as nat
    }

    #[verifier::type_invariant]
    closed spec fn inv(&self) -> bool {
        &&& self.indices@.len() == self.tensor.shape_view().len()
        &&& self.idx as nat <= self.tensor.size()
    }

    /// The elements not yet handed out.
    pub open spec fn remaining(&self) -> Seq<T> {
        self.source().elems().skip(self.position() as int)
    }
}

impl<'a, T: Copy> Iter<'a, T> {
    /// The next element in row-major order, or `None` once all have been
    /// handed out.
    pub fn next(&mut self) -> (r: Option<T>)
        ensures
            final(self).source() == old(self).source(),
            old(self).position() < old(self).source().size() ==> {
                &&& r == Some(old(self).source().elems()[old(self).position() as int])
                &&& final(self).position() == old(self).position() + 1
            },
            old(self).position() >= old(self).source().size() ==> {
                &&& r is None
                &&& final(self).position() == old(self).position()
            },
            final(self).remaining() == (if r is Some {
                old(self).remaining().drop_first()
            } else {
                old(self).remaining()
            }),
    {
        proof {
            use_type_invariant(&*self);
            use_type_invariant(self.tensor);
        }
        if self.idx < self.tensor.len() {
            let k = self.idx;
            let tensor = self.tensor;
            proof {
                lemma_size_positive(tensor.shape_view());
                lemma_unravel_in_bounds(k as nat, tensor.shape_view());
            }
            let mut indices = self.indices.clone();
            Tensor::<T>::update_indices_from_index(&mut indices, k, tensor.shape());
            proof {
                assert(indices@ =~= unravel(k as nat, tensor.shape_view()));
            }
            let value = tensor.get_unchecked(indices.as_slice());
            self.indices = indices;
            self.idx = k + 1;
            proof {
                assert(self.remaining() =~= old(self).remaining().drop_first());
            }
            Some(value)
        } else {
            None
        }
    }

    /// All elements not yet handed out, in row-major order.
    pub fn collect(self) -> (r: Vec<T>)
        ensures
            r@ == self.remaining(),
    {
        let mut it = self;
        let mut out: Vec<T> = Vec::new();
        let ghost all = it.remaining();
        loop
            invariant
                all == self.remaining(),
                all == out@ + it.remaining(),
            decreases it.remaining().len(),
        {
            proof {
                use_type_invariant(&it);
            }
            let ghost before = it.remaining();
            match it.next() {
                Some(v) => {
                    proof {
                        assert(before.len() > 0);
                        assert(before[0] == v);
                        assert(out@.push(v) + before.drop_first() =~= out@ + before);
                    }
                    out.push(v);
                },
                None => {
                    proof {
                        assert(before.len() == 0);
                        assert(out@ + before =~= out@);
                    }
                    return out;
                },
            }
        }
    }
}

impl<T> Tensor<T> {
    /// A cursor at the first element.
    pub fn iter<'a>(&'a self) -> (r: Iter<'a, T>)
        ensures
            r.source() == *self,
            r.position() == 0,
            r.remaining() == self.elems(),
    {
        proof {
            use_type_invariant(self);
        }
        let n = self.ndim();
        let mut indices: Vec<usize> = Vec::new();
        let mut i: usize = 0;
        while i < n
            invariant
                0 <= i <= n,
                indices@.len() == i,
            decreases n - i,
        {
            indices.push(0);
            i = i + 1;
        }
        let r = Iter { tensor: self, idx: 0, indices };
        assert(r.remaining() =~= self.elems());
        r
    }
}

} // verus!
