//! Layout helpers: sizes, strides, index conversion and contiguity.
use vstd::prelude::*;

use super::Tensor;
use crate::layout::{
    all_positive,
    dot,
    in_bounds,
    lemma_dot_prefix,
    lemma_dot_take_step,
    lemma_padded_subrange,
    lemma_size_le_padded,
    lemma_size_positive,
    lemma_suffix_size_end,
    lemma_suffix_size_step,
    padded_size,
    row_major_strides,
    shape_size,
    suffix_size,
    suffixes_fit,
    unravel,
};

verus! {

/// The number of elements of `shape`, computed without overflowing when the
/// padded size fits.
pub fn shape_len(shape: &[usize]) -> (r: usize)
    requires
        padded_size(shape@) <= usize::MAX,
    ensures
        r as nat == shape_size(shape@),
{
    let n = shape.len();
    let mut i: usize = 0;
    while i < n
        invariant
            0 <= i <= n,
            n == shape@.len(),
            forall|m: int| 0 <= m < i ==> #[trigger] shape@[m] > 0,
        decreases n - i,
    {
        if shape[i] == 0 {
            proof {
                lemma_size_positive(shape@);
            }
            return 0;
        }
        i = i + 1;
    }
    assert(all_positive(shape@));
    let mut p: usize = 1;
    let mut i: usize = 0;
    while i < n
        invariant
            0 <= i <= n,
            n == shape@.len(),
            all_positive(shape@),
            padded_size(shape@) <= usize::MAX,
            p as nat == shape_size(shape@.take(i as int)),
        decreases n - i,
    {
        proof {
            assert(shape@.take(i + 1).drop_last() =~= shape@.take(i as int));
            assert(shape@.take(i + 1) =~= shape@.subrange(0, i + 1));
            lemma_padded_subrange(shape@, 0, i + 1);
        }
        p = p * shape[i];
        i = i + 1;
    }
    assert(shape@.take(n as int) =~= shape@);
    p
}

/// The product of the dimensions with zero dimensions counted as one, or
/// `None` when it exceeds `usize`.
pub fn padded_len(shape: &[usize]) -> (r: Option<usize>)
    ensures
        r is Some <==> padded_size(shape@) <= usize::MAX,
        r matches Some(v) ==> v as nat == padded_size(shape@),
{
    let n = shape.len();
    let mut p: usize = 1;
    let mut i: usize = 0;
    while i < n
        invariant
            0 <= i <= n,
            n == shape@.len(),
            p as nat == padded_size(shape@.take(i as int)),
        decreases n - i,
    {
        let d: usize = if shape[i] == 0 {
            1
        } else {
            shape[i]
        };
        proof {
            assert(shape@.take(i + 1).drop_last() =~= shape@.take(i as int));
            lemma_size_le_padded(shape@.take(i as int));
        }
        match p.checked_mul(d) {
            Some(q) => {
                p = q;
            },
            None => {
                proof {
                    assert(shape@.take(i + 1) =~= shape@.subrange(0, i + 1));
                    lemma_padded_subrange(shape@, 0, i + 1);
                }
                return None;
            },
        }
        i = i + 1;
    }
    assert(shape@.take(n as int) =~= shape@);
    Some(p)
}

impl<T> Tensor<T> {
    /// Row-major strides of `shape`: each stride is the product of the later
    /// dimensions.
    pub fn compute_strides(shape: &[usize]) -> (r: Vec<usize>)
        requires
            shape@.len() >= 1,
            suffixes_fit(shape@),
        ensures
            r@ == row_major_strides(shape@),
            shape@.len() <= usize::MAX,
    {
        let n = shape.len();
        let mut strides: Vec<usize> = Vec::new();
        let mut k: usize = 0;
        while k < n
            invariant
                0 <= k <= n,
                strides@.len() == k,
                forall|m: int| 0 <= m < k ==> strides@[m] == 1,
            decreases n - k,
        {
            strides.push(1);
            k = k + 1;
        }
        proof {
            lemma_suffix_size_end(shape@);
        }
        let mut i: usize = n - 1;
        while i > 0
            invariant
                0 <= i < n,
                n == shape@.len(),
                strides@.len() == n,
                suffixes_fit(shape@),
                forall|m: int|
                    i <= m < n ==> #[trigger] strides@[m] as nat == suffix_size(shape@, m + 1),
            decreases i,
        {
            proof {
                lemma_suffix_size_step(shape@, i as int);
                assert(suffix_size(shape@, i as int) <= usize::MAX);
                assert(strides@[i as int] as nat == suffix_size(shape@, i + 1));
                assert(suffix_size(shape@, i + 1) * (shape@[i as int] as nat) == (
                shape@[i as int] as nat) * suffix_size(shape@, i + 1)) by (nonlinear_arith);
            }
            let s = strides[i] * shape[i];
            let ghost prev = strides@;
            strides.set(i - 1, s);
            i = i - 1;
            proof {
                assert forall|m: int| i <= m < n implies #[trigger] strides@[m] as nat
                    == suffix_size(shape@, m + 1) by {
                    if m > i {
                        assert(strides@[m] == prev[m]);
                    }
                }
            }
        }
        assert(strides@ =~= row_major_strides(shape@)) by {
            assert forall|m: int| 0 <= m < n implies #[trigger] strides@[m] == row_major_strides(
                shape@,
            )[m] by {
                assert(suffix_size(shape@, m + 1) <= usize::MAX);
            }
        }
        strides
    }

    /// Writes into `indices` the row-major multi-index of flat position `idx`
    /// in `shape` (the last axis varies fastest); positions past the shape's
    /// length are left as they were.
    pub fn update_indices_from_index(indices: &mut Vec<usize>, idx: usize, shape: &[usize])
        requires
            old(indices)@.len() >= shape@.len(),
            all_positive(shape@),
        ensures
            final(indices)@ == unravel(idx as nat, shape@) + old(indices)@.subrange(
                shape@.len() as int,
                old(indices)@.len() as int,
            ),
    {
        let ndim: usize = shape.len();
        let mut remaining: usize = idx;
        let mut j: usize = ndim;
        assert(shape@.take(ndim as int) =~= shape@);
        assert(indices@.subrange(ndim as int, ndim as int) =~= Seq::<usize>::empty());
        assert(unravel(idx as nat, shape@) =~= unravel(idx as nat, shape@) + Seq::<usize>::empty());
        while j > 0
            invariant
                0 <= j <= ndim,
                ndim == shape@.len(),
                indices@.len() == old(indices)@.len(),
                old(indices)@.len() >= ndim,
                all_positive(shape@),
                indices@.subrange(ndim as int, indices@.len() as int) == old(indices)@.subrange(
                    ndim as int,
                    old(indices)@.len() as int,
                ),
                unravel(idx as nat, shape@) == unravel(remaining as nat, shape@.take(j as int))
                    + indices@.subrange(j as int, ndim as int),
            decreases j,
        {
            let d = shape[j - 1];
            assert(d > 0);
            let ghost old_ind = indices@;
            let ghost r = remaining as nat;
            indices.set(j - 1, remaining % d);
            remaining = remaining / d;
            proof {
                let tj = shape@.take(j as int);
                assert(tj.drop_last() =~= shape@.take(j - 1));
                assert(tj.last() == d);
                assert(unravel(r, tj) == unravel(r / (d as nat), tj.drop_last()).push(
                    (r % (d as nat)) as usize,
                ));
                assert(indices@.subrange(j - 1, ndim as int) =~= seq![(r % (d as nat)) as usize]
                    + old_ind.subrange(j as int, ndim as int));
                assert(indices@.subrange(ndim as int, indices@.len() as int) =~= old_ind.subrange(
                    ndim as int,
                    old_ind.len() as int,
                ));
                assert(unravel(r / (d as nat), shape@.take(j - 1)).push((r % (d as nat)) as usize)
                    + old_ind.subrange(j as int, ndim as int) =~= unravel(
                    r / (d as nat),
                    shape@.take(j - 1),
                ) + indices@.subrange(j - 1, ndim as int));
            }
            j = j - 1;
        }
        assert(shape@.take(0) =~= Seq::<usize>::empty());
        assert(indices@ =~= indices@.subrange(0, ndim as int) + indices@.subrange(
            ndim as int,
            indices@.len() as int,
        ));
        assert(unravel(remaining as nat, shape@.take(0)) =~= Seq::<usize>::empty());
    }

    /// Storage position of the element at `indices`, or `None` when the index
    /// has the wrong length or leaves some dimension.
    pub fn flat_index(&self, indices: &[usize]) -> (r: Option<usize>)
        ensures
            r == (if in_bounds(indices@, self.shape_view()) {
                Some(self.flat(indices@) as usize)
            } else {
                None::<usize>
            }),
            r is Some ==> r->0 < self.data_view().len() && r->0 as nat == self.flat(indices@),
    {
        if self.shape.len() != indices.len() {
            return None;
        }
        let n = indices.len();
        let mut i: usize = 0;
        while i < n
            invariant
                0 <= i <= n,
                n == indices@.len(),
                n == self.shape@.len(),
                forall|m: int| 0 <= m < i ==> #[trigger] indices@[m] < self.shape@[m],
            decreases n - i,
        {
            if indices[i] >= self.shape[i] {
                return None;
            }
            i = i + 1;
        }
        assert(in_bounds(indices@, self.shape@));
        Some(self.flat_index_unchecked(indices))
    }

    /// Storage position of the element at an in-bounds index.
    pub fn flat_index_unchecked(&self, indices: &[usize]) -> (r: usize)
        requires
            in_bounds(indices@, self.shape_view()),
        ensures
            r as nat == self.flat(indices@),
            r < self.data_view().len(),
    {
        proof {
            use_type_invariant(self);
            self.lemma_flat_in_range(indices@);
        }
        let n = indices.len();
        let mut flat_index: usize = self.offset;
        let mut i: usize = 0;
        while i < n
            invariant
                0 <= i <= n,
                n == indices@.len(),
                n == self.strides@.len(),
                in_bounds(indices@, self.shape@),
                self.flat(indices@) <= usize::MAX,
                flat_index as nat == self.offset + dot(indices@.take(i as int), self.strides@),
            decreases n - i,
        {
            proof {
                lemma_dot_take_step(indices@, self.strides@, i as int);
                lemma_dot_prefix(indices@, self.strides@, i + 1);
                let x = indices@[i as int] as nat;
                let s = self.strides@[i as int] as nat;
                assert(x * s <= dot(indices@.take(i + 1), self.strides@));
                assert(s * x == x * s) by (nonlinear_arith);
            }
            flat_index = flat_index + self.strides[i] * indices[i];
            i = i + 1;
        }
        assert(indices@.take(n as int) =~= indices@);
        flat_index
    }

    /// Offset zero and storage length equal to the number of elements.
    pub fn is_contiguous(&self) -> (r: bool)
        ensures
            r == self.contiguous_spec(),
    {
        self.offset == 0 && self.data.len() == self.len()
    }
}

impl<T: Copy> Tensor<T> {
    /// A tensor with the same elements over storage that `is_contiguous`
    /// accepts: this tensor itself (sharing storage) when it already is,
    /// otherwise a row-major copy of its elements.
    pub fn to_contiguous(&self) -> (r: Tensor<T>)
        ensures
            self.contiguous_spec() ==> r.same_view(self),
            !self.contiguous_spec() ==> {
                &&& r.is_row_major()
                &&& r.shape_view() == self.shape_view()
                &&& r.data_view() == self.elems()
            },
            r.elems() == self.elems(),
            r.contiguous_spec(),
    {
        proof {
            use_type_invariant(self);
        }
        if self.is_contiguous() {
            Tensor {
                data: self.data.clone(),
                shape: self.shape.clone(),
                strides: self.strides.clone(),
                offset: self.offset,
            }
        } else {
            let data: Vec<T> = self.iter().collect();
            Self::new(data, self.shape.clone())
        }
    }
}

} // verus!
