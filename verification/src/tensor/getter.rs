//! Reading a tensor: its layout, its elements and sliced views of it.
use std::ops::Range;
use vstd::prelude::*;

use super::Tensor;
use crate::layout::{
    dot,
    in_bounds,
    lemma_dot_add,
    lemma_dot_monotone,
    lemma_dot_prefix,
    lemma_dot_take_step,
    lemma_padded_le,
    lemma_size_positive,
    max_index,
    padded_size,
    shape_size,
};

verus! {

/// The multi-index of the first element of each range.
pub open spec fn range_starts(ranges: Seq<Range<usize>>) -> Seq<usize> {
    Seq::new(ranges.len(), |i: int| ranges[i].start)
}

/// The extent of each range.
pub open spec fn range_lens(ranges: Seq<Range<usize>>) -> Seq<usize> {
    Seq::new(ranges.len(), |i: int| (ranges[i].end - ranges[i].start) as usize)
}

/// The last position each range selects (its start when it is empty).
pub open spec fn range_lasts(ranges: Seq<Range<usize>>) -> Seq<usize> {
    Seq::new(
        ranges.len(),
        |i: int|
            if ranges[i].start < ranges[i].end {
                (ranges[i].end - 1) as usize
            } else {
                ranges[i].start
            },
    )
}

/// Ranges that select, on each axis, a piece of that axis.
pub open spec fn ranges_within(ranges: Seq<Range<usize>>, shape: Seq<usize>) -> bool {
    &&& ranges.len() == shape.len()
    &&& forall|i: int|
        0 <= i < shape.len() ==> #[trigger] ranges[i].start <= ranges[i].end && ranges[i].end
            <= shape[i]
}

/// On axis `i`, a range selects `end - start` positions starting at
/// `start`, the last of them at `end - 1` (at `start` when the range is
/// empty); and an index of the view moved by the starts has, on axis `i`,
/// the view index plus that range's start.
pub proof fn lemma_range_parts(ranges: Seq<Range<usize>>, idx: Seq<usize>, i: int)
    requires
        0 <= i < ranges.len(),
        i < idx.len(),
        ranges[i].start <= ranges[i].end,
        idx[i] + ranges[i].start <= usize::MAX,
    ensures
        range_lens(ranges).len() == ranges.len(),
        range_starts(ranges).len() == ranges.len(),
        range_lasts(ranges).len() == ranges.len(),
        range_lens(ranges)[i] == ranges[i].end - ranges[i].start,
        range_starts(ranges)[i] == ranges[i].start,
        range_lasts(ranges)[i] == if ranges[i].start < ranges[i].end {
            ranges[i].end - 1
        } else {
            ranges[i].start as int
        },
        Tensor::<u8>::shifted_by(idx, ranges).len() == idx.len(),
        Tensor::<u8>::shifted_by(idx, ranges)[i] == idx[i] + ranges[i].start,
{
}

impl<T> Tensor<T> {
    /// Ranges that `slice` takes: one per axis, each within its axis, and a
    /// view whose last selected position stays within `usize`.
    pub open spec fn slice_fits(&self, ranges: Seq<Range<usize>>) -> bool {
        &&& ranges_within(ranges, self.shape_view())
        &&& dot(range_lasts(ranges), self.strides_view()) <= usize::MAX
    }

    /// The index `idx` moved by the starts of `ranges`.
    pub open spec fn shifted_by(idx: Seq<usize>, ranges: Seq<Range<usize>>) -> Seq<usize> {
        Seq::new(idx.len(), |i: int| (idx[i] + ranges[i].start) as usize)
    }

    /// `r` is the view selected by `ranges` through this tensor's strides:
    /// the same storage and strides, the ranges' lengths as shape, and the
    /// offset of the ranges' starts counted from the start of the storage
    /// (this tensor's own offset is not added). Its element at `idx` is the
    /// stored element at the offset of `idx` shifted by the starts; when this
    /// tensor's offset is zero, that is this tensor's element there.
    pub open spec fn sliced(&self, ranges: Seq<Range<usize>>, r: Tensor<T>) -> bool {
        &&& r.data_view() == self.data_view()
        &&& r.shape_view() == range_lens(ranges)
        &&& r.strides_view() == self.strides_view()
        &&& r.offset_view() == dot(range_starts(ranges), self.strides_view())
        &&& forall|idx: Seq<usize>|
            #![trigger r.at(idx)]
            in_bounds(idx, r.shape_view()) ==> r.at(idx) == self.data_view()[dot(
                Self::shifted_by(idx, ranges),
                self.strides_view(),
            ) as int]
        &&& self.offset_view() == 0 ==> forall|idx: Seq<usize>|
            #![trigger r.at(idx)]
            in_bounds(idx, r.shape_view()) ==> r.at(idx) == self.at(Self::shifted_by(idx, ranges))
    }

    /// The element storage.
    pub fn data(&self) -> (r: &Vec<T>)
        ensures
            r@ == self.data_view(),
    {
        &*self.data
    }

    /// The dimensions.
    pub fn shape(&self) -> (r: &[usize])
        ensures
            r@ == self.shape_view(),
    {
        self.shape.as_slice()
    }

    /// The strides.
    pub fn strides(&self) -> (r: &[usize])
        ensures
            r@ == self.strides_view(),
    {
        self.strides.as_slice()
    }

    /// The storage position of the first element.
    pub fn offset(&self) -> (r: usize)
        ensures
            r as nat == self.offset_view(),
    {
        self.offset
    }

    /// The number of axes.
    pub fn ndim(&self) -> (r: usize)
        ensures
            r as nat == self.shape_view().len(),
            r >= 1,
            r as nat == self.strides_view().len(),
    {
        proof {
            use_type_invariant(self);
        }
        self.shape.len()
    }

    /// The number of elements: the product of the dimensions.
    pub fn len(&self) -> (r: usize)
        ensures
            r as nat == self.size(),
    {
        proof {
            use_type_invariant(self);
        }
        super::util::shape_len(self.shape.as_slice())
    }
}

impl<T: Copy> Tensor<T> {
    /// The element at `indices`, or `None` when the index has the wrong length
    /// or leaves some dimension.
    pub fn get(&self, indices: &[usize]) -> (r: Option<T>)
        ensures
            r == (if in_bounds(indices@, self.shape_view()) {
                Some(self.at(indices@))
            } else {
                None::<T>
            }),
    {
        if let Some(idx) = self.flat_index(indices) {
            Some(self.data[idx])
        } else {
            None
        }
    }

    /// The element at an in-bounds index.
    pub fn get_unchecked(&self, indices: &[usize]) -> (r: T)
        requires
            in_bounds(indices@, self.shape_view()),
        ensures
            r == self.at(indices@),
    {
        let idx = self.flat_index_unchecked(indices);
        self.data[idx]
    }

    /// A view selected by one range per axis. The view shares storage and
    /// strides; its offset is that of the ranges' starts, counted from the
    /// start of the storage, so on a tensor with offset zero its element at
    /// `idx` is this tensor's element at `idx` shifted by the starts.
    pub fn slice(&self, ranges: &[Range<usize>]) -> (r: Tensor<T>)
        requires
            self.slice_fits(ranges@),
        ensures
            self.sliced(ranges@, r),
    {
        proof {
            use_type_invariant(self);
        }
        let n = ranges.len();
        let mut shape: Vec<usize> = Vec::with_capacity(n);
        let mut offset: usize = 0;
        let mut i: usize = 0;
        let ghost starts = range_starts(ranges@);
        proof {
            lemma_dot_monotone(starts, range_lasts(ranges@), self.strides@);
        }
        while i < n
            invariant
                0 <= i <= n,
                n == ranges@.len(),
                n == self.shape@.len(),
                n == self.strides@.len(),
                starts == range_starts(ranges@),
                ranges_within(ranges@, self.shape@),
                dot(starts, self.strides@) <= usize::MAX,
                dot(range_lasts(ranges@), self.strides@) <= usize::MAX,
                shape@ == range_lens(ranges@).take(i as int),
                offset as nat == dot(starts.take(i as int), self.strides@),
            decreases n - i,
        {
            let start = ranges[i].start;
            let end = ranges[i].end;
            proof {
                lemma_dot_take_step(starts, self.strides@, i as int);
                lemma_dot_prefix(starts, self.strides@, i + 1);
                let x = start as nat;
                let s = self.strides@[i as int] as nat;
                assert(s * x == x * s) by (nonlinear_arith);
            }
            shape.push(end - start);
            offset = offset + start * self.strides[i];
            i = i + 1;
            proof {
                assert(shape@ =~= range_lens(ranges@).take(i as int));
            }
        }
        assert(shape@ =~= range_lens(ranges@));
        assert(starts.take(n as int) =~= starts);
        proof {
            let ns = shape@;
            assert(padded_size(ns) <= padded_size(self.shape@)) by {
                lemma_padded_le(ns, self.shape@);
            }
            lemma_dot_add(max_index(ns), starts, range_lasts(ranges@), self.strides@);
            if shape_size(ns) > 0 {
                lemma_size_positive(ns);
                let m = max_index(ns);
                let shifted = Seq::new(n as nat, |k: int| (m[k] + starts[k]) as usize);
                lemma_dot_add(m, starts, shifted, self.strides@);
                assert(in_bounds(shifted, self.shape@)) by {
                    assert forall|k: int| 0 <= k < n implies #[trigger] shifted[k] < self.shape@[k] by {
                        assert(ns[k] > 0);
                        assert(ranges@[k].start <= ranges@[k].end && ranges@[k].end <= self.shape@[k]);
                    }
                }
                self.lemma_flat_in_range(shifted);
            }
        }
        let r = Tensor { data: self.data.clone(), shape, strides: self.strides.clone(), offset };
        proof {
            assert forall|idx: Seq<usize>|
                #![trigger r.at(idx)]
                in_bounds(idx, r.shape_view()) implies r.at(idx) == self.data_view()[dot(
                    Self::shifted_by(idx, ranges@),
                    self.strides_view(),
                ) as int] by {
                lemma_dot_add(idx, starts, Self::shifted_by(idx, ranges@), self.strides@);
            }
        }
        r
    }

    /// `slice` on any ranges: `None` exactly where `slice` does not apply
    /// (see `slice_fits`), else the view that `slice` gives.
    pub fn checked_slice(&self, ranges: &[Range<usize>]) -> (r: Option<Tensor<T>>)
        ensures
            r is Some <==> self.slice_fits(ranges@),
            r matches Some(t) ==> self.sliced(ranges@, t),
    {
        proof {
            use_type_invariant(self);
        }
        let n = ranges.len();
        if n != self.shape.len() {
            return None;
        }
        let ghost lasts = range_lasts(ranges@);
        let mut acc: usize = 0;
        let mut i: usize = 0;
        while i < n
            invariant
                0 <= i <= n,
                n == ranges@.len(),
                n == self.shape@.len(),
                n == self.strides@.len(),
                lasts == range_lasts(ranges@),
                forall|j: int|
                    0 <= j < i ==> #[trigger] ranges@[j].start <= ranges@[j].end && ranges@[j].end
                        <= self.shape@[j],
                acc as nat == dot(lasts.take(i as int), self.strides@),
            decreases n - i,
        {
            let start = ranges[i].start;
            let end = ranges[i].end;
            if start > end || end > self.shape[i] {
                return None;
            }
            let last: usize = if start < end {
                end - 1
            } else {
                start
            };
            proof {
                lemma_dot_take_step(lasts, self.strides@, i as int);
                lemma_dot_prefix(lasts, self.strides@, i + 1);
            }
            let term = match last.checked_mul(self.strides[i]) {
                Some(v) => v,
                None => {
                    proof {
                        let x = last as nat;
                        let s = self.strides@[i as int] as nat;
                        assert(dot(lasts.take(i as int), self.strides@) + x * s >= x * s);
                    }
                    return None;
                },
            };
            acc = match acc.checked_add(term) {
                Some(v) => v,
                None => return None,
            };
            i = i + 1;
        }
        assert(lasts.take(n as int) =~= lasts);
        Some(self.slice(ranges))
    }
}

} // verus!
