//! Element-wise combination of two tensors under broadcasting.
use vstd::prelude::*;

use super::super::broadcast::{
    broadcast_compatible,
    broadcast_shape,
    broadcast_source,
    lemma_broadcast_source_in_bounds,
    lemma_broadcast_stretches,
};
use super::super::util::shape_len;
use super::super::Tensor;
use crate::layout::{
    all_positive,
    lemma_size_positive,
    lemma_unravel_in_bounds,
    padded_size,
    shape_size,
    unravel,
};

verus! {

impl<T: Copy> Tensor<T> {
    /// The element of the broadcast of `self` and `other` at broadcast
    /// position `k` (row-major), as read from each side.
    pub open spec fn broadcast_pair(&self, other: &Tensor<T>, k: nat) -> (T, T) {
        let bs = broadcast_shape(self.shape_view(), other.shape_view());
        let bc_idx = unravel(k, bs);
        (
            self.at(broadcast_source(bc_idx, self.shape_view())),
            other.at(broadcast_source(bc_idx, other.shape_view())),
        )
    }

    /// At broadcast position `k`, with `idx` the row-major index of `k` in
    /// the broadcast shape, the pair handed to the combining function is
    /// this tensor's element first and `other`'s second, whatever their
    /// ranks: each is read at `idx` aligned from the end, with axes of
    /// dimension one read at zero.
    pub proof fn lemma_broadcast_pair_sides(
        &self,
        other: &Tensor<T>,
        k: nat,
        idx: Seq<usize>,
        ia: Seq<usize>,
        ib: Seq<usize>,
    )
        requires
            idx == unravel(k, broadcast_shape(self.shape_view(), other.shape_view())),
            ia.len() == self.shape_view().len(),
            ib.len() == other.shape_view().len(),
            forall|i: int|
                0 <= i < ia.len() ==> #[trigger] ia[i] == if self.shape_view()[i] == 1 {
                    0usize
                } else {
                    idx[i + idx.len() - ia.len()]
                },
            forall|i: int|
                0 <= i < ib.len() ==> #[trigger] ib[i] == if other.shape_view()[i] == 1 {
                    0usize
                } else {
                    idx[i + idx.len() - ib.len()]
                },
        ensures
            self.broadcast_pair(other, k).0 == self.at(ia),
            self.broadcast_pair(other, k).1 == other.at(ib),
    {
        assert(broadcast_source(idx, self.shape_view()) =~= ia);
        assert(broadcast_source(idx, other.shape_view()) =~= ib);
    }

    /// Combines `self` and `other` element by element with `f` after
    /// broadcasting both to their common shape. The result is a fresh
    /// row-major tensor whose element at broadcast position `k` is a result of
    /// `f` on the two elements that position reads.
    pub fn apply_binary<F: Fn(T, T) -> T>(&self, other: &Tensor<T>, f: F) -> (r: Tensor<T>)
        requires
            broadcast_compatible(self.shape_view(), other.shape_view()),
            padded_size(broadcast_shape(self.shape_view(), other.shape_view())) <= usize::MAX,
            forall|x: T, y: T| #[trigger] f.requires((x, y)),
        ensures
            r.shape_view() == broadcast_shape(self.shape_view(), other.shape_view()),
            r.is_row_major(),
            r.elems() == r.data_view(),
            forall|k: int|
                0 <= k < r.size() ==> #[trigger] f.ensures(
                    self.broadcast_pair(other, k as nat),
                    r.elems()[k],
                ),
    {
        proof {
            use_type_invariant(self);
            use_type_invariant(other);
            lemma_broadcast_stretches(self.shape@, other.shape@);
        }
        let a_shape: &[usize] = self.shape();
        let b_shape: &[usize] = other.shape();
        let mut a_indices: Vec<usize> = index_zeros(a_shape.len());
        let mut b_indices: Vec<usize> = index_zeros(b_shape.len());
        let bc_shape: Vec<usize> = Self::get_broadcast_shape(a_shape, b_shape);
        let ghost bs = bc_shape@;
        let size = shape_len(bc_shape.as_slice());
        let mut broadcast_indices: Vec<usize> = index_zeros(bc_shape.len());
        let mut broadcast_data: Vec<T> = Vec::new();
        let mut broadcast_idx: usize = 0;
        while broadcast_idx < size
            invariant
                0 <= broadcast_idx <= size,
                size as nat == shape_size(bs),
                bs == bc_shape@,
                bs == broadcast_shape(self.shape@, other.shape@),
                a_shape@ == self.shape@,
                b_shape@ == other.shape@,
                a_indices@.len() == self.shape@.len(),
                b_indices@.len() == other.shape@.len(),
                broadcast_indices@.len() == bs.len(),
                super::super::broadcast::stretches_to(self.shape@, bs),
                super::super::broadcast::stretches_to(other.shape@, bs),
                forall|x: T, y: T| #[trigger] f.requires((x, y)),
                broadcast_data@.len() == broadcast_idx,
                forall|k: int|
                    0 <= k < broadcast_idx ==> #[trigger] f.ensures(
                        self.broadcast_pair(other, k as nat),
                        broadcast_data@[k],
                    ),
            decreases size - broadcast_idx,
        {
            proof {
                lemma_size_positive(bs);
                lemma_unravel_in_bounds(broadcast_idx as nat, bs);
            }
            Self::update_indices_from_index(
                &mut broadcast_indices,
                broadcast_idx,
                bc_shape.as_slice(),
            );
            assert(broadcast_indices@ =~= unravel(broadcast_idx as nat, bs));
            Self::update_reverse_broadcast(
                &mut a_indices,
                broadcast_indices.as_slice(),
                a_shape,
                bc_shape.as_slice(),
            );
            Self::update_reverse_broadcast(
                &mut b_indices,
                broadcast_indices.as_slice(),
                b_shape,
                bc_shape.as_slice(),
            );
            let ghost src_a = broadcast_source(broadcast_indices@, self.shape@);
            let ghost src_b = broadcast_source(broadcast_indices@, other.shape@);
            assert(a_indices@ =~= src_a);
            assert(b_indices@ =~= src_b);
            proof {
                lemma_stretch_positive(self.shape@, bs);
                lemma_stretch_positive(other.shape@, bs);
                lemma_broadcast_source_in_bounds(broadcast_indices@, self.shape@, bs);
                lemma_broadcast_source_in_bounds(broadcast_indices@, other.shape@, bs);
            }
            let x = self.get_unchecked(a_indices.as_slice());
            let y = other.get_unchecked(b_indices.as_slice());
            let v = f(x, y);
            broadcast_data.push(v);
            broadcast_idx = broadcast_idx + 1;
        }
        proof {
            lemma_broadcast_shape_nonempty(self.shape@, other.shape@);
        }
        Self::new(broadcast_data, bc_shape)
    }
}

/// A vector of `n` zeros.
pub(crate) fn index_zeros(n: usize) -> (r: Vec<usize>)
    ensures
        r@ == Seq::new(n as nat, |i: int| 0usize),
{
    let mut v: Vec<usize> = Vec::new();
    let mut i: usize = 0;
    while i < n
        invariant
            0 <= i <= n,
            v@ == Seq::new(i as nat, |k: int| 0usize),
        decreases n - i,
    {
        v.push(0);
        i = i + 1;
        assert(v@ =~= Seq::new(i as nat, |k: int| 0usize));
    }
    v
}

/// A shape that stretches to a shape with elements has only positive
/// dimensions.
proof fn lemma_stretch_positive(shape: Seq<usize>, bc: Seq<usize>)
    requires
        super::super::broadcast::stretches_to(shape, bc),
        all_positive(bc),
    ensures
        all_positive(shape),
{
    assert forall|i: int| 0 <= i < shape.len() implies #[trigger] shape[i] > 0 by {
        if shape[i] != 1 {
            assert(shape[i] == bc[i + bc.len() - shape.len()]);
        }
    }
}

/// Broadcasting keeps at least the axes of the first shape.
proof fn lemma_broadcast_shape_nonempty(a: Seq<usize>, b: Seq<usize>)
    requires
        a.len() >= 1,
    ensures
        broadcast_shape(a, b).len() >= 1,
{
}

} // verus!
