//! Broadcasting: aligning two shapes from their last axes and stretching
//! dimensions of one.
use vstd::prelude::*;

use super::Tensor;
use crate::layout::{all_positive, in_bounds};

verus! {

/// Dimension `r` places from the end of `s`; positions before its start
/// count as one.
pub open spec fn dim_from_right(s: Seq<usize>, r: int) -> usize {
    if 0 <= r < s.len() {
        s[s.len() - 1 - r]
    } else {
        1
    }
}

/// Larger of two lengths.
pub open spec fn max_len(a: nat, b: nat) -> nat {
    if a >= b {
        a
    } else {
        b
    }
}

/// Two dimensions can be broadcast together: one of them is one, or they
/// are equal.
pub open spec fn dims_compatible(x: usize, y: usize) -> bool {
    x == 1 || y == 1 || x == y
}

/// Every pair of dimensions aligned from the end can be broadcast together.
pub open spec fn broadcast_compatible(a: Seq<usize>, b: Seq<usize>) -> bool {
    forall|r: int|
        0 <= r < max_len(a.len(), b.len()) ==> #[trigger] dims_compatible(
            dim_from_right(a, r),
            dim_from_right(b, r),
        )
}

/// The broadcast of two compatible dimensions: the one that is not one.
pub open spec fn broadcast_dim(x: usize, y: usize) -> usize {
    if x == 1 {
        y
    } else {
        x
    }
}

/// The shape two compatible shapes broadcast to: as long as the longer one,
/// each dimension the broadcast of the dimensions aligned from the end.
pub open spec fn broadcast_shape(a: Seq<usize>, b: Seq<usize>) -> Seq<usize> {
    let n = max_len(a.len(), b.len());
    Seq::new(
        n,
        |i: int| broadcast_dim(dim_from_right(a, n - 1 - i), dim_from_right(b, n - 1 - i)),
    )
}

/// The index into a tensor of shape `shape` that a broadcast index reads:
/// aligned from the end, with every axis of dimension one pinned at zero.
pub open spec fn broadcast_source(bc_idx: Seq<usize>, shape: Seq<usize>) -> Seq<usize> {
    Seq::new(
        shape.len(),
        |i: int|
            if shape[i] == 1 {
                0usize
            } else {
                bc_idx[i + bc_idx.len() - shape.len()]
            },
    )
}

/// Each dimension of `shape` is one or equal to the dimension of `bc` it is
/// aligned with from the end.
pub open spec fn stretches_to(shape: Seq<usize>, bc: Seq<usize>) -> bool {
    &&& shape.len() <= bc.len()
    &&& forall|i: int|
        0 <= i < shape.len() ==> #[trigger] shape[i] == 1 || shape[i] == bc[i + bc.len()
            - shape.len()]
}

/// The broadcast shape is as long as the longer shape, and its dimension `p`
/// places from the end is that of `b` there when that of `a` is one or
/// missing, else that of `a` (missing dimensions count as one).
pub proof fn lemma_broadcast_dims(a: Seq<usize>, b: Seq<usize>, p: int)
    requires
        0 <= p < a.len() || 0 <= p < b.len(),
    ensures
        broadcast_shape(a, b).len() == if a.len() >= b.len() {
            a.len()
        } else {
            b.len()
        },
        broadcast_shape(a, b)[broadcast_shape(a, b).len() - 1 - p] == ({
            let x = if p < a.len() {
                a[a.len() - 1 - p]
            } else {
                1usize
            };
            let y = if p < b.len() {
                b[b.len() - 1 - p]
            } else {
                1usize
            };
            if x == 1 {
                y
            } else {
                x
            }
        }),
{
}

/// The dimension `r` places from the end of `s` is `s[s.len() - 1 - r]`,
/// and one before the start of `s`.
pub proof fn lemma_dim_from_right(s: Seq<usize>, r: int)
    requires
        0 <= r,
    ensures
        dim_from_right(s, r) == if r < s.len() {
            s[s.len() - 1 - r]
        } else {
            1usize
        },
{
}

/// Two shapes broadcast together exactly when, at every place from the end
/// up to the longer length, their dimensions (one where missing) are equal
/// or one of them is one.
pub proof fn lemma_broadcast_compatible_dims(a: Seq<usize>, b: Seq<usize>)
    ensures
        broadcast_compatible(a, b) <==> forall|p: int|
            0 <= p < a.len() || 0 <= p < b.len() ==> {
                let x = #[trigger] dim_from_right(a, p);
                let y = dim_from_right(b, p);
                x == y || x == 1 || y == 1
            },
{
    let n = max_len(a.len(), b.len());
    if broadcast_compatible(a, b) {
        assert forall|p: int| 0 <= p < a.len() || 0 <= p < b.len() implies {
            let x = #[trigger] dim_from_right(a, p);
            let y = dim_from_right(b, p);
            x == y || x == 1 || y == 1
        } by {
            assert(dims_compatible(dim_from_right(a, p), dim_from_right(b, p)));
        }
    }
    if forall|p: int|
        0 <= p < a.len() || 0 <= p < b.len() ==> {
            let x = #[trigger] dim_from_right(a, p);
            let y = dim_from_right(b, p);
            x == y || x == 1 || y == 1
        } {
        assert forall|r: int| 0 <= r < n implies #[trigger] dims_compatible(
            dim_from_right(a, r),
            dim_from_right(b, r),
        ) by {
            assert(dim_from_right(a, r) == dim_from_right(a, r));
        }
    }
}

/// Broadcasting does not depend on the order of the two shapes.
pub proof fn lemma_broadcast_symmetric(a: Seq<usize>, b: Seq<usize>)
    ensures
        broadcast_compatible(a, b) == broadcast_compatible(b, a),
        broadcast_compatible(a, b) ==> broadcast_shape(a, b) == broadcast_shape(b, a),
{
    assert(max_len(a.len(), b.len()) == max_len(b.len(), a.len()));
    let n = max_len(a.len(), b.len());
    if broadcast_compatible(a, b) {
        assert forall|r: int| 0 <= r < n implies #[trigger] dims_compatible(
            dim_from_right(b, r),
            dim_from_right(a, r),
        ) by {
            assert(dims_compatible(dim_from_right(a, r), dim_from_right(b, r)));
        }
    }
    if broadcast_compatible(b, a) {
        assert forall|r: int| 0 <= r < n implies #[trigger] dims_compatible(
            dim_from_right(a, r),
            dim_from_right(b, r),
        ) by {
            assert(dims_compatible(dim_from_right(b, r), dim_from_right(a, r)));
        }
    }
    if broadcast_compatible(a, b) {
        assert forall|i: int| 0 <= i < n implies #[trigger] broadcast_shape(a, b)[i]
            == broadcast_shape(b, a)[i] by {
            assert(dims_compatible(dim_from_right(a, n - 1 - i), dim_from_right(b, n - 1 - i)));
        }
        assert(broadcast_shape(a, b) =~= broadcast_shape(b, a));
    }
}

/// A shape broadcasts with itself to itself.
pub proof fn lemma_broadcast_self(a: Seq<usize>)
    ensures
        broadcast_compatible(a, a),
        broadcast_shape(a, a) == a,
{
    let n = a.len() as int;
    assert forall|i: int| 0 <= i < n implies #[trigger] broadcast_shape(a, a)[i] == a[i] by {
        assert(dim_from_right(a, n - 1 - i) == a[i]);
    }
    assert(broadcast_shape(a, a) =~= a);
}

/// Both shapes stretch to their broadcast shape.
pub proof fn lemma_broadcast_stretches(a: Seq<usize>, b: Seq<usize>)
    requires
        broadcast_compatible(a, b),
    ensures
        stretches_to(a, broadcast_shape(a, b)),
        stretches_to(b, broadcast_shape(a, b)),
        broadcast_shape(a, b).len() == max_len(a.len(), b.len()),
{
    let bc = broadcast_shape(a, b);
    let n = max_len(a.len(), b.len());
    assert forall|i: int| 0 <= i < a.len() implies #[trigger] a[i] == 1 || a[i] == bc[i + bc.len()
        - a.len()] by {
        let r = a.len() - 1 - i;
        assert(dims_compatible(dim_from_right(a, r), dim_from_right(b, r)));
        assert(n - 1 - (i + n - a.len()) == r);
    }
    assert forall|i: int| 0 <= i < b.len() implies #[trigger] b[i] == 1 || b[i] == bc[i + bc.len()
        - b.len()] by {
        let r = b.len() - 1 - i;
        assert(dims_compatible(dim_from_right(a, r), dim_from_right(b, r)));
        assert(n - 1 - (i + n - b.len()) == r);
    }
}

/// The source index of an in-bounds broadcast index is in bounds.
pub proof fn lemma_broadcast_source_in_bounds(bc_idx: Seq<usize>, shape: Seq<usize>, bc: Seq<usize>)
    requires
        stretches_to(shape, bc),
        in_bounds(bc_idx, bc),
        all_positive(shape),
    ensures
        in_bounds(broadcast_source(bc_idx, shape), shape),
{
    let src = broadcast_source(bc_idx, shape);
    assert forall|i: int| 0 <= i < shape.len() implies #[trigger] src[i] < shape[i] by {
        if shape[i] != 1 {
            assert(shape[i] == bc[i + bc.len() - shape.len()]);
        }
    }
}

impl<T> Tensor<T> {
    /// The shape two shapes broadcast to. The shapes must be compatible.
    pub fn get_broadcast_shape(a: &[usize], b: &[usize]) -> (r: Vec<usize>)
        requires
            broadcast_compatible(a@, b@),
        ensures
            r@ == broadcast_shape(a@, b@),
    {
        let la = a.len();
        let lb = b.len();
        let n: usize = if la >= lb {
            la
        } else {
            lb
        };
        let mut shape: Vec<usize> = Vec::new();
        let mut i: usize = 0;
        while i < n
            invariant
                0 <= i <= n,
                la == a@.len(),
                lb == b@.len(),
                n == max_len(la as nat, lb as nat),
                broadcast_compatible(a@, b@),
                shape@ == broadcast_shape(a@, b@).take(i as int),
            decreases n - i,
        {
            let r = n - 1 - i;
            let a_dim = if r < la {
                a[la - 1 - r]
            } else {
                1
            };
            let b_dim = if r < lb {
                b[lb - 1 - r]
            } else {
                1
            };
            assert(a_dim == dim_from_right(a@, r as int));
            assert(b_dim == dim_from_right(b@, r as int));
            assert(dims_compatible(dim_from_right(a@, r as int), dim_from_right(b@, r as int)));
            let dim: usize = if a_dim == 1 {
                b_dim
            } else {
                a_dim
            };
            shape.push(dim);
            i = i + 1;
            proof {
                assert(shape@ =~= broadcast_shape(a@, b@).take(i as int));
            }
        }
        assert(shape@ =~= broadcast_shape(a@, b@));
        shape
    }

    /// Writes into `original_indices` the index that the broadcast index
    /// `broadcast_indices` reads from a tensor of shape `original_shape`:
    /// aligned from the end, axes of dimension one pinned at zero. Only the
    /// first `broadcast_shape.len()` positions of `broadcast_indices` are
    /// read. Positions past the original shape's length are left as they
    /// were.
    pub fn update_reverse_broadcast(
        original_indices: &mut Vec<usize>,
        broadcast_indices: &[usize],
        original_shape: &[usize],
        broadcast_shape: &[usize],
    )
        requires
            stretches_to(original_shape@, broadcast_shape@),
            old(original_indices)@.len() >= original_shape@.len(),
            broadcast_indices@.len() >= broadcast_shape@.len(),
        ensures
            final(original_indices)@ == broadcast_source(
                broadcast_indices@.take(broadcast_shape@.len() as int),
                original_shape@,
            )
                + old(original_indices)@.subrange(
                original_shape@.len() as int,
                old(original_indices)@.len() as int,
            ),
    {
        let og_len = original_shape.len();
        let bc_len = broadcast_shape.len();
        let mut og_pointer: usize = og_len;
        let mut bc_pointer: usize = bc_len;
        let ghost src = broadcast_source(
            broadcast_indices@.take(bc_len as int),
            original_shape@,
        );
        while og_pointer > 0
            invariant
                og_pointer <= og_len,
                og_len == original_shape@.len(),
                bc_len == broadcast_shape@.len(),
                bc_pointer == og_pointer + (bc_len - og_len),
                og_len <= bc_len,
                broadcast_indices@.len() >= bc_len,
                stretches_to(original_shape@, broadcast_shape@),
                src == broadcast_source(broadcast_indices@.take(bc_len as int), original_shape@),
                original_indices@.len() == old(original_indices)@.len(),
                old(original_indices)@.len() >= og_len,
                forall|m: int|
                    og_pointer <= m < og_len ==> #[trigger] original_indices@[m] == src[m],
                forall|m: int|
                    og_len <= m < original_indices@.len() ==> #[trigger] original_indices@[m]
                        == old(original_indices)@[m],
            decreases og_pointer,
        {
            og_pointer = og_pointer - 1;
            bc_pointer = bc_pointer - 1;
            let og_dim: usize = original_shape[og_pointer];
            assert(og_dim == 1 || og_dim == broadcast_shape@[bc_pointer as int]);
            if og_dim == 1 {
                original_indices.set(og_pointer, 0);
            } else {
                original_indices.set(og_pointer, broadcast_indices[bc_pointer]);
            }
        }
        assert(original_indices@ =~= src + old(original_indices)@.subrange(
            og_len as int,
            old(original_indices)@.len() as int,
        ));
    }
}

/// Whether two shapes can be broadcast together.
pub fn shapes_broadcast(a: &[usize], b: &[usize]) -> (r: bool)
    ensures
        r == broadcast_compatible(a@, b@),
{
    let la = a.len();
    let lb = b.len();
    let n: usize = if la >= lb {
        la
    } else {
        lb
    };
    let mut r: usize = 0;
    while r < n
        invariant
            0 <= r <= n,
            la == a@.len(),
            lb == b@.len(),
            n == max_len(la as nat, lb as nat),
            forall|q: int|
                0 <= q < r ==> #[trigger] dims_compatible(dim_from_right(a@, q), dim_from_right(b@, q)),
        decreases n - r,
    {
        let x = if r < la {
            a[la - 1 - r]
        } else {
            1
        };
        let y = if r < lb {
            b[lb - 1 - r]
        } else {
            1
        };
        assert(x == dim_from_right(a@, r as int));
        assert(y == dim_from_right(b@, r as int));
        if !(x == 1 || y == 1 || x == y) {
            assert(!dims_compatible(dim_from_right(a@, r as int), dim_from_right(b@, r as int)));
            return false;
        }
        r = r + 1;
    }
    true
}

} // verus!
