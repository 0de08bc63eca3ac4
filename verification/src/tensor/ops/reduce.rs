//! Folding the elements of a tensor, whole or along one axis.
use vstd::prelude::*;

use super::binary::index_zeros;
use super::super::util::shape_len;
use super::super::Tensor;
use crate::layout::{
    in_bounds,
    lemma_padded_remove,
    lemma_size_positive,
    lemma_unravel_in_bounds,
    shape_size,
    unravel,
};

verus! {

/// `accs` records a left fold of `f` over `xs` starting from `init`: it starts
/// at `init` and each next accumulator is a result of `f` on the previous
/// accumulator and the next element.
pub open spec fn is_fold_trace<T, F: Fn(T, T) -> T>(
    f: F,
    init: T,
    xs: Seq<T>,
    accs: Seq<T>,
) -> bool {
    &&& accs.len() == xs.len() + 1
    &&& accs[0] == init
    &&& forall|i: int| 0 <= i < xs.len() ==> #[trigger] f.ensures((accs[i], xs[i]), accs[i + 1])
}

/// `r` is a result of folding `f` over `xs` from the left, starting at `init`.
pub open spec fn folds_to<T, F: Fn(T, T) -> T>(f: F, init: T, xs: Seq<T>, r: T) -> bool {
    exists|accs: Seq<T>| #[trigger] is_fold_trace(f, init, xs, accs) && accs.last() == r
}

/// The fold of nothing is `init`; and `v` is a fold of `xs` extended by `x`
/// exactly when it is a result of `f` on some fold `a` of `xs` and on `x`,
/// in that order.
pub proof fn lemma_folds_to_steps<T, F: Fn(T, T) -> T>(f: F, init: T, xs: Seq<T>, x: T, v: T)
    ensures
        folds_to(f, init, Seq::empty(), init),
        folds_to(f, init, xs.push(x), v) <==> exists|a: T|
            #[trigger] folds_to(f, init, xs, a) && f.ensures((a, x), v),
{
    assert(is_fold_trace(f, init, Seq::empty(), seq![init]));
    assert(seq![init].last() == init);
    if folds_to(f, init, xs.push(x), v) {
        let accs = choose|accs: Seq<T>|
            #[trigger] is_fold_trace(f, init, xs.push(x), accs) && accs.last() == v;
        let short = accs.drop_last();
        assert(is_fold_trace(f, init, xs, short)) by {
            assert forall|k: int| 0 <= k < xs.len() implies #[trigger] f.ensures(
                (short[k], xs[k]),
                short[k + 1],
            ) by {
                assert(f.ensures((accs[k], xs.push(x)[k]), accs[k + 1]));
            }
        }
        let a = short.last();
        let n = xs.len() as int;
        assert(f.ensures((accs[n], xs.push(x)[n]), accs[n + 1]));
        assert(folds_to(f, init, xs, a) && f.ensures((a, x), v));
    }
    if exists|a: T| #[trigger] folds_to(f, init, xs, a) && f.ensures((a, x), v) {
        let a = choose|a: T| #[trigger] folds_to(f, init, xs, a) && f.ensures((a, x), v);
        let accs = choose|accs: Seq<T>| #[trigger] is_fold_trace(f, init, xs, accs) && accs.last() == a;
        lemma_fold_trace_push(f, init, xs, accs, x, v);
        assert(accs.push(v).last() == v);
    }
}

/// One more step of a fold trace.
proof fn lemma_fold_trace_push<T, F: Fn(T, T) -> T>(
    f: F,
    init: T,
    xs: Seq<T>,
    accs: Seq<T>,
    x: T,
    v: T,
)
    requires
        is_fold_trace(f, init, xs, accs),
        f.ensures((accs.last(), x), v),
    ensures
        is_fold_trace(f, init, xs.push(x), accs.push(v)),
{
    let xs2 = xs.push(x);
    let a2 = accs.push(v);
    assert forall|i: int| 0 <= i < xs2.len() implies #[trigger] f.ensures((a2[i], xs2[i]), a2[i + 1]) by {
        if i < xs.len() {
            assert(a2[i] == accs[i] && xs2[i] == xs[i] && a2[i + 1] == accs[i + 1]);
        }
    }
}

/// `f` gives one result for each pair of inputs.
pub open spec fn deterministic2<T, F: Fn(T, T) -> T>(f: F) -> bool {
    forall|a: T, b: T, v: T, w: T| f.ensures((a, b), v) && f.ensures((a, b), w) ==> v == w
}

/// With a deterministic step, a fold has one result.
pub proof fn lemma_folds_to_unique<T, F: Fn(T, T) -> T>(f: F, init: T, xs: Seq<T>, r1: T, r2: T)
    requires
        deterministic2(f),
        folds_to(f, init, xs, r1),
        folds_to(f, init, xs, r2),
    ensures
        r1 == r2,
{
    let a1 = choose|a: Seq<T>| #[trigger] is_fold_trace(f, init, xs, a) && a.last() == r1;
    let a2 = choose|a: Seq<T>| #[trigger] is_fold_trace(f, init, xs, a) && a.last() == r2;
    assert forall|k: int| 0 <= k <= xs.len() implies a1[k] == a2[k] by {
        lemma_fold_traces_agree(f, init, xs, a1, a2, k);
    }
}

proof fn lemma_fold_traces_agree<T, F: Fn(T, T) -> T>(
    f: F,
    init: T,
    xs: Seq<T>,
    a1: Seq<T>,
    a2: Seq<T>,
    k: int,
)
    requires
        deterministic2(f),
        is_fold_trace(f, init, xs, a1),
        is_fold_trace(f, init, xs, a2),
        0 <= k <= xs.len(),
    ensures
        a1[k] == a2[k],
    decreases k,
{
    if k > 0 {
        let j = k - 1;
        lemma_fold_traces_agree(f, init, xs, a1, a2, j);
        assert(f.ensures((a1[j], xs[j]), a1[j + 1]));
        assert(f.ensures((a2[j], xs[j]), a2[j + 1]));
    }
}

impl<T: Copy> Tensor<T> {
    /// The elements along `axis` at the position `rest` of the other axes.
    pub open spec fn axis_line(&self, rest: Seq<usize>, axis: nat) -> Seq<T> {
        Seq::new(
            self.shape_view()[axis as int] as nat,
            |i: int| self.at(rest.insert(axis as int, i as usize)),
        )
    }

    /// The line folded at position `rest` of the other axes has one element
    /// per position along `axis`, and at `i` it is the element whose index
    /// is `i` on `axis` and `rest` on the other axes in order: `idx[m] ==
    /// rest[m]` before the axis and `idx[m] == rest[m - 1]` after it.
    pub proof fn lemma_axis_line_elements(&self, rest: Seq<usize>, axis: nat, idx: Seq<usize>, i: int)
        requires
            axis < self.shape_view().len(),
            rest.len() + 1 == self.shape_view().len(),
            idx.len() == self.shape_view().len(),
            0 <= i < self.shape_view()[axis as int],
            idx[axis as int] == i,
            forall|m: int| 0 <= m < axis ==> #[trigger] idx[m] == rest[m],
            forall|m: int| axis < m < idx.len() ==> #[trigger] idx[m] == rest[m - 1],
        ensures
            self.axis_line(rest, axis).len() == self.shape_view()[axis as int],
            self.axis_line(rest, axis)[i] == self.at(idx),
    {
        assert(rest.insert(axis as int, i as usize) =~= idx);
    }

    /// Folds `f` over all elements in row-major order, starting at `init`.
    pub fn apply_reduce<F: Fn(T, T) -> T>(&self, init: T, f: F) -> (r: T)
        requires
            forall|x: T, y: T| #[trigger] f.requires((x, y)),
        ensures
            folds_to(f, init, self.elems(), r),
    {
        let mut acc = init;
        let mut it = self.iter();
        let ghost xs = self.elems();
        let ghost mut accs: Seq<T> = seq![init];
        assert(is_fold_trace(f, init, xs.take(0), accs));
        loop
            invariant
                it.source() == *self,
                xs == self.elems(),
                it.position() <= xs.len(),
                it.remaining() == xs.skip(it.position() as int),
                forall|x: T, y: T| #[trigger] f.requires((x, y)),
                is_fold_trace(f, init, xs.take(it.position() as int), accs),
                accs.last() == acc,
            ensures
                is_fold_trace(f, init, xs, accs),
                accs.last() == acc,
            decreases xs.len() - it.position(),
        {
            let ghost p = it.position();
            match it.next() {
                Some(val) => {
                    let v = f(acc, val);
                    proof {
                        assert(val == xs[p as int]);
                        lemma_fold_trace_push(f, init, xs.take(p as int), accs, val, v);
                        assert(xs.take(p as int).push(val) =~= xs.take((p + 1) as int));
                        accs = accs.push(v);
                    }
                    acc = v;
                },
                None => {
                    assert(xs.take(p as int) =~= xs);
                    break;
                },
            }
        }
        acc
    }

    /// Folds `f`, starting at `init`, along `axis`: the result has the other
    /// axes, and its element at `rest` is the fold over the line of elements
    /// along `axis` at `rest`. Fails when the axis does not exist.
    pub fn apply_reduce_axis<F: Fn(T, T) -> T>(&self, axis: usize, init: T, f: F) -> (r: Result<
        Tensor<T>,
        String,
    >)
        requires
            forall|x: T, y: T| #[trigger] f.requires((x, y)),
            axis < self.shape_view().len() ==> self.shape_view().len() >= 2,
        ensures
            axis >= self.shape_view().len() ==> (r matches Err(e) && e@ == "Axis out of bounds"@),
            axis < self.shape_view().len() ==> (r matches Ok(t) && {
                &&& t.shape_view() == self.shape_view().remove(axis as int)
                &&& t.is_row_major()
                &&& t.elems() == t.data_view()
                &&& forall|k: int|
                    0 <= k < t.size() ==> #[trigger] folds_to(
                        f,
                        init,
                        self.axis_line(unravel(k as nat, t.shape_view()), axis as nat),
                        t.elems()[k],
                    )
            }),
    {
        proof {
            use_type_invariant(self);
        }
        let n = self.ndim();
        if axis >= n {
            return Err("Axis out of bounds".to_string());
        }
        let ghost full = self.shape@;
        let ghost rshape = full.remove(axis as int);
        let mut shape: Vec<usize> = Vec::new();
        let mut i: usize = 0;
        while i < n
            invariant
                0 <= i <= n,
                n == full.len(),
                full == self.shape@,
                axis < n,
                shape@ == (if i <= axis {
                    full.take(i as int)
                } else {
                    full.take(i as int).remove(axis as int)
                }),
            decreases n - i,
        {
            if i != axis {
                shape.push(self.shape[i]);
            }
            i = i + 1;
            proof {
                if i <= axis {
                    assert(shape@ =~= full.take(i as int));
                } else {
                    assert(shape@ =~= full.take(i as int).remove(axis as int));
                }
            }
        }
        assert(full.take(n as int) =~= full);
        assert(shape@ == rshape);
        proof {
            lemma_padded_remove(full, axis as int);
        }
        let mut og_indices: Vec<usize> = index_zeros(n);
        let mut indices: Vec<usize> = index_zeros(n - 1);
        let size = shape_len(shape.as_slice());
        let line_len = self.shape[axis];
        let mut data: Vec<T> = Vec::new();
        let mut idx: usize = 0;
        while idx < size
            invariant
                0 <= idx <= size,
                size as nat == shape_size(rshape),
                shape@ == rshape,
                rshape == full.remove(axis as int),
                full == self.shape@,
                n == full.len(),
                n >= 2,
                axis < n,
                line_len == full[axis as int],
                og_indices@.len() == n,
                indices@.len() == n - 1,
                forall|x: T, y: T| #[trigger] f.requires((x, y)),
                data@.len() == idx,
                forall|k: int|
                    0 <= k < idx ==> #[trigger] folds_to(
                        f,
                        init,
                        self.axis_line(unravel(k as nat, rshape), axis as nat),
                        data@[k],
                    ),
            decreases size - idx,
        {
            proof {
                lemma_size_positive(rshape);
                lemma_unravel_in_bounds(idx as nat, rshape);
            }
            Self::update_indices_from_index(&mut indices, idx, shape.as_slice());
            let ghost rest = unravel(idx as nat, rshape);
            assert(indices@ =~= rest);
            let mut i: usize = 0;
            while i < n - 1
                invariant
                    0 <= i <= n - 1,
                    n >= 2,
                    axis < n,
                    og_indices@.len() == n,
                    indices@.len() == n - 1,
                    forall|m: int| 0 <= m < i && m < axis ==> #[trigger] og_indices@[m] == indices@[m],
                    forall|m: int|
                        0 <= m < i && m >= axis ==> #[trigger] og_indices@[m + 1] == indices@[m],
                decreases n - 1 - i,
            {
                if i < axis {
                    og_indices.set(i, indices[i]);
                } else {
                    og_indices.set(i + 1, indices[i]);
                }
                i = i + 1;
            }
            assert forall|m: int| 0 <= m < n && m != axis implies #[trigger] og_indices@[m]
                == rest.insert(axis as int, 0)[m] by {
                if m > axis {
                    assert(og_indices@[(m - 1) + 1] == indices@[m - 1]);
                }
            }
            let ghost line = self.axis_line(rest, axis as nat);
            let mut acc = init;
            let ghost mut accs: Seq<T> = seq![init];
            assert(is_fold_trace(f, init, line.take(0), accs));
            let mut j: usize = 0;
            while j < line_len
                invariant
                    0 <= j <= line_len,
                    line_len == full[axis as int],
                    full == self.shape@,
                    n == full.len(),
                    rshape == full.remove(axis as int),
                    axis < n,
                    in_bounds(rest, rshape),
                    line == self.axis_line(rest, axis as nat),
                    line.len() == line_len,
                    og_indices@.len() == n,
                    forall|m: int|
                        0 <= m < n && m != axis ==> #[trigger] og_indices@[m] == rest.insert(
                            axis as int,
                            0,
                        )[m],
                    forall|x: T, y: T| #[trigger] f.requires((x, y)),
                    is_fold_trace(f, init, line.take(j as int), accs),
                    accs.last() == acc,
                decreases line_len - j,
            {
                og_indices.set(axis, j);
                proof {
                    assert(og_indices@ =~= rest.insert(axis as int, j));
                    assert(in_bounds(og_indices@, full)) by {
                        assert forall|m: int| 0 <= m < n implies #[trigger] og_indices@[m] < full[m] by {
                            if m < axis {
                                assert(rest[m] < rshape[m]);
                            } else if m > axis {
                                assert(rest[m - 1] < rshape[m - 1]);
                            }
                        }
                    }
                }
                let x = self.get_unchecked(og_indices.as_slice());
                let v = f(acc, x);
                proof {
                    assert(x == line[j as int]);
                    lemma_fold_trace_push(f, init, line.take(j as int), accs, x, v);
                    assert(line.take(j as int).push(x) =~= line.take(j + 1));
                    accs = accs.push(v);
                }
                acc = v;
                j = j + 1;
            }
            assert(line.take(line_len as int) =~= line);
            data.push(acc);
            idx = idx + 1;
        }
        Ok(Self::new(data, shape))
    }
}

} // verus!
