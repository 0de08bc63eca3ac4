//! Matrix products of two-dimensional tensors.
use vstd::prelude::*;

use super::super::Tensor;
use crate::layout::{
    dot,
    in_bounds,
    lemma_padded_fits_suffixes,
    lemma_single_size,
    padded_size,
    row_major_strides,
    shape_size,
};

verus! {

/// `accs` records a fold of `f` over the pairs `(xs[k], ys[k])` starting from
/// `init`: each next accumulator is a result of `f` on the previous one and
/// the next pair.
pub open spec fn is_dot_trace<T, F: Fn(T, T, T) -> T>(
    f: F,
    init: T,
    xs: Seq<T>,
    ys: Seq<T>,
    accs: Seq<T>,
) -> bool {
    &&& accs.len() == xs.len() + 1
    &&& accs[0] == init
    &&& forall|k: int|
        0 <= k < xs.len() ==> #[trigger] f.ensures((accs[k], xs[k], ys[k]), accs[k + 1])
}

/// `r` is a result of folding `f` over the pairs of `xs` and `ys` in order,
/// starting at `init`.
pub open spec fn dots_to<T, F: Fn(T, T, T) -> T>(
    f: F,
    init: T,
    xs: Seq<T>,
    ys: Seq<T>,
    r: T,
) -> bool {
    exists|accs: Seq<T>| #[trigger] is_dot_trace(f, init, xs, ys, accs) && accs.last() == r
}

/// One more step of a dot trace.
pub proof fn lemma_dot_trace_push<T, F: Fn(T, T, T) -> T>(
    f: F,
    init: T,
    xs: Seq<T>,
    ys: Seq<T>,
    accs: Seq<T>,
    x: T,
    y: T,
    v: T,
)
    requires
        is_dot_trace(f, init, xs, ys, accs),
        xs.len() == ys.len(),
        f.ensures((accs.last(), x, y), v),
    ensures
        is_dot_trace(f, init, xs.push(x), ys.push(y), accs.push(v)),
{
    let xs2 = xs.push(x);
    let ys2 = ys.push(y);
    let a2 = accs.push(v);
    assert forall|k: int| 0 <= k < xs2.len() implies #[trigger] f.ensures(
        (a2[k], xs2[k], ys2[k]),
        a2[k + 1],
    ) by {
        if k < xs.len() {
            assert(a2[k] == accs[k] && xs2[k] == xs[k] && ys2[k] == ys[k] && a2[k + 1] == accs[k
                + 1]);
        }
    }
}

/// The dot fold over no pairs is `init`; and `v` is a dot fold over the
/// pairs extended by `(x, y)` exactly when it is a result of `f` on some dot
/// fold `a` of the shorter pairs and on `x`, `y` in that order.
pub proof fn lemma_dots_to_steps<T, F: Fn(T, T, T) -> T>(
    f: F,
    init: T,
    xs: Seq<T>,
    ys: Seq<T>,
    x: T,
    y: T,
    v: T,
)
    requires
        xs.len() == ys.len(),
    ensures
        dots_to(f, init, Seq::empty(), Seq::empty(), init),
        dots_to(f, init, xs.push(x), ys.push(y), v) <==> exists|a: T|
            #[trigger] dots_to(f, init, xs, ys, a) && f.ensures((a, x, y), v),
{
    assert(is_dot_trace(f, init, Seq::empty(), Seq::empty(), seq![init]));
    assert(seq![init].last() == init);
    if dots_to(f, init, xs.push(x), ys.push(y), v) {
        let accs = choose|accs: Seq<T>|
            #[trigger] is_dot_trace(f, init, xs.push(x), ys.push(y), accs) && accs.last() == v;
        let short = accs.drop_last();
        assert(is_dot_trace(f, init, xs, ys, short)) by {
            assert forall|k: int| 0 <= k < xs.len() implies #[trigger] f.ensures(
                (short[k], xs[k], ys[k]),
                short[k + 1],
            ) by {
                assert(f.ensures((accs[k], xs.push(x)[k], ys.push(y)[k]), accs[k + 1]));
            }
        }
        let a = short.last();
        let n = xs.len() as int;
        assert(f.ensures((accs[n], xs.push(x)[n], ys.push(y)[n]), accs[n + 1]));
        assert(dots_to(f, init, xs, ys, a) && f.ensures((a, x, y), v));
    }
    if exists|a: T| #[trigger] dots_to(f, init, xs, ys, a) && f.ensures((a, x, y), v) {
        let a = choose|a: T| #[trigger] dots_to(f, init, xs, ys, a) && f.ensures((a, x, y), v);
        let accs = choose|accs: Seq<T>| #[trigger] is_dot_trace(f, init, xs, ys, accs) && accs.last() == a;
        lemma_dot_trace_push(f, init, xs, ys, accs, x, y, v);
        assert(accs.push(v).last() == v);
    }
}

/// Row-major strides of a matrix shape.
pub proof fn lemma_matrix_strides(m: usize, n: usize)
    requires
        padded_size(seq![m, n]) <= usize::MAX,
    ensures
        row_major_strides(seq![m, n]) == seq![n, 1usize],
        shape_size(seq![m, n]) == (m as nat) * (n as nat),
{
    let s = seq![m, n];
    assert(s.subrange(1, 2) =~= seq![n]);
    assert(s.subrange(2, 2) =~= Seq::<usize>::empty());
    assert(seq![n].drop_last() =~= Seq::<usize>::empty());
    assert(s.drop_last() =~= seq![m]);
    assert(seq![m].drop_last() =~= Seq::<usize>::empty());
    assert(shape_size(Seq::<usize>::empty()) == 1);
    assert(seq![n].last() == n);
    lemma_single_size(n);
    lemma_single_size(m);
    let sn = seq![n];
    let sm = seq![m];
    assert(s.last() == n);
    assert(shape_size(s) == shape_size(seq![m]) * (n as nat));
    assert(row_major_strides(s) =~= seq![n, 1usize]);
}

impl<T: Copy> Tensor<T> {
    /// The element of a matrix at row `i`, column `j`.
    pub open spec fn mat_at(&self, i: nat, j: nat) -> T {
        self.at(seq![i as usize, j as usize])
    }

    /// Row `i` of a matrix.
    pub open spec fn matrix_row(&self, i: nat) -> Seq<T> {
        Seq::new(self.shape_view()[1] as nat, |k: int| self.at(seq![i as usize, k as usize]))
    }

    /// Column `j` of a matrix.
    pub open spec fn matrix_col(&self, j: nat) -> Seq<T> {
        Seq::new(self.shape_view()[0] as nat, |k: int| self.at(seq![k as usize, j as usize]))
    }

    /// A matrix's element at `(i, j)` is its element at the index `[i, j]`;
    /// its row `i` lists the elements `[i, k]` for each column `k`, and its
    /// column `j` the elements `[k, j]` for each row `k`.
    pub proof fn lemma_matrix_lines(&self, i: nat, j: nat)
        requires
            self.shape_view().len() == 2,
            i <= usize::MAX,
            j <= usize::MAX,
        ensures
            self.mat_at(i, j) == self.at(seq![i as usize, j as usize]),
            self.matrix_row(i).len() == self.shape_view()[1],
            self.matrix_col(j).len() == self.shape_view()[0],
            forall|k: int|
                0 <= k < self.shape_view()[1] ==> #[trigger] self.matrix_row(i)[k] == self.at(
                    seq![i as usize, k as usize],
                ),
            forall|k: int|
                0 <= k < self.shape_view()[0] ==> #[trigger] self.matrix_col(j)[k] == self.at(
                    seq![k as usize, j as usize],
                ),
    {
    }

    /// The conditions under which a matrix product exists.
    pub open spec fn matmul_shapes_ok(&self, other: &Tensor<T>) -> bool {
        &&& self.shape_view().len() == 2
        &&& other.shape_view().len() == 2
        &&& self.shape_view()[1] == other.shape_view()[0]
    }

    /// The matrix product with the accumulation step `mul_add(acc, a, b)`
    /// (for numbers, `acc + a * b`) folded over the inner dimension from
    /// `zero`. Both tensors must be matrices with matching inner dimension.
    pub fn matmul_by<F: Fn(T, T, T) -> T>(&self, other: &Tensor<T>, zero: T, mul_add: F) -> (r:
        Result<Tensor<T>, String>)
        requires
            forall|acc: T, a: T, b: T| #[trigger] mul_add.requires((acc, a, b)),
            self.shape_view().len() == 2 && other.shape_view().len() == 2 ==> padded_size(
                seq![self.shape_view()[0], other.shape_view()[1]],
            ) <= usize::MAX,
        ensures
            (self.shape_view().len() != 2 || other.shape_view().len() != 2) ==> (r matches Err(e)
                && e@ == "Both tensors must be 2-dimensional for matrix multiplication."@),
            self.shape_view().len() == 2 && other.shape_view().len() == 2
                && self.shape_view()[1] != other.shape_view()[0] ==> (r matches Err(e) && e@
                == "Inner dimensions must match for matrix multiplication."@),
            self.matmul_shapes_ok(other) ==> (r matches Ok(t) && {
                &&& t.shape_view() == seq![self.shape_view()[0], other.shape_view()[1]]
                &&& t.is_row_major()
                &&& t.elems() == t.data_view()
                &&& forall|i: int, j: int|
                    0 <= i < self.shape_view()[0] && 0 <= j < other.shape_view()[1]
                        ==> #[trigger] dots_to(
                        mul_add,
                        zero,
                        self.matrix_row(i as nat),
                        other.matrix_col(j as nat),
                        t.mat_at(i as nat, j as nat),
                    )
            }),
    {
        proof {
            use_type_invariant(self);
            use_type_invariant(other);
        }
        if self.ndim() != 2 || other.ndim() != 2 {
            return Err("Both tensors must be 2-dimensional for matrix multiplication.".to_string());
        }
        if self.shape[1] != other.shape[0] {
            return Err("Inner dimensions must match for matrix multiplication.".to_string());
        }
        let m = self.shape[0];
        let n = other.shape[1];
        let kd = self.shape[1];
        proof {
            lemma_matrix_strides(m, n);
            lemma_padded_fits_suffixes(seq![m, n]);
        }
        let mut data: Vec<T> = Vec::new();
        let mut i: usize = 0;
        while i < m
            invariant
                0 <= i <= m,
                m == self.shape@[0],
                n == other.shape@[1],
                kd == self.shape@[1],
                kd == other.shape@[0],
                self.shape@.len() == 2,
                other.shape@.len() == 2,
                (m as nat) * (n as nat) <= usize::MAX,
                forall|acc: T, a: T, b: T| #[trigger] mul_add.requires((acc, a, b)),
                data@.len() == (i as nat) * (n as nat),
                forall|p: int, q: int|
                    0 <= p < i && 0 <= q < n ==> #[trigger] dots_to(
                        mul_add,
                        zero,
                        self.matrix_row(p as nat),
                        other.matrix_col(q as nat),
                        data@[p * n + q],
                    ),
            decreases m - i,
        {
            let mut j: usize = 0;
            while j < n
                invariant
                    0 <= i < m,
                    0 <= j <= n,
                    m == self.shape@[0],
                    n == other.shape@[1],
                    kd == self.shape@[1],
                    kd == other.shape@[0],
                    self.shape@.len() == 2,
                    other.shape@.len() == 2,
                    forall|acc: T, a: T, b: T| #[trigger] mul_add.requires((acc, a, b)),
                    data@.len() == (i as nat) * (n as nat) + j,
                    forall|p: int, q: int|
                        0 <= p < i && 0 <= q < n ==> #[trigger] dots_to(
                            mul_add,
                            zero,
                            self.matrix_row(p as nat),
                            other.matrix_col(q as nat),
                            data@[p * n + q],
                        ),
                    forall|q: int|
                        0 <= q < j ==> #[trigger] dots_to(
                            mul_add,
                            zero,
                            self.matrix_row(i as nat),
                            other.matrix_col(q as nat),
                            data@[i * n + q],
                        ),
                decreases n - j,
            {
                let ghost xs = self.matrix_row(i as nat);
                let ghost ys = other.matrix_col(j as nat);
                let mut acc = zero;
                let ghost mut accs: Seq<T> = seq![zero];
                assert(is_dot_trace(mul_add, zero, xs.take(0), ys.take(0), accs));
                let mut k: usize = 0;
                while k < kd
                    invariant
                        0 <= i < m,
                        0 <= j < n,
                        0 <= k <= kd,
                        m == self.shape@[0],
                        n == other.shape@[1],
                        kd == self.shape@[1],
                        kd == other.shape@[0],
                        self.shape@.len() == 2,
                        other.shape@.len() == 2,
                        xs == self.matrix_row(i as nat),
                        ys == other.matrix_col(j as nat),
                        forall|acc: T, a: T, b: T| #[trigger] mul_add.requires((acc, a, b)),
                        is_dot_trace(mul_add, zero, xs.take(k as int), ys.take(k as int), accs),
                        accs.last() == acc,
                    decreases kd - k,
                {
                    let a_idx = [i, k];
                    let b_idx = [k, j];
                    assert(a_idx@ =~= seq![i, k]);
                    assert(b_idx@ =~= seq![k, j]);
                    let a = self.get_unchecked(&a_idx);
                    let b = other.get_unchecked(&b_idx);
                    let v = mul_add(acc, a, b);
                    proof {
                        lemma_dot_trace_push(
                            mul_add,
                            zero,
                            xs.take(k as int),
                            ys.take(k as int),
                            accs,
                            a,
                            b,
                            v,
                        );
                        assert(xs.take(k as int).push(a) =~= xs.take(k + 1));
                        assert(ys.take(k as int).push(b) =~= ys.take(k + 1));
                        accs = accs.push(v);
                    }
                    acc = v;
                    k = k + 1;
                }
                assert(xs.take(kd as int) =~= xs);
                assert(ys.take(kd as int) =~= ys);
                let ghost before = data@;
                data.push(acc);
                proof {
                    assert((i as nat) * (n as nat) + j == i * n + j);
                    assert forall|p: int, q: int|
                        0 <= p < i && 0 <= q < n implies #[trigger] dots_to(
                        mul_add,
                        zero,
                        self.matrix_row(p as nat),
                        other.matrix_col(q as nat),
                        data@[p * n + q],
                    ) by {
                        lemma_row_index_bound(p, q, i as int, n as int);
                        assert(data@[p * n + q] == before[p * n + q]);
                    }
                    assert forall|q: int| 0 <= q < j + 1 implies #[trigger] dots_to(
                        mul_add,
                        zero,
                        self.matrix_row(i as nat),
                        other.matrix_col(q as nat),
                        data@[i * n + q],
                    ) by {
                        if q < j {
                            assert(data@[i * n + q] == before[i * n + q]);
                        } else {
                            assert(is_dot_trace(mul_add, zero, xs, ys, accs));
                        }
                    }
                }
                j = j + 1;
            }
            assert((i as nat) * (n as nat) + n == ((i + 1) as nat) * (n as nat)) by (nonlinear_arith);
            proof {
                assert forall|p: int, q: int|
                    0 <= p < i + 1 && 0 <= q < n implies #[trigger] dots_to(
                    mul_add,
                    zero,
                    self.matrix_row(p as nat),
                    other.matrix_col(q as nat),
                    data@[p * n + q],
                ) by {
                    if p == i {
                        assert(dots_to(
                            mul_add,
                            zero,
                            self.matrix_row(i as nat),
                            other.matrix_col(q as nat),
                            data@[i * n + q],
                        ));
                    }
                }
            }
            i = i + 1;
        }
        let shape: Vec<usize> = vec![m, n];
        assert(shape@ =~= seq![m, n]);
        let t = Self::new(data, shape);
        proof {
            assert forall|i: int, j: int|
                0 <= i < m && 0 <= j < n implies #[trigger] dots_to(
                mul_add,
                zero,
                self.matrix_row(i as nat),
                other.matrix_col(j as nat),
                t.mat_at(i as nat, j as nat),
            ) by {
                let idx = seq![i as usize, j as usize];
                assert(idx.drop_last() =~= seq![i as usize]);
                assert(seq![i as usize].drop_last() =~= Seq::<usize>::empty());
                let st = seq![n, 1usize];
                assert(st[0] == n && st[1] == 1);
                assert(dot(Seq::<usize>::empty(), st) == 0);
                assert(dot(seq![i as usize], st) == i * n);
                assert(dot(idx, st) == i * n + j);
                lemma_row_index_bound(i, j, m as int, n as int);
            }
        }
        Ok(t)
    }
}

/// Position `p * n + q` of an `m`-by-`n` row-major matrix lies before row `m`.
pub proof fn lemma_row_index_bound(p: int, q: int, m: int, n: int)
    requires
        0 <= p < m,
        0 <= q < n,
    ensures
        0 <= p * n + q < m * n,
        p * n + q < (p + 1) * n,
        p * n <= p * n + q,
{
    assert(0 <= p * n + q < m * n) by (nonlinear_arith)
        requires 0 <= p < m, 0 <= q < n;
    assert(p * n + q < (p + 1) * n) by (nonlinear_arith)
        requires 0 <= q < n;
}

} // verus!

verus! {

/// `v` is a result of `activation` on a result of the dot fold of `xs` and
/// `ys`.
pub open spec fn activated_dot<T, F: Fn(T, T, T) -> T, G: Fn(T) -> T>(
    mul_add: F,
    activation: G,
    zero: T,
    xs: Seq<T>,
    ys: Seq<T>,
    v: T,
) -> bool {
    exists|acc: T| #[trigger] dots_to(mul_add, zero, xs, ys, acc) && activation.ensures((acc,), v)
}

/// How far the accumulation of the cell at row `p`, column `q` of a row
/// tile has got while the tiled loops stand at the given counters: `-1`
/// once activated, else the number of inner-dimension steps taken.
pub open spec fn tile_progress(
    p: int,
    q: int,
    jj: int,
    col_len: int,
    done_k: int,
    k_len: int,
    i_rel: int,
    k: int,
    j: int,
) -> int {
    if q < jj {
        -1
    } else if q >= col_len {
        0
    } else if p < i_rel {
        k_len
    } else if p > i_rel {
        done_k
    } else if q < j {
        k + 1
    } else {
        k
    }
}

impl<T: Copy> Tensor<T> {
    /// The state of one cell of a row tile: activated (`prog < 0`), or
    /// holding the accumulator after `prog` steps, recorded in `trace`.
    pub open spec fn tile_cell_ok<F: Fn(T, T, T) -> T, G: Fn(T) -> T>(
        &self,
        other: &Tensor<T>,
        mul_add: F,
        activation: G,
        zero: T,
        i: nat,
        j: nat,
        cell: T,
        trace: Seq<T>,
        prog: int,
    ) -> bool {
        let xs = self.matrix_row(i);
        let ys = other.matrix_col(j);
        if prog < 0 {
            activated_dot(mul_add, activation, zero, xs, ys, cell)
        } else {
            &&& trace.len() == prog + 1
            &&& is_dot_trace(mul_add, zero, xs.take(prog), ys.take(prog), trace)
            &&& cell == trace.last()
        }
    }

    /// The element of a matrix at row `i`, column `k`, read straight from
    /// storage.
    fn matrix_elem(&self, i: usize, k: usize) -> (r: T)
        requires
            self.shape_view().len() == 2,
            i < self.shape_view()[0],
            k < self.shape_view()[1],
        ensures
            r == self.mat_at(i as nat, k as nat),
    {
        proof {
            use_type_invariant(self);
            let idx = seq![i, k];
            assert(in_bounds(idx, self.shape@));
            self.lemma_flat_in_range(idx);
            let st = self.strides@;
            assert(idx.drop_last() =~= seq![i]);
            assert(seq![i].drop_last() =~= Seq::<usize>::empty());
            assert(dot(Seq::<usize>::empty(), st) == 0);
            assert(dot(seq![i], st) == (i as nat) * (st[0] as nat));
            assert(dot(idx, st) == (i as nat) * (st[0] as nat) + (k as nat) * (st[1] as nat));
            assert((st[0] as nat) * (i as nat) == (i as nat) * (st[0] as nat)) by (nonlinear_arith);
            assert((st[1] as nat) * (k as nat) == (k as nat) * (st[1] as nat)) by (nonlinear_arith);
        }
        let idx = self.offset + self.strides[0] * i + self.strides[1] * k;
        self.data[idx]
    }
}

} // verus!

verus! {

/// Rows in the tile of `tile_size` rows starting at row `ii` of `m` rows.
pub open spec fn tile_rows(ii: nat, tile_size: nat, m: nat) -> nat {
    if ii + tile_size < m {
        tile_size
    } else {
        (m - ii) as nat
    }
}

/// Activation progress while activating the block of columns
/// `jj .. col_len`: `-1` for activated cells, else the number of steps taken.
pub open spec fn activation_progress(
    p: int,
    q: int,
    jj: int,
    col_len: int,
    kd: int,
    i_rel: int,
    j: int,
) -> int {
    if q < jj {
        -1
    } else if q >= col_len {
        0
    } else if p < i_rel {
        -1
    } else if p == i_rel && q < j {
        -1
    } else {
        kd
    }
}

impl<T: Copy> Tensor<T> {
    /// Every cell of a row tile whose first row is `ii` and whose width is `n`
    /// is in the state `prog` gives it.
    pub open spec fn tile_state_ok<F: Fn(T, T, T) -> T, G: Fn(T) -> T>(
        &self,
        other: &Tensor<T>,
        mul_add: F,
        activation: G,
        zero: T,
        ii: nat,
        n: nat,
        buf: Seq<T>,
        traces: Seq<Seq<T>>,
        prog: spec_fn(int, int) -> int,
    ) -> bool {
        &&& buf.len() == traces.len()
        &&& forall|c: int|
            #![trigger traces[c]]
            0 <= c < buf.len() ==> self.tile_cell_ok(
                other,
                mul_add,
                activation,
                zero,
                (ii + c / (n as int)) as nat,
                (c % (n as int)) as nat,
                buf[c],
                traces[c],
                prog(c / (n as int), c % (n as int)),
            )
    }
}

/// Position `c` of a block of width `n` is at row `c / n`, column `c % n`.
pub proof fn lemma_cell_split(p: int, q: int, n: int)
    requires
        0 <= p,
        0 <= q < n,
    ensures
        (p * n + q) / n == p,
        (p * n + q) % n == q,
{
    vstd::arithmetic::div_mod::lemma_fundamental_div_mod_converse(p * n + q, n, p, q);
}

pub proof fn lemma_cell_bounds(c: int, n: int, rows: int)
    requires
        0 <= c < rows * n,
        n > 0,
    ensures
        0 <= c / n < rows,
        0 <= c % n < n,
        c == (c / n) * n + c % n,
{
    vstd::arithmetic::div_mod::lemma_fundamental_div_mod(c, n);
    vstd::arithmetic::div_mod::lemma_div_pos_is_pos(c, n);
    vstd::arithmetic::div_mod::lemma_mod_pos_bound(c, n);
    assert((c / n) * n == n * (c / n)) by (nonlinear_arith);
    if c / n >= rows {
        assert((c / n) * n >= rows * n) by (nonlinear_arith)
            requires c / n >= rows, n > 0;
    }
}

} // verus!

verus! {

impl<T: Copy> Tensor<T> {
    /// Rows `ii .. min(ii + tile_size, m)` of the product of two matrices
    /// followed by `activation` on each element, in row-major order. The
    /// block is computed by column tiles; within a column tile the inner
    /// dimension is walked tile by tile, and each cell accumulates
    /// `mul_add(acc, a, b)` from `zero` in increasing inner index, then
    /// `activation` is applied once the column tile is complete.
    pub fn matmul_relu_row_tile_by<F: Fn(T, T, T) -> T, G: Fn(T) -> T>(
        &self,
        other: &Tensor<T>,
        ii: usize,
        tile_size: usize,
        zero: T,
        mul_add: &F,
        activation: &G,
    ) -> (r: Vec<T>)
        requires
            self.matmul_shapes_ok(other),
            tile_size > 0,
            ii < self.shape_view()[0],
            self.shape_view()[0] + tile_size <= usize::MAX,
            self.shape_view()[1] + tile_size <= usize::MAX,
            other.shape_view()[1] + tile_size <= usize::MAX,
            (self.shape_view()[0] as nat) * (other.shape_view()[1] as nat) <= usize::MAX,
            forall|acc: T, a: T, b: T| #[trigger] mul_add.requires((acc, a, b)),
            forall|x: T| #[trigger] activation.requires((x,)),
        ensures
            r@.len() == tile_rows(ii as nat, tile_size as nat, self.shape_view()[0] as nat) * (
            other.shape_view()[1] as nat),
            forall|p: int, q: int|
                0 <= p < tile_rows(ii as nat, tile_size as nat, self.shape_view()[0] as nat) && 0
                    <= q < other.shape_view()[1] ==> #[trigger] activated_dot(
                    *mul_add,
                    *activation,
                    zero,
                    self.matrix_row((ii + p) as nat),
                    other.matrix_col(q as nat),
                    r@[p * other.shape_view()[1] + q],
                ),
    {
        let m = self.shape[0];
        let n = other.shape[1];
        let kd = self.shape[1];
        let row_len: usize = if ii + tile_size < m {
            ii + tile_size
        } else {
            m
        };
        let rows = row_len - ii;
        assert(rows as nat == tile_rows(ii as nat, tile_size as nat, m as nat));
        assert((rows as nat) * (n as nat) <= (m as nat) * (n as nat)) by (nonlinear_arith)
            requires rows <= m;
        let total = rows * n;
        let ghost f = *mul_add;
        let ghost g = *activation;
        let mut buf: Vec<T> = Vec::new();
        let mut c: usize = 0;
        while c < total
            invariant
                0 <= c <= total,
                buf@ == Seq::new(c as nat, |x: int| zero),
            decreases total - c,
        {
            buf.push(zero);
            c = c + 1;
            assert(buf@ =~= Seq::new(c as nat, |x: int| zero));
        }
        let ghost mut traces: Seq<Seq<T>> = Seq::new(total as nat, |x: int| seq![zero]);
        if n == 0 {
            assert(total == 0) by (nonlinear_arith)
                requires total == rows * n, n == 0;
            return buf;
        }
        proof {
            assert forall|c: int|
                #![trigger traces[c]]
                0 <= c < buf@.len() implies self.tile_cell_ok(
                other,
                f,
                g,
                zero,
                (ii + c / (n as int)) as nat,
                (c % (n as int)) as nat,
                buf@[c],
                traces[c],
                tile_progress(c / (n as int), c % (n as int), 0, 0, 0, 0, 0, 0, 0),
            ) by {
                lemma_cell_bounds(c, n as int, rows as int);
                let xs = self.matrix_row((ii + c / (n as int)) as nat);
                let ys = other.matrix_col((c % (n as int)) as nat);
                assert(xs.take(0) =~= Seq::<T>::empty());
                assert(ys.take(0) =~= Seq::<T>::empty());
            }
        }
        let mut jj: usize = 0;
        while jj < n
            invariant
                m == self.shape@[0],
                n == other.shape@[1],
                kd == self.shape@[1],
                self.matmul_shapes_ok(other),
                n > 0,
                tile_size > 0,
                ii < row_len <= m,
                rows == row_len - ii,
                total == rows * n,
                m + tile_size <= usize::MAX,
                n + tile_size <= usize::MAX,
                kd + tile_size <= usize::MAX,
                f == *mul_add,
                g == *activation,
                forall|acc: T, a: T, b: T| #[trigger] mul_add.requires((acc, a, b)),
                forall|x: T| #[trigger] activation.requires((x,)),
                buf@.len() == total,
                self.tile_state_ok(
                    other,
                    f,
                    g,
                    zero,
                    ii as nat,
                    n as nat,
                    buf@,
                    traces,
                    |p: int, q: int| tile_progress(p, q, jj as int, jj as int, 0, 0, 0, 0, 0),
                ),
                jj < n + tile_size,
            decreases n + tile_size - jj,
        {
            let col_len: usize = if jj + tile_size < n {
                jj + tile_size
            } else {
                n
            };
            let mut kk: usize = 0;
            let ghost mut done_k: int = 0;
            while kk < kd
                invariant
                    m == self.shape@[0],
                    n == other.shape@[1],
                    kd == self.shape@[1],
                    self.matmul_shapes_ok(other),
                    n > 0,
                    tile_size > 0,
                    ii < row_len <= m,
                    rows == row_len - ii,
                    total == rows * n,
                    jj < col_len <= n,
                    kd + tile_size <= usize::MAX,
                    f == *mul_add,
                    g == *activation,
                    forall|acc: T, a: T, b: T| #[trigger] mul_add.requires((acc, a, b)),
                    forall|x: T| #[trigger] activation.requires((x,)),
                    buf@.len() == total,
                    kk < kd ==> done_k == kk,
                    kk >= kd ==> done_k == kd,
                    self.tile_state_ok(
                        other,
                        f,
                        g,
                        zero,
                        ii as nat,
                        n as nat,
                        buf@,
                        traces,
                        |p: int, q: int|
                            tile_progress(
                                p,
                                q,
                                jj as int,
                                col_len as int,
                                done_k,
                                done_k,
                                0,
                                done_k,
                                jj as int,
                            ),
                    ),
                    kk < kd + tile_size,
                decreases kd + tile_size - kk,
            {
                let k_len: usize = if kk + tile_size < kd {
                    kk + tile_size
                } else {
                    kd
                };
                let mut i: usize = ii;
                while i < row_len
                    invariant
                        m == self.shape@[0],
                        n == other.shape@[1],
                        kd == self.shape@[1],
                        self.matmul_shapes_ok(other),
                        n > 0,
                        ii <= i <= row_len,
                        row_len <= m,
                        rows == row_len - ii,
                        total == rows * n,
                        jj < col_len <= n,
                        kk < k_len <= kd,
                        done_k == kk,
                        f == *mul_add,
                        forall|acc: T, a: T, b: T| #[trigger] mul_add.requires((acc, a, b)),
                        buf@.len() == total,
                        self.tile_state_ok(
                            other,
                            f,
                            g,
                            zero,
                            ii as nat,
                            n as nat,
                            buf@,
                            traces,
                            |p: int, q: int|
                                tile_progress(
                                    p,
                                    q,
                                    jj as int,
                                    col_len as int,
                                    done_k,
                                    k_len as int,
                                    i - ii,
                                    done_k,
                                    jj as int,
                                ),
                        ),
                    decreases row_len - i,
                {
                    let i_rel = i - ii;
                    assert((i_rel as nat) * (n as nat) + n <= (rows as nat) * (n as nat))
                        by (nonlinear_arith)
                        requires i_rel < rows;
                    let base = i_rel * n;
                    let mut k: usize = kk;
                    while k < k_len
                        invariant
                            m == self.shape@[0],
                            n == other.shape@[1],
                            kd == self.shape@[1],
                            self.matmul_shapes_ok(other),
                            n > 0,
                            ii <= i < row_len,
                            row_len <= m,
                            i_rel == i - ii,
                            base == i_rel * n,
                            base + n <= total,
                            rows == row_len - ii,
                            total == rows * n,
                            jj < col_len <= n,
                            kk <= k <= k_len,
                            k_len <= kd,
                            done_k == kk,
                            f == *mul_add,
                            forall|acc: T, a: T, b: T| #[trigger] mul_add.requires((acc, a, b)),
                            buf@.len() == total,
                            self.tile_state_ok(
                                other,
                                f,
                                g,
                                zero,
                                ii as nat,
                                n as nat,
                                buf@,
                                traces,
                                |p: int, q: int|
                                    tile_progress(
                                        p,
                                        q,
                                        jj as int,
                                        col_len as int,
                                        done_k,
                                        k_len as int,
                                        i_rel as int,
                                        k as int,
                                        jj as int,
                                    ),
                            ),
                        decreases k_len - k,
                    {
                        let mut j: usize = jj;
                        while j < col_len
                            invariant
                                m == self.shape@[0],
                                n == other.shape@[1],
                                kd == self.shape@[1],
                                self.matmul_shapes_ok(other),
                                n > 0,
                                ii <= i < row_len,
                                row_len <= m,
                                i_rel == i - ii,
                                base == i_rel * n,
                                base + n <= total,
                                rows == row_len - ii,
                                total == rows * n,
                                jj <= j <= col_len,
                                col_len <= n,
                                kk <= k < k_len,
                                k_len <= kd,
                                done_k == kk,
                                f == *mul_add,
                                forall|acc: T, a: T, b: T| #[trigger] mul_add.requires((acc, a, b)),
                                buf@.len() == total,
                                self.tile_state_ok(
                                    other,
                                    f,
                                    g,
                                    zero,
                                    ii as nat,
                                    n as nat,
                                    buf@,
                                    traces,
                                    |p: int, q: int|
                                        tile_progress(
                                            p,
                                            q,
                                            jj as int,
                                            col_len as int,
                                            done_k,
                                            k_len as int,
                                            i_rel as int,
                                            k as int,
                                            j as int,
                                        ),
                                ),
                            decreases col_len - j,
                        {
                            let a = self.matrix_elem(i, k);
                            let b = other.matrix_elem(k, j);
                            let cell = base + j;
                            let cur = buf[cell];
                            let v = mul_add(cur, a, b);
                            let ghost old_buf = buf@;
                            let ghost old_traces = traces;
                            buf.set(cell, v);
                            proof {
                                let c0 = cell as int;
                                lemma_cell_split(i_rel as int, j as int, n as int);
                                let xs = self.matrix_row(i as nat);
                                let ys = other.matrix_col(j as nat);
                                let tr = old_traces[c0];
                                assert(self.tile_cell_ok(
                                    other,
                                    f,
                                    g,
                                    zero,
                                    (ii + c0 / (n as int)) as nat,
                                    (c0 % (n as int)) as nat,
                                    old_buf[c0],
                                    tr,
                                    tile_progress(
                                        c0 / (n as int),
                                        c0 % (n as int),
                                        jj as int,
                                        col_len as int,
                                        done_k,
                                        k_len as int,
                                        i_rel as int,
                                        k as int,
                                        j as int,
                                    ),
                                ));
                                assert(xs[k as int] == a);
                                assert(ys[k as int] == b);
                                lemma_dot_trace_push(
                                    f,
                                    zero,
                                    xs.take(k as int),
                                    ys.take(k as int),
                                    tr,
                                    a,
                                    b,
                                    v,
                                );
                                assert(xs.take(k as int).push(a) =~= xs.take(k + 1));
                                assert(ys.take(k as int).push(b) =~= ys.take(k + 1));
                                traces = old_traces.update(c0, tr.push(v));
                                assert forall|c: int|
                                    #![trigger traces[c]]
                                    0 <= c < buf@.len() implies self.tile_cell_ok(
                                    other,
                                    f,
                                    g,
                                    zero,
                                    (ii + c / (n as int)) as nat,
                                    (c % (n as int)) as nat,
                                    buf@[c],
                                    traces[c],
                                    tile_progress(
                                        c / (n as int),
                                        c % (n as int),
                                        jj as int,
                                        col_len as int,
                                        done_k,
                                        k_len as int,
                                        i_rel as int,
                                        k as int,
                                        j + 1,
                                    ),
                                ) by {
                                    if c != c0 {
                                        assert(old_traces[c] == traces[c]);
                                        lemma_cell_bounds(c, n as int, rows as int);
                                        if c / (n as int) == i_rel && c % (n as int) == j {
                                            assert(c == c0);
                                        }
                                    }
                                }
                            }
                            j = j + 1;
                        }
                        k = k + 1;
                    }
                    i = i + 1;
                }
                let ghost prev_done = done_k;
                proof {
                    done_k = k_len as int;
                    assert forall|c: int|
                        #![trigger traces[c]]
                        0 <= c < buf@.len() implies self.tile_cell_ok(
                        other,
                        f,
                        g,
                        zero,
                        (ii + c / (n as int)) as nat,
                        (c % (n as int)) as nat,
                        buf@[c],
                        traces[c],
                        tile_progress(
                            c / (n as int),
                            c % (n as int),
                            jj as int,
                            col_len as int,
                            done_k,
                            done_k,
                            0,
                            done_k,
                            jj as int,
                        ),
                    ) by {
                        lemma_cell_bounds(c, n as int, rows as int);
                        assert(tile_progress(
                            c / (n as int),
                            c % (n as int),
                            jj as int,
                            col_len as int,
                            prev_done,
                            k_len as int,
                            rows as int,
                            prev_done,
                            jj as int,
                        ) == tile_progress(
                            c / (n as int),
                            c % (n as int),
                            jj as int,
                            col_len as int,
                            done_k,
                            done_k,
                            0,
                            done_k,
                            jj as int,
                        ));
                    }
                }
                kk = kk + tile_size;
            }
            let mut i2: usize = ii;
            while i2 < row_len
                invariant
                    m == self.shape@[0],
                    n == other.shape@[1],
                    kd == self.shape@[1],
                    self.matmul_shapes_ok(other),
                    n > 0,
                    ii <= i2 <= row_len,
                    row_len <= m,
                    rows == row_len - ii,
                    total == rows * n,
                    jj < col_len <= n,
                    done_k == kd,
                    g == *activation,
                    forall|x: T| #[trigger] activation.requires((x,)),
                    buf@.len() == total,
                    self.tile_state_ok(
                        other,
                        f,
                        g,
                        zero,
                        ii as nat,
                        n as nat,
                        buf@,
                        traces,
                        |p: int, q: int|
                            activation_progress(
                                p,
                                q,
                                jj as int,
                                col_len as int,
                                kd as int,
                                i2 - ii,
                                jj as int,
                            ),
                    ),
                decreases row_len - i2,
            {
                let i_rel = i2 - ii;
                assert((i_rel as nat) * (n as nat) + n <= (rows as nat) * (n as nat))
                    by (nonlinear_arith)
                    requires i_rel < rows;
                let base = i_rel * n;
                let mut j2: usize = jj;
                while j2 < col_len
                    invariant
                        m == self.shape@[0],
                        n == other.shape@[1],
                        kd == self.shape@[1],
                        self.matmul_shapes_ok(other),
                        n > 0,
                        ii <= i2 < row_len,
                        row_len <= m,
                        i_rel == i2 - ii,
                        base == i_rel * n,
                        base + n <= total,
                        rows == row_len - ii,
                        total == rows * n,
                        jj <= j2 <= col_len,
                        col_len <= n,
                        g == *activation,
                        forall|x: T| #[trigger] activation.requires((x,)),
                        buf@.len() == total,
                        self.tile_state_ok(
                            other,
                            f,
                            g,
                            zero,
                            ii as nat,
                            n as nat,
                            buf@,
                            traces,
                            |p: int, q: int|
                                activation_progress(
                                    p,
                                    q,
                                    jj as int,
                                    col_len as int,
                                    kd as int,
                                    i_rel as int,
                                    j2 as int,
                                ),
                        ),
                    decreases col_len - j2,
                {
                    let cell = base + j2;
                    let cur = buf[cell];
                    let v = activation(cur);
                    let ghost old_buf = buf@;
                    buf.set(cell, v);
                    proof {
                        let c0 = cell as int;
                        lemma_cell_split(i_rel as int, j2 as int, n as int);
                        let xs = self.matrix_row(i2 as nat);
                        let ys = other.matrix_col(j2 as nat);
                        let tr = traces[c0];
                        assert(self.tile_cell_ok(
                            other,
                            f,
                            g,
                            zero,
                            (ii + c0 / (n as int)) as nat,
                            (c0 % (n as int)) as nat,
                            old_buf[c0],
                            tr,
                            activation_progress(
                                c0 / (n as int),
                                c0 % (n as int),
                                jj as int,
                                col_len as int,
                                kd as int,
                                i_rel as int,
                                j2 as int,
                            ),
                        ));
                        assert(xs.take(kd as int) =~= xs);
                        assert(ys.take(kd as int) =~= ys);
                        assert(is_dot_trace(f, zero, xs, ys, tr));
                        assert(dots_to(f, zero, xs, ys, cur));
                        assert(activated_dot(f, g, zero, xs, ys, v));
                        assert forall|c: int|
                            #![trigger traces[c]]
                            0 <= c < buf@.len() implies self.tile_cell_ok(
                            other,
                            f,
                            g,
                            zero,
                            (ii + c / (n as int)) as nat,
                            (c % (n as int)) as nat,
                            buf@[c],
                            traces[c],
                            activation_progress(
                                c / (n as int),
                                c % (n as int),
                                jj as int,
                                col_len as int,
                                kd as int,
                                i_rel as int,
                                j2 + 1,
                            ),
                        ) by {
                            if c != c0 {
                                assert(buf@[c] == old_buf[c]);
                                lemma_cell_bounds(c, n as int, rows as int);
                                if c / (n as int) == i_rel && c % (n as int) == j2 {
                                    assert(c == c0);
                                }
                            }
                        }
                    }
                    j2 = j2 + 1;
                }
                i2 = i2 + 1;
            }
            proof {
                let nj = jj + tile_size;
                assert forall|c: int|
                    #![trigger traces[c]]
                    0 <= c < buf@.len() implies self.tile_cell_ok(
                    other,
                    f,
                    g,
                    zero,
                    (ii + c / (n as int)) as nat,
                    (c % (n as int)) as nat,
                    buf@[c],
                    traces[c],
                    tile_progress(c / (n as int), c % (n as int), nj, nj, 0, 0, 0, 0, 0),
                ) by {
                    lemma_cell_bounds(c, n as int, rows as int);
                    assert(activation_progress(
                        c / (n as int),
                        c % (n as int),
                        jj as int,
                        col_len as int,
                        kd as int,
                        rows as int,
                        jj as int,
                    ) == tile_progress(c / (n as int), c % (n as int), nj, nj, 0, 0, 0, 0, 0));
                }
            }
            jj = jj + tile_size;
        }
        proof {
            assert forall|p: int, q: int|
                0 <= p < rows && 0 <= q < n implies #[trigger] activated_dot(
                *mul_add,
                *activation,
                zero,
                self.matrix_row((ii + p) as nat),
                other.matrix_col(q as nat),
                buf@[p * n + q],
            ) by {
                lemma_cell_split(p, q, n as int);
                lemma_row_index_bound(p, q, rows as int, n as int);
                assert(traces[p * n + q] == traces[p * n + q]);
            }
        }
        buf
    }
}

} // verus!

verus! {

impl<T: Copy> Tensor<T> {
    /// The product of two matrices followed by `activation` on each element
    /// (for numbers with `mul_add(acc, a, b) = acc + a * b` and
    /// `activation(x) = max(x, 0)`: a fused product and rectifier), computed
    /// in blocks of `tile_size` rows, columns and inner indices. Both tensors
    /// must be matrices with matching inner dimension.
    pub fn matmul_relu_tiled_by<F: Fn(T, T, T) -> T, G: Fn(T) -> T>(
        &self,
        other: &Tensor<T>,
        tile_size: usize,
        zero: T,
        mul_add: F,
        activation: G,
    ) -> (r: Result<Tensor<T>, String>)
        requires
            forall|acc: T, a: T, b: T| #[trigger] mul_add.requires((acc, a, b)),
            forall|x: T| #[trigger] activation.requires((x,)),
            self.matmul_shapes_ok(other) ==> {
                &&& tile_size > 0
                &&& self.shape_view()[0] + tile_size <= usize::MAX
                &&& self.shape_view()[1] + tile_size <= usize::MAX
                &&& other.shape_view()[1] + tile_size <= usize::MAX
                &&& padded_size(seq![self.shape_view()[0], other.shape_view()[1]]) <= usize::MAX
            },
        ensures
            (self.shape_view().len() != 2 || other.shape_view().len() != 2) ==> (r matches Err(e)
                && e@ == "Both tensors must be 2-dimensional for matrix multiplication."@),
            self.shape_view().len() == 2 && other.shape_view().len() == 2
                && self.shape_view()[1] != other.shape_view()[0] ==> (r matches Err(e) && e@
                == "Inner dimensions must match for matrix multiplication."@),
            self.matmul_shapes_ok(other) ==> (r matches Ok(t) && {
                &&& t.shape_view() == seq![self.shape_view()[0], other.shape_view()[1]]
                &&& t.is_row_major()
                &&& t.elems() == t.data_view()
                &&& forall|i: int, j: int|
                    0 <= i < self.shape_view()[0] && 0 <= j < other.shape_view()[1]
                        ==> #[trigger] activated_dot(
                        mul_add,
                        activation,
                        zero,
                        self.matrix_row(i as nat),
                        other.matrix_col(j as nat),
                        t.mat_at(i as nat, j as nat),
                    )
            }),
    {
        proof {
            use_type_invariant(self);
            use_type_invariant(other);
        }
        if self.ndim() != 2 || other.ndim() != 2 {
            return Err("Both tensors must be 2-dimensional for matrix multiplication.".to_string());
        }
        if self.shape[1] != other.shape[0] {
            return Err("Inner dimensions must match for matrix multiplication.".to_string());
        }
        let m = self.shape[0];
        let n = other.shape[1];
        proof {
            lemma_matrix_strides(m, n);
            lemma_padded_fits_suffixes(seq![m, n]);
        }
        let mut data: Vec<T> = Vec::new();
        let mut ii: usize = 0;
        let ghost mut done: int = 0;
        while ii < m
            invariant
                m == self.shape@[0],
                n == other.shape@[1],
                self.matmul_shapes_ok(other),
                tile_size > 0,
                m + tile_size <= usize::MAX,
                self.shape_view()[1] + tile_size <= usize::MAX,
                n + tile_size <= usize::MAX,
                (m as nat) * (n as nat) <= usize::MAX,
                forall|acc: T, a: T, b: T| #[trigger] mul_add.requires((acc, a, b)),
                forall|x: T| #[trigger] activation.requires((x,)),
                ii < m ==> done == ii,
                ii >= m ==> done == m,
                ii < m + tile_size,
                data@.len() == done * n,
                forall|p: int, q: int|
                    0 <= p < done && 0 <= q < n ==> #[trigger] activated_dot(
                        mul_add,
                        activation,
                        zero,
                        self.matrix_row(p as nat),
                        other.matrix_col(q as nat),
                        data@[p * n + q],
                    ),
            decreases m + tile_size - ii,
        {
            let mut chunk = self.matmul_relu_row_tile_by(
                other,
                ii,
                tile_size,
                zero,
                &mul_add,
                &activation,
            );
            let ghost rows = tile_rows(ii as nat, tile_size as nat, m as nat) as int;
            let ghost before = data@;
            let ghost ch = chunk@;
            data.append(&mut chunk);
            proof {
                assert(data@ == before + ch);
                assert(before.len() == ii * n);
                assert(data@.len() == (ii + rows) * n) by (nonlinear_arith)
                    requires data@.len() == before.len() + ch.len(), before.len() == ii * n, ch.len()
                        == rows * n;
                assert forall|p: int, q: int|
                    0 <= p < ii + rows && 0 <= q < n implies #[trigger] activated_dot(
                    mul_add,
                    activation,
                    zero,
                    self.matrix_row(p as nat),
                    other.matrix_col(q as nat),
                    data@[p * n + q],
                ) by {
                    lemma_row_index_bound(p, q, ii + rows, n as int);
                    if p < ii {
                        lemma_row_index_bound(p, q, ii as int, n as int);
                        assert(data@[p * n + q] == before[p * n + q]);
                    } else {
                        let pr = p - ii;
                        assert(p * n + q == ii * n + (pr * n + q)) by (nonlinear_arith)
                            requires pr == p - ii;
                        lemma_row_index_bound(pr, q, rows, n as int);
                        assert(data@[p * n + q] == ch[pr * n + q]);
                        assert(activated_dot(
                            mul_add,
                            activation,
                            zero,
                            self.matrix_row((ii + pr) as nat),
                            other.matrix_col(q as nat),
                            ch[pr * n + q],
                        ));
                    }
                }
                done = ii + rows;
            }
            ii = ii + tile_size;
        }
        let shape: Vec<usize> = vec![m, n];
        assert(shape@ =~= seq![m, n]);
        let t = Self::new(data, shape);
        proof {
            assert forall|i: int, j: int|
                0 <= i < m && 0 <= j < n implies #[trigger] activated_dot(
                mul_add,
                activation,
                zero,
                self.matrix_row(i as nat),
                other.matrix_col(j as nat),
                t.mat_at(i as nat, j as nat),
            ) by {
                let idx = seq![i as usize, j as usize];
                assert(idx.drop_last() =~= seq![i as usize]);
                assert(seq![i as usize].drop_last() =~= Seq::<usize>::empty());
                let st = seq![n, 1usize];
                assert(st[0] == n && st[1] == 1);
                assert(dot(Seq::<usize>::empty(), st) == 0);
                assert(dot(seq![i as usize], st) == i * n);
                assert(dot(idx, st) == i * n + j);
                lemma_row_index_bound(i, j, m as int, n as int);
            }
        }
        Ok(t)
    }
}

/// `f` gives one result for each input.
pub open spec fn deterministic3<T, F: Fn(T, T, T) -> T>(f: F) -> bool {
    forall|a: T, b: T, c: T, v: T, w: T|
        f.ensures((a, b, c), v) && f.ensures((a, b, c), w) ==> v == w
}

/// `g` gives one result for each input.
pub open spec fn deterministic1<T, G: Fn(T) -> T>(g: G) -> bool {
    forall|a: T, v: T, w: T| g.ensures((a,), v) && g.ensures((a,), w) ==> v == w
}

/// With a deterministic step, the dot fold of two sequences has one result.
pub proof fn lemma_dots_to_unique<T, F: Fn(T, T, T) -> T>(
    f: F,
    zero: T,
    xs: Seq<T>,
    ys: Seq<T>,
    r1: T,
    r2: T,
)
    requires
        deterministic3(f),
        dots_to(f, zero, xs, ys, r1),
        dots_to(f, zero, xs, ys, r2),
    ensures
        r1 == r2,
{
    let a1 = choose|a: Seq<T>| #[trigger] is_dot_trace(f, zero, xs, ys, a) && a.last() == r1;
    let a2 = choose|a: Seq<T>| #[trigger] is_dot_trace(f, zero, xs, ys, a) && a.last() == r2;
    assert forall|k: int| 0 <= k <= xs.len() implies a1[k] == a2[k] by {
        lemma_traces_agree(f, zero, xs, ys, a1, a2, k);
    }
}

proof fn lemma_traces_agree<T, F: Fn(T, T, T) -> T>(
    f: F,
    zero: T,
    xs: Seq<T>,
    ys: Seq<T>,
    a1: Seq<T>,
    a2: Seq<T>,
    k: int,
)
    requires
        deterministic3(f),
        is_dot_trace(f, zero, xs, ys, a1),
        is_dot_trace(f, zero, xs, ys, a2),
        0 <= k <= xs.len(),
    ensures
        a1[k] == a2[k],
    decreases k,
{
    if k > 0 {
        let j = k - 1;
        lemma_traces_agree(f, zero, xs, ys, a1, a2, j);
        assert(f.ensures((a1[j], xs[j], ys[j]), a1[j + 1]));
        assert(f.ensures((a2[j], xs[j], ys[j]), a2[j + 1]));
    }
}

/// The fused product-and-activation agrees with the product followed by the
/// activation: with deterministic steps, a cell of the fused result is the
/// activation of the dot fold of its row and column, whichever tile size
/// computed it.
pub proof fn lemma_fused_matches_unfused<T, F: Fn(T, T, T) -> T, G: Fn(T) -> T>(
    mul_add: F,
    activation: G,
    zero: T,
    xs: Seq<T>,
    ys: Seq<T>,
    fused: T,
    product: T,
    activated: T,
)
    requires
        deterministic3(mul_add),
        deterministic1(activation),
        activated_dot(mul_add, activation, zero, xs, ys, fused),
        dots_to(mul_add, zero, xs, ys, product),
        activation.ensures((product,), activated),
    ensures
        fused == activated,
{
    let acc = choose|acc: T|
        #[trigger] dots_to(mul_add, zero, xs, ys, acc) && activation.ensures((acc,), fused);
    lemma_dots_to_unique(mul_add, zero, xs, ys, acc, product);
}

} // verus!
