//! The mathematics of a strided layout: sizes, strides, flat offsets and the
//! row-major correspondence between flat positions and multi-indices.
use vstd::prelude::*;
use vstd::set_lib::{lemma_int_range, lemma_len_subset, lemma_subset_equality, set_int_range};

verus! {

/// Number of elements of a shape: the product of its dimensions.
pub open spec fn shape_size(shape: Seq<usize>) -> nat
    decreases shape.len(),
{
    if shape.len() == 0 {
        1
    } else {
        shape_size(shape.drop_last()) * (shape.last() as nat)
    }
}

/// A dimension counted for capacity: a zero dimension counts as one.
pub open spec fn padded_dim(d: usize) -> nat {
    if d == 0 {
        1
    } else {
        d as nat
    }
}

/// Product of the dimensions, each zero dimension counted as one. A tensor
/// whose shape keeps this within `usize` has every partial product of its
/// dimensions within `usize`.
pub open spec fn padded_size(shape: Seq<usize>) -> nat
    decreases shape.len(),
{
    if shape.len() == 0 {
        1
    } else {
        padded_size(shape.drop_last()) * padded_dim(shape.last())
    }
}

/// Product of the dimensions from position `j` to the end.
pub open spec fn suffix_size(shape: Seq<usize>, j: int) -> nat {
    shape_size(shape.subrange(j, shape.len() as int))
}

/// Row-major (C order) strides: the stride of an axis is the product of all
/// later dimensions.
pub open spec fn row_major_strides(shape: Seq<usize>) -> Seq<usize> {
    Seq::new(shape.len(), |i: int| suffix_size(shape, i + 1) as usize)
}

/// Every product of trailing dimensions fits in `usize`.
pub open spec fn suffixes_fit(shape: Seq<usize>) -> bool {
    forall|j: int| 0 <= j <= shape.len() ==> #[trigger] suffix_size(shape, j) <= usize::MAX
}

/// The offset contributed by a multi-index: the sum of index times stride
/// over the positions of `idx`.
pub open spec fn dot(idx: Seq<usize>, strides: Seq<usize>) -> nat
    decreases idx.len(),
{
    if idx.len() == 0 {
        0
    } else {
        dot(idx.drop_last(), strides) + (idx.last() as nat) * (strides[idx.len() - 1] as nat)
    }
}

/// A multi-index addresses a position inside the shape.
pub open spec fn in_bounds(idx: Seq<usize>, shape: Seq<usize>) -> bool {
    &&& idx.len() == shape.len()
    &&& forall|i: int| 0 <= i < shape.len() ==> #[trigger] idx[i] < shape[i]
}

/// The largest index on each axis: one less than the dimension, or zero
/// for an empty axis.
pub open spec fn max_index(shape: Seq<usize>) -> Seq<usize> {
    Seq::new(shape.len(), |i: int| if shape[i] == 0 { 0usize } else { (shape[i] - 1) as usize })
}

/// Every dimension is positive.
pub open spec fn all_positive(shape: Seq<usize>) -> bool {
    forall|i: int| 0 <= i < shape.len() ==> #[trigger] shape[i] > 0
}

/// The multi-index of flat position `k` in row-major order; the last axis
/// varies fastest.
pub open spec fn unravel(k: nat, shape: Seq<usize>) -> Seq<usize>
    decreases shape.len(),
{
    if shape.len() == 0 {
        Seq::empty()
    } else {
        let d = shape.last() as nat;
        unravel(k / d, shape.drop_last()).push((k % d) as usize)
    }
}

// ---------------------------------------------------------------------------
// Sizes
// ---------------------------------------------------------------------------

pub proof fn lemma_shape_size_append(a: Seq<usize>, b: Seq<usize>)
    ensures
        shape_size(a + b) == shape_size(a) * shape_size(b),
        padded_size(a + b) == padded_size(a) * padded_size(b),
    decreases b.len(),
{
    if b.len() == 0 {
        assert(a + b =~= a);
        assert(shape_size(b) == 1);
        assert(padded_size(b) == 1);
    } else {
        assert((a + b).drop_last() =~= a + b.drop_last());
        assert((a + b).last() == b.last());
        lemma_shape_size_append(a, b.drop_last());
        assert(shape_size(a + b) == shape_size(a + b.drop_last()) * (b.last() as nat));
        assert(padded_size(a + b) == padded_size(a + b.drop_last()) * padded_dim(b.last()));
        let x = shape_size(a);
        let y = shape_size(b.drop_last());
        let d = b.last() as nat;
        assert(x * (y * d) == (x * y) * d) by (nonlinear_arith);
        let px = padded_size(a);
        let py = padded_size(b.drop_last());
        let pd = padded_dim(b.last());
        assert(px * (py * pd) == (px * py) * pd) by (nonlinear_arith);
        assert(shape_size(b) == y * d);
        assert(padded_size(b) == py * pd);
    }
}

pub proof fn lemma_shape_size_cons(s: Seq<usize>)
    requires
        s.len() > 0,
    ensures
        shape_size(s) == (s[0] as nat) * shape_size(s.drop_first()),
        padded_size(s) == padded_dim(s[0]) * padded_size(s.drop_first()),
{
    let a = s.take(1);
    assert(a + s.drop_first() =~= s);
    lemma_shape_size_append(a, s.drop_first());
    assert(a.drop_last() =~= Seq::<usize>::empty());
    assert(a.last() == s[0]);
    assert(shape_size(a.drop_last()) == 1);
    assert(padded_size(a.drop_last()) == 1);
    assert(shape_size(a) == shape_size(a.drop_last()) * (s[0] as nat));
    assert(padded_size(a) == padded_size(a.drop_last()) * padded_dim(s[0]));
    assert(shape_size(a) == s[0] as nat);
    assert(padded_size(a) == padded_dim(s[0]));
}

pub proof fn lemma_size_le_padded(s: Seq<usize>)
    ensures
        shape_size(s) <= padded_size(s),
        padded_size(s) >= 1,
    decreases s.len(),
{
    if s.len() > 0 {
        lemma_size_le_padded(s.drop_last());
        let a = shape_size(s.drop_last());
        let b = padded_size(s.drop_last());
        let d = s.last() as nat;
        let pd = padded_dim(s.last());
        assert(a <= b && d <= pd && b >= 1 && pd >= 1 ==> a * d <= b * pd && b * pd >= 1)
            by (nonlinear_arith);
    }
}

pub proof fn lemma_size_positive(s: Seq<usize>)
    ensures
        shape_size(s) > 0 <==> all_positive(s),
    decreases s.len(),
{
    if s.len() > 0 {
        lemma_size_positive(s.drop_last());
        let a = shape_size(s.drop_last());
        let d = s.last() as nat;
        assert(a * d > 0 <==> (a > 0 && d > 0)) by (nonlinear_arith)
            requires a >= 0, d >= 0;
        if all_positive(s) {
            assert(all_positive(s.drop_last()));
        }
        if all_positive(s.drop_last()) && d > 0 {
            assert forall|i: int| 0 <= i < s.len() implies #[trigger] s[i] > 0 by {
                if i < s.len() - 1 {
                    assert(s.drop_last()[i] == s[i]);
                }
            }
        }
    }
}

/// Sizes of positive shapes: the size is the padded size.
pub proof fn lemma_positive_size_is_padded(s: Seq<usize>)
    requires
        all_positive(s),
    ensures
        shape_size(s) == padded_size(s),
    decreases s.len(),
{
    if s.len() > 0 {
        assert(all_positive(s.drop_last()));
        lemma_positive_size_is_padded(s.drop_last());
    }
}

/// A subrange of a shape has a padded size no larger than the whole.
pub proof fn lemma_padded_subrange(s: Seq<usize>, i: int, j: int)
    requires
        0 <= i <= j <= s.len(),
    ensures
        shape_size(s.subrange(i, j)) <= padded_size(s),
        padded_size(s.subrange(i, j)) <= padded_size(s),
{
    let a = s.subrange(0, i);
    let b = s.subrange(i, j);
    let c = s.subrange(j, s.len() as int);
    assert(a + b + c =~= s);
    lemma_shape_size_append(a + b, c);
    lemma_shape_size_append(a, b);
    lemma_size_le_padded(a);
    lemma_size_le_padded(b);
    lemma_size_le_padded(c);
    let pa = padded_size(a);
    let pb = padded_size(b);
    let pc = padded_size(c);
    assert(pa >= 1 && pc >= 1 ==> pb <= pa * pb * pc) by (nonlinear_arith)
        requires pb >= 0;
}

/// Every product of trailing dimensions fits when the padded size does.
pub proof fn lemma_padded_fits_suffixes(s: Seq<usize>)
    requires
        padded_size(s) <= usize::MAX,
    ensures
        suffixes_fit(s),
        shape_size(s) <= usize::MAX,
{
    assert forall|j: int| 0 <= j <= s.len() implies #[trigger] suffix_size(s, j) <= usize::MAX by {
        lemma_padded_subrange(s, j, s.len() as int);
    }
    lemma_size_le_padded(s);
}

/// Shrinking dimensions does not grow the padded size.
pub proof fn lemma_padded_le(a: Seq<usize>, b: Seq<usize>)
    requires
        a.len() == b.len(),
        forall|i: int| 0 <= i < a.len() ==> a[i] <= b[i],
    ensures
        padded_size(a) <= padded_size(b),
    decreases a.len(),
{
    if a.len() > 0 {
        lemma_padded_le(a.drop_last(), b.drop_last());
        lemma_size_le_padded(a.drop_last());
        let x = padded_size(a.drop_last());
        let y = padded_size(b.drop_last());
        let p = padded_dim(a.last());
        let q = padded_dim(b.last());
        assert(p <= q);
        assert(x <= y && p <= q ==> x * p <= y * q) by (nonlinear_arith);
    }
}

/// Suffix sizes of a shape extended by one trailing dimension.
pub proof fn lemma_suffix_size_push(s: Seq<usize>, d: usize, j: int)
    requires
        0 <= j <= s.len(),
    ensures
        suffix_size(s.push(d), j) == suffix_size(s, j) * (d as nat),
{
    let t = s.push(d);
    assert(t.subrange(j, t.len() as int).drop_last() =~= s.subrange(j, s.len() as int));
    assert(t.subrange(j, t.len() as int).last() == d);
}

/// Suffix size at `j` is the dimension at `j` times the suffix size at `j + 1`.
pub proof fn lemma_suffix_size_step(s: Seq<usize>, j: int)
    requires
        0 <= j < s.len(),
    ensures
        suffix_size(s, j) == (s[j] as nat) * suffix_size(s, j + 1),
{
    let x = s.subrange(j, s.len() as int);
    lemma_shape_size_cons(x);
    assert(x.drop_first() =~= s.subrange(j + 1, s.len() as int));
}

pub proof fn lemma_suffix_size_end(s: Seq<usize>)
    ensures
        suffix_size(s, s.len() as int) == 1,
        suffix_size(s, 0) == shape_size(s),
{
    assert(s.subrange(s.len() as int, s.len() as int) =~= Seq::<usize>::empty());
    assert(s.subrange(0, s.len() as int) =~= s);
}

/// Position `i` of the row-major index of `k` is the base-`shape` digit of
/// `k` there: `k` divided by the product of the later dimensions, modulo
/// the dimension at `i`.
pub proof fn lemma_unravel_digits(k: nat, shape: Seq<usize>, i: int)
    requires
        all_positive(shape),
        0 <= i < shape.len(),
    ensures
        unravel(k, shape).len() == shape.len(),
        unravel(k, shape)[i] as nat == (k / suffix_size(shape, i + 1)) % (shape[i] as nat),
    decreases shape.len(),
{
    let s = shape.drop_last();
    let d = shape.last();
    let dn = d as nat;
    assert(shape =~= s.push(d));
    assert(dn > 0);
    lemma_unravel_in_bounds_len(k, shape);
    if i == shape.len() - 1 {
        lemma_suffix_size_end(shape);
        assert(k / 1 == k);
    } else {
        assert(all_positive(s)) by {
            assert forall|m: int| 0 <= m < s.len() implies #[trigger] s[m] > 0 by {
                assert(shape[m] > 0);
            }
        }
        lemma_unravel_digits(k / dn, s, i);
        lemma_suffix_size_push(s, d, i + 1);
        lemma_size_positive_suffix(s, i + 1);
        vstd::arithmetic::div_mod::lemma_div_denominator(
            k as int,
            dn as int,
            suffix_size(s, i + 1) as int,
        );
        assert(suffix_size(s, i + 1) * dn == dn * suffix_size(s, i + 1)) by (nonlinear_arith);
    }
}

/// The row-major index of `k` has one position per axis.
proof fn lemma_unravel_in_bounds_len(k: nat, shape: Seq<usize>)
    requires
        all_positive(shape),
    ensures
        unravel(k, shape).len() == shape.len(),
    decreases shape.len(),
{
    if shape.len() > 0 {
        let d = shape.last() as nat;
        assert(d > 0);
        let s = shape.drop_last();
        assert(all_positive(s)) by {
            assert forall|m: int| 0 <= m < s.len() implies #[trigger] s[m] > 0 by {
                assert(shape[m] > 0);
            }
        }
        lemma_unravel_in_bounds_len(k / d, s);
        assert(unravel(k, shape).len() == unravel(k / d, s).len() + 1);
    } else {
        assert(unravel(k, shape) == Seq::<usize>::empty());
    }
}

/// Suffix sizes of a shape with positive dimensions are positive.
proof fn lemma_size_positive_suffix(s: Seq<usize>, j: int)
    requires
        all_positive(s),
        0 <= j <= s.len(),
    ensures
        suffix_size(s, j) > 0,
{
    let x = s.subrange(j, s.len() as int);
    assert(all_positive(x)) by {
        assert forall|m: int| 0 <= m < x.len() implies #[trigger] x[m] > 0 by {
            assert(s[m + j] > 0);
        }
    }
    lemma_size_positive(x);
}

/// Row-major strides end in one, and each other stride is the next stride
/// times the next dimension.
pub proof fn lemma_row_major_strides_step(shape: Seq<usize>)
    requires
        padded_size(shape) <= usize::MAX,
        shape.len() >= 1,
    ensures
        row_major_strides(shape).len() == shape.len(),
        row_major_strides(shape)[shape.len() - 1] == 1,
        forall|i: int|
            0 <= i < shape.len() - 1 ==> #[trigger] row_major_strides(shape)[i] as nat
                == (row_major_strides(shape)[i + 1] as nat) * (shape[i + 1] as nat),
{
    lemma_padded_fits_suffixes(shape);
    lemma_suffix_size_end(shape);
    assert forall|i: int| 0 <= i < shape.len() - 1 implies #[trigger] row_major_strides(shape)[i]
        as nat == (row_major_strides(shape)[i + 1] as nat) * (shape[i + 1] as nat) by {
        lemma_suffix_size_step(shape, i + 1);
        assert(suffix_size(shape, i + 1) <= usize::MAX);
        assert(suffix_size(shape, i + 2) <= usize::MAX);
        assert((shape[i + 1] as nat) * suffix_size(shape, i + 2) == suffix_size(shape, i + 2)
            * (shape[i + 1] as nat)) by (nonlinear_arith);
    }
}

// ---------------------------------------------------------------------------
// Offsets
// ---------------------------------------------------------------------------

/// `dot` only reads the strides at the positions of the index.
pub proof fn lemma_dot_strides_agree(idx: Seq<usize>, s1: Seq<usize>, s2: Seq<usize>)
    requires
        idx.len() <= s1.len(),
        idx.len() <= s2.len(),
        forall|i: int| 0 <= i < idx.len() ==> s1[i] == s2[i],
    ensures
        dot(idx, s1) == dot(idx, s2),
    decreases idx.len(),
{
    if idx.len() > 0 {
        lemma_dot_strides_agree(idx.drop_last(), s1, s2);
    }
}

/// `dot` only reads the index at its own positions.
pub proof fn lemma_dot_prefix(idx: Seq<usize>, strides: Seq<usize>, i: int)
    requires
        0 <= i <= idx.len(),
    ensures
        dot(idx.take(i), strides) <= dot(idx, strides),
    decreases idx.len(),
{
    if i < idx.len() {
        assert(idx.drop_last().take(i) =~= idx.take(i));
        lemma_dot_prefix(idx.drop_last(), strides, i);
    } else {
        assert(idx.take(i) =~= idx);
    }
}

/// Extending the index by one position adds that position's term.
pub proof fn lemma_dot_take_step(idx: Seq<usize>, strides: Seq<usize>, i: int)
    requires
        0 <= i < idx.len(),
    ensures
        dot(idx.take(i + 1), strides) == dot(idx.take(i), strides) + (idx[i] as nat) * (
        strides[i] as nat),
{
    assert(idx.take(i + 1).drop_last() =~= idx.take(i));
}

/// A larger index (position by position) has a larger offset.
pub proof fn lemma_dot_monotone(a: Seq<usize>, b: Seq<usize>, strides: Seq<usize>)
    requires
        a.len() == b.len(),
        forall|i: int| 0 <= i < a.len() ==> a[i] <= b[i],
    ensures
        dot(a, strides) <= dot(b, strides),
    decreases a.len(),
{
    if a.len() > 0 {
        lemma_dot_monotone(a.drop_last(), b.drop_last(), strides);
        let x = a.last() as nat;
        let y = b.last() as nat;
        let s = strides[a.len() - 1] as nat;
        assert(x <= y ==> x * s <= y * s) by (nonlinear_arith);
    }
}

/// Every in-bounds index has an offset no larger than that of the last index.
pub proof fn lemma_dot_le_max(idx: Seq<usize>, shape: Seq<usize>, strides: Seq<usize>)
    requires
        in_bounds(idx, shape),
    ensures
        dot(idx, strides) <= dot(max_index(shape), strides),
{
    lemma_dot_monotone(idx, max_index(shape), strides);
}

/// Scaling all strides scales the offset.
pub proof fn lemma_dot_scale(idx: Seq<usize>, s: Seq<usize>, t: Seq<usize>, c: nat)
    requires
        idx.len() <= s.len(),
        idx.len() <= t.len(),
        forall|i: int| 0 <= i < idx.len() ==> (t[i] as nat) == (s[i] as nat) * c,
    ensures
        dot(idx, t) == dot(idx, s) * c,
    decreases idx.len(),
{
    if idx.len() > 0 {
        lemma_dot_scale(idx.drop_last(), s, t, c);
        let x = idx.last() as nat;
        let a = s[idx.len() - 1] as nat;
        let p = dot(idx.drop_last(), s);
        assert((t[idx.len() - 1] as nat) == a * c);
        assert((p + x * a) * c == p * c + x * (a * c)) by (nonlinear_arith);
        assert(dot(idx, t) == dot(idx.drop_last(), t) + x * (t[idx.len() - 1] as nat));
        assert(dot(idx, s) == p + x * a);
    } else {
        assert(0 * c == 0);
    }
}

/// Offsets of two indices with the same strides differ by the offset of
/// the difference when one index dominates the other.
pub proof fn lemma_dot_add(a: Seq<usize>, b: Seq<usize>, c: Seq<usize>, strides: Seq<usize>)
    requires
        a.len() == b.len(),
        a.len() == c.len(),
        forall|i: int| 0 <= i < a.len() ==> (c[i] as nat) == (a[i] as nat) + (b[i] as nat),
    ensures
        dot(c, strides) == dot(a, strides) + dot(b, strides),
    decreases a.len(),
{
    if a.len() > 0 {
        lemma_dot_add(a.drop_last(), b.drop_last(), c.drop_last(), strides);
        let x = a.last() as nat;
        let y = b.last() as nat;
        let s = strides[a.len() - 1] as nat;
        assert((x + y) * s == x * s + y * s) by (nonlinear_arith);
    }
}

/// Offsets with a position whose index is zero do not depend on its stride.
pub proof fn lemma_dot_zero_positions(idx: Seq<usize>, s1: Seq<usize>, s2: Seq<usize>)
    requires
        idx.len() <= s1.len(),
        idx.len() <= s2.len(),
        forall|i: int| 0 <= i < idx.len() && idx[i] != 0 ==> s1[i] == s2[i],
    ensures
        dot(idx, s1) == dot(idx, s2),
    decreases idx.len(),
{
    if idx.len() > 0 {
        lemma_dot_zero_positions(idx.drop_last(), s1, s2);
        let n = idx.len() - 1;
        if idx[n] == 0 {
            assert((idx[n] as nat) * (s1[n] as nat) == 0);
            assert((idx[n] as nat) * (s2[n] as nat) == 0);
        } else {
            assert(s1[n] == s2[n]);
        }
    }
}

// ---------------------------------------------------------------------------
// Row-major order
// ---------------------------------------------------------------------------

/// Row-major strides of a shape extended by one trailing dimension.
pub proof fn lemma_row_major_push(s: Seq<usize>, d: usize)
    requires
        shape_size(s.push(d)) <= usize::MAX,
        d > 0,
        all_positive(s),
    ensures
        forall|i: int|
            0 <= i < s.len() ==> (#[trigger] row_major_strides(s.push(d))[i] as nat) == (
            row_major_strides(s)[i] as nat) * (d as nat),
        row_major_strides(s.push(d))[s.len() as int] == 1,
{
    let t = s.push(d);
    lemma_size_positive(s);
    assert(s.push(d).drop_last() =~= s);
    assert forall|i: int| 0 <= i < s.len() implies (#[trigger] row_major_strides(t)[i] as nat) == (
    row_major_strides(s)[i] as nat) * (d as nat) by {
        lemma_suffix_size_push(s, d, i + 1);
        lemma_padded_subrange(s, i + 1, s.len() as int);
        lemma_positive_size_is_padded(s);
        let a = suffix_size(s, i + 1);
        assert(a * (d as nat) >= a) by (nonlinear_arith)
            requires d > 0;
        lemma_padded_subrange(t, i + 1, t.len() as int);
        lemma_positive_size_is_padded(t);
        assert(all_positive(t)) by {
            assert forall|m: int| 0 <= m < t.len() implies #[trigger] t[m] > 0 by {
                if m < s.len() {
                    assert(t[m] == s[m]);
                }
            }
        }
    }
    lemma_suffix_size_end(t);
}

/// Unravelling a flat position below the size gives an in-bounds index.
pub proof fn lemma_unravel_in_bounds(k: nat, shape: Seq<usize>)
    requires
        k < shape_size(shape),
    ensures
        in_bounds(unravel(k, shape), shape),
    decreases shape.len(),
{
    if shape.len() > 0 {
        let d = shape.last() as nat;
        let a = shape_size(shape.drop_last());
        assert(d > 0 && k / d < a) by (nonlinear_arith)
            requires k < a * d, a >= 0, d >= 0;
        lemma_unravel_in_bounds(k / d, shape.drop_last());
        let u = unravel(k, shape);
        assert forall|i: int| 0 <= i < shape.len() implies #[trigger] u[i] < shape[i] by {
            if i < shape.len() - 1 {
                assert(u[i] == unravel(k / d, shape.drop_last())[i]);
                assert(shape.drop_last()[i] == shape[i]);
            }
        }
    }
}

/// With row-major strides, the offset of the unravelled index of `k` is `k`.
pub proof fn lemma_ravel_unravel(k: nat, shape: Seq<usize>)
    requires
        k < shape_size(shape),
        shape_size(shape) <= usize::MAX,
    ensures
        dot(unravel(k, shape), row_major_strides(shape)) == k,
    decreases shape.len(),
{
    if shape.len() > 0 {
        let s = shape.drop_last();
        let d = shape.last();
        let dn = d as nat;
        let a = shape_size(s);
        assert(shape =~= s.push(d));
        assert(dn > 0 && k / dn < a && a * dn >= a) by (nonlinear_arith)
            requires k < a * dn, a >= 0, dn >= 0;
        lemma_size_positive(shape);
        assert(all_positive(s)) by {
            assert forall|i: int| 0 <= i < s.len() implies #[trigger] s[i] > 0 by {
                assert(shape[i] > 0);
            }
        }
        lemma_ravel_unravel(k / dn, s);
        lemma_row_major_push(s, d);
        let u = unravel(k / dn, s);
        let rs = row_major_strides(s);
        let rt = row_major_strides(shape);
        assert(unravel(k, shape) == u.push((k % dn) as usize));
        assert(u.push((k % dn) as usize).drop_last() =~= u);
        lemma_unravel_in_bounds(k / dn, s);
        lemma_dot_scale(u, rs, rt, dn);
        assert(dot(u, rt) == (k / dn) * dn);
        assert((k / dn) * dn + k % dn == k) by (nonlinear_arith)
            requires dn > 0;
    }
}

/// With row-major strides, an in-bounds index has an offset below the size.
pub proof fn lemma_row_major_dot_bound(idx: Seq<usize>, shape: Seq<usize>)
    requires
        in_bounds(idx, shape),
        shape_size(shape) <= usize::MAX,
    ensures
        dot(idx, row_major_strides(shape)) < shape_size(shape),
    decreases shape.len(),
{
    if shape.len() > 0 {
        let s = shape.drop_last();
        let d = shape.last();
        let dn = d as nat;
        let u = idx.drop_last();
        assert(shape =~= s.push(d));
        assert(in_bounds(u, s)) by {
            assert forall|i: int| 0 <= i < s.len() implies #[trigger] u[i] < s[i] by {
                assert(idx[i] < shape[i]);
            }
        }
        let a = shape_size(s);
        assert(idx[idx.len() - 1] < d);
        assert(dn > 0);
        assert(all_positive(s)) by {
            assert forall|i: int| 0 <= i < s.len() implies #[trigger] s[i] > 0 by {
                assert(idx[i] < shape[i]);
            }
        }
        assert(a * dn >= a) by (nonlinear_arith)
            requires dn > 0;
        lemma_row_major_dot_bound(u, s);
        lemma_row_major_push(s, d);
        lemma_dot_scale(u, row_major_strides(s), row_major_strides(shape), dn);
        let p = dot(u, row_major_strides(s));
        let x = idx.last() as nat;
        assert(p < a && x < dn ==> p * dn + x * 1 < a * dn) by (nonlinear_arith);
    }
}

/// With row-major strides, unravelling the offset of an in-bounds index gives
/// back the index.
pub proof fn lemma_unravel_ravel(idx: Seq<usize>, shape: Seq<usize>)
    requires
        in_bounds(idx, shape),
        shape_size(shape) <= usize::MAX,
    ensures
        unravel(dot(idx, row_major_strides(shape)), shape) == idx,
    decreases shape.len(),
{
    if shape.len() > 0 {
        let s = shape.drop_last();
        let d = shape.last();
        let dn = d as nat;
        let u = idx.drop_last();
        assert(shape =~= s.push(d));
        assert(in_bounds(u, s)) by {
            assert forall|i: int| 0 <= i < s.len() implies #[trigger] u[i] < s[i] by {
                assert(idx[i] < shape[i]);
            }
        }
        assert(idx[idx.len() - 1] < d);
        assert(all_positive(s)) by {
            assert forall|i: int| 0 <= i < s.len() implies #[trigger] s[i] > 0 by {
                assert(idx[i] < shape[i]);
            }
        }
        let a = shape_size(s);
        assert(a * dn >= a) by (nonlinear_arith)
            requires dn > 0;
        lemma_unravel_ravel(u, s);
        lemma_row_major_push(s, d);
        lemma_dot_scale(u, row_major_strides(s), row_major_strides(shape), dn);
        let p = dot(u, row_major_strides(s));
        let x = idx.last() as nat;
        let k = dot(idx, row_major_strides(shape));
        let rt = row_major_strides(shape);
        assert(rt[idx.len() - 1] == 1);
        assert(k == dot(u, rt) + x * (rt[idx.len() - 1] as nat));
        assert(dot(u, rt) == p * dn);
        let one = rt[idx.len() - 1] as nat;
        assert(x * one == x) by (nonlinear_arith)
            requires one == 1;
        assert(k == p * dn + x);
        vstd::arithmetic::div_mod::lemma_fundamental_div_mod_converse(k as int, dn as int, p as int, x as int);
        assert(unravel(k, shape) == unravel(k / dn, s).push((k % dn) as usize));
        assert(unravel(k, shape) =~= idx);
    }
}

/// The last index of a positive shape is in bounds.
pub proof fn lemma_max_index_in_bounds(shape: Seq<usize>)
    requires
        all_positive(shape),
    ensures
        in_bounds(max_index(shape), shape),
{
}

} // verus!

verus! {

// ---------------------------------------------------------------------------
// Reordering axes
// ---------------------------------------------------------------------------

/// Sum of a sequence of naturals.
pub open spec fn seq_sum(s: Seq<nat>) -> nat
    decreases s.len(),
{
    if s.len() == 0 {
        0
    } else {
        seq_sum(s.drop_last()) + s.last()
    }
}

/// Product of a sequence of naturals.
pub open spec fn seq_prod(s: Seq<nat>) -> nat
    decreases s.len(),
{
    if s.len() == 0 {
        1
    } else {
        seq_prod(s.drop_last()) * s.last()
    }
}

/// `axes` lists each position below its length exactly once.
pub open spec fn is_permutation(axes: Seq<usize>) -> bool {
    &&& forall|i: int| 0 <= i < axes.len() ==> #[trigger] axes[i] < axes.len()
    &&& axes.no_duplicates()
}

/// `s` read in the order given by `axes`.
pub open spec fn permuted<A>(s: Seq<A>, axes: Seq<usize>) -> Seq<A> {
    Seq::new(axes.len(), |i: int| s[axes[i] as int])
}

/// A permutation reaches every position below its length.
pub proof fn lemma_permutation_onto(axes: Seq<usize>, j: int)
    requires
        is_permutation(axes),
        0 <= j < axes.len(),
    ensures
        exists|i: int| 0 <= i < axes.len() && #[trigger] axes[i] == j,
{
    let n = axes.len() as int;
    let ints = Seq::new(axes.len(), |i: int| axes[i] as int);
    assert(ints.no_duplicates()) by {
        assert forall|a: int, b: int| 0 <= a < ints.len() && 0 <= b < ints.len() && a != b
            implies ints[a] != ints[b] by {
            assert(axes[a] != axes[b]);
        }
    }
    ints.unique_seq_to_set();
    lemma_int_range(0, n);
    let reached = ints.to_set();
    assert(reached.subset_of(set_int_range(0, n))) by {
        assert forall|x: int| reached.contains(x) implies set_int_range(0, n).contains(x) by {
            assert(ints.contains(x));
            let i = choose|i: int| 0 <= i < ints.len() && ints[i] == x;
            assert(axes[i] < axes.len());
        }
    }
    lemma_len_subset(reached, set_int_range(0, n));
    lemma_subset_equality(reached, set_int_range(0, n));
    assert(set_int_range(0, n).contains(j));
    assert(reached.contains(j));
    assert(ints.contains(j));
    let i = choose|i: int| 0 <= i < ints.len() && ints[i] == j;
    assert(axes[i] == j);
}

/// The axis order that exchanges axes `a` and `b` of `n` axes.
pub open spec fn swap_axes(n: nat, a: usize, b: usize) -> Seq<usize> {
    Seq::new(n, |i: int| if i == a { b } else if i == b { a } else { i as usize })
}

/// The terms summed by `dot`.
pub open spec fn dot_terms(idx: Seq<usize>, strides: Seq<usize>) -> Seq<nat> {
    Seq::new(idx.len(), |i: int| (idx[i] as nat) * (strides[i] as nat))
}

pub proof fn lemma_dot_is_sum(idx: Seq<usize>, strides: Seq<usize>)
    ensures
        dot(idx, strides) == seq_sum(dot_terms(idx, strides)),
    decreases idx.len(),
{
    if idx.len() > 0 {
        lemma_dot_is_sum(idx.drop_last(), strides);
        assert(dot_terms(idx.drop_last(), strides) =~= dot_terms(idx, strides).drop_last());
    }
}

pub proof fn lemma_sizes_are_products(shape: Seq<usize>)
    ensures
        shape_size(shape) == seq_prod(Seq::new(shape.len(), |i: int| shape[i] as nat)),
        padded_size(shape) == seq_prod(Seq::new(shape.len(), |i: int| padded_dim(shape[i]))),
    decreases shape.len(),
{
    if shape.len() > 0 {
        lemma_sizes_are_products(shape.drop_last());
        assert(Seq::new(shape.drop_last().len(), |i: int| shape.drop_last()[i] as nat) =~= Seq::new(
            shape.len(),
            |i: int| shape[i] as nat,
        ).drop_last());
        assert(Seq::new(shape.drop_last().len(), |i: int| padded_dim(shape.drop_last()[i]))
            =~= Seq::new(shape.len(), |i: int| padded_dim(shape[i])).drop_last());
    }
}

pub proof fn lemma_sum_remove(s: Seq<nat>, m: int)
    requires
        0 <= m < s.len(),
    ensures
        seq_sum(s) == seq_sum(s.remove(m)) + s[m],
        seq_prod(s) == seq_prod(s.remove(m)) * s[m],
    decreases s.len(),
{
    if m == s.len() - 1 {
        assert(s.remove(m) =~= s.drop_last());
    } else {
        lemma_sum_remove(s.drop_last(), m);
        assert(s.remove(m).drop_last() =~= s.drop_last().remove(m));
        assert(s.remove(m).last() == s.last());
        let a = seq_prod(s.drop_last().remove(m));
        let b = s[m];
        let c = s.last();
        assert((a * b) * c == (a * c) * b) by (nonlinear_arith);
    }
}

/// Reordering a sequence does not change its sum or product.
pub proof fn lemma_permuted_sum(s: Seq<nat>, axes: Seq<usize>)
    requires
        axes.len() == s.len(),
        is_permutation(axes),
    ensures
        seq_sum(permuted(s, axes)) == seq_sum(s),
        seq_prod(permuted(s, axes)) == seq_prod(s),
    decreases axes.len(),
{
    if axes.len() > 0 {
        let n = axes.len() as int;
        let m = axes.last() as int;
        let s2 = s.remove(m);
        let p2 = Seq::new(
            (n - 1) as nat,
            |i: int| if axes[i] > m { (axes[i] - 1) as usize } else { axes[i] },
        );
        assert forall|i: int| 0 <= i < n - 1 implies axes[i] != m by {
            assert(axes[n - 1] == m);
        }
        assert(is_permutation(p2)) by {
            assert forall|i: int| 0 <= i < p2.len() implies #[trigger] p2[i] < p2.len() by {
                assert(axes[i] < n);
                assert(axes[i] != m);
            }
            assert forall|i: int, j: int|
                0 <= i < p2.len() && 0 <= j < p2.len() && i != j implies p2[i] != p2[j] by {
                assert(axes[i] != axes[j]);
                assert(axes[i] != m && axes[j] != m);
            }
        }
        lemma_permuted_sum(s2, p2);
        assert(permuted(s, axes).drop_last() =~= permuted(s2, p2)) by {
            assert forall|i: int| 0 <= i < n - 1 implies #[trigger] permuted(s, axes)[i]
                == permuted(s2, p2)[i] by {
                assert(axes[i] != m);
            }
        }
        assert(permuted(s, axes).last() == s[m]);
        lemma_sum_remove(s, m);
    }
}

/// Reordering both an index and the strides by the same axis order keeps
/// the offset.
pub proof fn lemma_dot_permuted(idx: Seq<usize>, strides: Seq<usize>, axes: Seq<usize>)
    requires
        idx.len() == axes.len(),
        strides.len() == axes.len(),
        is_permutation(axes),
    ensures
        dot(permuted(idx, axes), permuted(strides, axes)) == dot(idx, strides),
{
    lemma_dot_is_sum(idx, strides);
    lemma_dot_is_sum(permuted(idx, axes), permuted(strides, axes));
    lemma_permuted_sum(dot_terms(idx, strides), axes);
    assert(dot_terms(permuted(idx, axes), permuted(strides, axes)) =~= permuted(
        dot_terms(idx, strides),
        axes,
    ));
}

/// Reordering the axes of a shape keeps its sizes.
pub proof fn lemma_sizes_permuted(shape: Seq<usize>, axes: Seq<usize>)
    requires
        shape.len() == axes.len(),
        is_permutation(axes),
    ensures
        shape_size(permuted(shape, axes)) == shape_size(shape),
        padded_size(permuted(shape, axes)) == padded_size(shape),
        max_index(permuted(shape, axes)) == permuted(max_index(shape), axes),
{
    let ps = permuted(shape, axes);
    lemma_sizes_are_products(shape);
    lemma_sizes_are_products(ps);
    let f = Seq::new(shape.len(), |i: int| shape[i] as nat);
    let g = Seq::new(shape.len(), |i: int| padded_dim(shape[i]));
    lemma_permuted_sum(f, axes);
    lemma_permuted_sum(g, axes);
    assert(Seq::new(ps.len(), |i: int| ps[i] as nat) =~= permuted(f, axes));
    assert(Seq::new(ps.len(), |i: int| padded_dim(ps[i])) =~= permuted(g, axes));
    assert(max_index(ps) =~= permuted(max_index(shape), axes));
}

/// Exchanging two axes is a reordering.
pub proof fn lemma_swap_is_permutation(n: nat, a: usize, b: usize)
    requires
        a < n,
        b < n,
        n <= usize::MAX,
    ensures
        is_permutation(swap_axes(n, a, b)),
{
    let p = swap_axes(n, a, b);
    assert forall|i: int, j: int| 0 <= i < n && 0 <= j < n && i != j implies p[i] != p[j] by {
        assert(i as usize == i && j as usize == j);
    }
}

/// Dropping an axis does not grow the padded size.
pub proof fn lemma_padded_remove(shape: Seq<usize>, a: int)
    requires
        0 <= a < shape.len(),
    ensures
        padded_size(shape.remove(a)) <= padded_size(shape),
{
    let r = shape.remove(a);
    lemma_sizes_are_products(shape);
    lemma_sizes_are_products(r);
    let g = Seq::new(shape.len(), |i: int| padded_dim(shape[i]));
    lemma_sum_remove(g, a);
    assert(Seq::new(r.len(), |i: int| padded_dim(r[i])) =~= g.remove(a));
    let p = seq_prod(g.remove(a));
    let d = g[a];
    assert(d >= 1 ==> p <= p * d) by (nonlinear_arith);
}

/// With row-major strides, the largest index on every axis has an offset
/// below the padded size.
#[verifier::spinoff_prover]
pub proof fn lemma_row_major_max_bound(shape: Seq<usize>)
    requires
        padded_size(shape) <= usize::MAX,
    ensures
        dot(max_index(shape), row_major_strides(shape)) < padded_size(shape),
    decreases shape.len(),
{
    if shape.len() > 0 {
        let s = shape.drop_last();
        let d = shape.last();
        let dn = d as nat;
        assert(shape =~= s.push(d));
        let pa = padded_size(s);
        let pd = padded_dim(d);
        lemma_size_le_padded(s);
        assert(pa * pd >= pa) by (nonlinear_arith)
            requires pd >= 1;
        lemma_row_major_max_bound(s);
        let rs = row_major_strides(s);
        let rt = row_major_strides(shape);
        assert forall|i: int| 0 <= i < s.len() implies (#[trigger] rt[i] as nat) == (rs[i] as nat)
            * dn by {
            lemma_suffix_size_push(s, d, i + 1);
            lemma_padded_subrange(s, i + 1, s.len() as int);
            lemma_padded_subrange(shape, i + 1, shape.len() as int);
        }
        lemma_suffix_size_end(shape);
        let mx = max_index(shape);
        let ms = max_index(s);
        assert(mx.drop_last() =~= ms);
        lemma_dot_scale(ms, rs, rt, dn);
        let p = dot(ms, rs);
        let x = mx.last() as nat;
        assert(dot(mx, rt) == dot(mx.drop_last(), rt) + x * (rt[shape.len() - 1] as nat));
        assert(rt[shape.len() - 1] == 1);
        assert(padded_size(shape) == pa * pd);
        lemma_size_le_padded(shape);
        assert(dot(mx.drop_last(), rt) == p * dn);
        let one = rt[shape.len() - 1] as nat;
        assert(x * one == x) by (nonlinear_arith)
            requires one == 1;
        assert(dot(mx, rt) == p * dn + x);
        if d == 0 {
            assert(x == 0);
            assert(p * dn == 0) by (nonlinear_arith)
                requires dn == 0;
            assert(pa * pd >= 1) by (nonlinear_arith)
                requires pa >= 1, pd >= 1;
        } else {
            assert(x + 1 == dn);
            assert(pd == dn);
            assert(p < pa && x + 1 == dn ==> p * dn + x < pa * dn) by (nonlinear_arith);
        }
    } else {
        assert(dot(max_index(shape), row_major_strides(shape)) == 0);
        assert(padded_size(shape) == 1);
    }
}

} // verus!

verus! {

/// The row-major index of position `i * size(rest) + kp` is `i` followed by
/// the row-major index of `kp` in the remaining axes.
pub proof fn lemma_unravel_cons(i: nat, kp: nat, s: Seq<usize>)
    requires
        s.len() >= 1,
        i < s[0],
        kp < shape_size(s.drop_first()),
    ensures
        unravel(i * shape_size(s.drop_first()) + kp, s) == seq![i as usize] + unravel(
            kp,
            s.drop_first(),
        ),
    decreases s.len(),
{
    let t = s.drop_first();
    if s.len() == 1 {
        assert(t =~= Seq::<usize>::empty());
        assert(shape_size(t) == 1);
        assert(kp == 0);
        let d = s.last() as nat;
        assert(s.drop_last() =~= Seq::<usize>::empty());
        assert(i * 1 + 0 == i);
        assert(i / d == 0 && i % d == i) by (nonlinear_arith)
            requires i < d;
        assert(unravel(i, s) == unravel(i / d, s.drop_last()).push((i % d) as usize));
        assert(unravel(kp, t) =~= Seq::<usize>::empty());
        assert(unravel(i, s) =~= seq![i as usize] + unravel(kp, t));
    } else {
        let d = s.last() as nat;
        let sd = s.drop_last();
        let td = t.drop_last();
        assert(sd.drop_first() =~= td);
        assert(t.last() == s.last());
        let sub1 = shape_size(td);
        assert(shape_size(t) == sub1 * d);
        assert(d > 0 && kp / d < sub1) by (nonlinear_arith)
            requires kp < sub1 * d, sub1 >= 0, d >= 0;
        lemma_unravel_cons(i, kp / d, sd);
        let k = i * (sub1 * d) + kp;
        let q = i * sub1 + kp / d;
        let r = kp % d;
        assert(k == q * d + r && 0 <= r < d) by (nonlinear_arith)
            requires k == i * (sub1 * d) + kp, q == i * sub1 + kp / d, r == kp % d, d > 0;
        vstd::arithmetic::div_mod::lemma_fundamental_div_mod_converse(k as int, d as int, q as int, r as int);
        assert(unravel(k, s) == unravel(q, sd).push(r as usize));
        assert(unravel(kp, t) == unravel(kp / d, td).push((kp % d) as usize));
        assert(unravel(k, s) =~= seq![i as usize] + unravel(kp, t));
    }
}

/// The offset of an index split into its first position and the rest.
pub proof fn lemma_dot_cons(i: usize, u: Seq<usize>, strides: Seq<usize>)
    requires
        strides.len() == u.len() + 1,
    ensures
        dot(seq![i] + u, strides) == (i as nat) * (strides[0] as nat) + dot(u, strides.drop_first()),
    decreases u.len(),
{
    let v = seq![i] + u;
    if u.len() == 0 {
        assert(v.drop_last() =~= Seq::<usize>::empty());
        assert(v.last() == i);
        assert(dot(Seq::<usize>::empty(), strides) == 0);
        assert(dot(u, strides.drop_first()) == 0);
        assert(dot(v, strides) == dot(v.drop_last(), strides) + (i as nat) * (strides[0] as nat));
    } else {
        let w = seq![i] + u.drop_last();
        assert(v.drop_last() =~= w);
        lemma_dot_cons(i, u.drop_last(), strides.drop_last());
        lemma_dot_strides_agree(w, strides.drop_last(), strides);
        lemma_dot_strides_agree(u.drop_last(), strides.drop_last().drop_first(), strides.drop_first());
        assert(v.last() == u.last());
        let n = u.len() as int;
        assert(dot(v, strides) == dot(w, strides) + (u.last() as nat) * (strides[n] as nat));
        assert(strides.drop_first()[n - 1] == strides[n]);
        assert(dot(u, strides.drop_first()) == dot(u.drop_last(), strides.drop_first()) + (
        u.last() as nat) * (strides[n] as nat));
    }
}


/// The size of a one-axis shape is its dimension.
pub proof fn lemma_single_size(d: usize)
    ensures
        shape_size(seq![d]) == d,
{
    let s = seq![d];
    assert(s.len() == 1);
    assert(s.drop_last() =~= Seq::<usize>::empty());
    assert(shape_size(s.drop_last()) == 1);
    assert(s.last() == d);
    assert(shape_size(s) == shape_size(s.drop_last()) * (s.last() as nat));
    assert(shape_size(s) == 1 * (d as nat));
}

} // verus!
