//! Views that reorder or regroup axes.
use vstd::prelude::*;

use super::super::util::shape_len;
use super::super::Tensor;
use crate::layout::{
    dot,
    is_permutation,
    lemma_dot_permuted,
    lemma_permutation_onto,
    lemma_padded_fits_suffixes,
    lemma_sizes_permuted,
    lemma_swap_is_permutation,
    max_index,
    padded_size,
    permuted,
    row_major_strides,
    shape_size,
    swap_axes,
};

verus! {

impl<T: Copy> Tensor<T> {
    /// Exchanges axes `a` and `b`. The result shares storage; its element at
    /// `idx` is this tensor's element at `idx` with positions `a` and `b`
    /// exchanged.
    pub fn transpose(&self, a: usize, b: usize) -> (r: Result<Tensor<T>, String>)
        ensures
            a >= self.shape_view().len() ==> (r matches Err(e) && e@ == "Axis a out of bounds"@),
            a < self.shape_view().len() && b >= self.shape_view().len() ==> (r matches Err(e)
                && e@ == "Axis b out of bounds"@),
            a < self.shape_view().len() && b < self.shape_view().len() ==> (r matches Ok(t) && {
                let p = swap_axes(self.shape_view().len(), a, b);
                &&& t.data_view() == self.data_view()
                &&& t.shape_view() == permuted(self.shape_view(), p)
                &&& t.strides_view() == permuted(self.strides_view(), p)
                &&& t.offset_view() == self.offset_view()
                &&& forall|k: Seq<usize>|
                    #![trigger self.at(k)]
                    k.len() == self.shape_view().len() ==> t.at(permuted(k, p)) == self.at(k)
            }),
    {
        proof {
            use_type_invariant(self);
        }
        let n = self.ndim();
        if a >= n {
            return Err("Axis a out of bounds".to_string());
        }
        if b >= n {
            return Err("Axis b out of bounds".to_string());
        }
        let ghost p = swap_axes(n as nat, a, b);
        proof {
            lemma_swap_is_permutation(n as nat, a, b);
        }
        let mut shape: Vec<usize> = Vec::new();
        let mut strides: Vec<usize> = Vec::new();
        let mut i: usize = 0;
        while i < n
            invariant
                0 <= i <= n,
                n == self.shape@.len(),
                n == self.strides@.len(),
                a < n,
                b < n,
                p == swap_axes(n as nat, a, b),
                shape@ == permuted(self.shape@, p).take(i as int),
                strides@ == permuted(self.strides@, p).take(i as int),
            decreases n - i,
        {
            let j = if i == a {
                b
            } else if i == b {
                a
            } else {
                i
            };
            shape.push(self.shape[j]);
            strides.push(self.strides[j]);
            i = i + 1;
            proof {
                assert(shape@ =~= permuted(self.shape@, p).take(i as int));
                assert(strides@ =~= permuted(self.strides@, p).take(i as int));
            }
        }
        proof {
            assert(shape@ =~= permuted(self.shape@, p));
            assert(strides@ =~= permuted(self.strides@, p));
            self.lemma_permuted_layout(p);
        }
        let t = Tensor { data: self.data.clone(), shape, strides, offset: self.offset };
        proof {
            assert forall|k: Seq<usize>|
                #![trigger self.at(k)]
                k.len() == self.shape_view().len() implies t.at(permuted(k, p)) == self.at(k) by {
                lemma_dot_permuted(k, self.strides@, p);
            }
        }
        Ok(t)
    }

    /// Reorders the axes: axis `i` of the result is axis `axes[i]` of this
    /// tensor. The result shares storage.
    pub fn permute(&self, axes: &[usize]) -> (r: Result<Tensor<T>, String>)
        ensures
            axes@.len() != self.shape_view().len() ==> (r matches Err(e) && e@
                == "Axes length must match tensor dimensions"@),
            axes@.len() == self.shape_view().len() && (exists|i: int|
                0 <= i < axes@.len() && #[trigger] axes@[i] >= self.shape_view().len()) ==> (r matches Err(
                e,
            ) && e@ == "Axis out of bounds"@),
            axes@.len() == self.shape_view().len() && (forall|i: int|
                0 <= i < axes@.len() ==> #[trigger] axes@[i] < self.shape_view().len())
                && !axes@.no_duplicates() ==> (r matches Err(e) && e@ == "Axes must be unique"@),
            is_permutation(axes@) && axes@.len() == self.shape_view().len() ==> (r matches Ok(t) && {
                &&& t.data_view() == self.data_view()
                &&& t.shape_view() == permuted(self.shape_view(), axes@)
                &&& t.strides_view() == permuted(self.strides_view(), axes@)
                &&& t.offset_view() == self.offset_view()
                &&& forall|k: Seq<usize>|
                    #![trigger self.at(k)]
                    k.len() == self.shape_view().len() ==> t.at(permuted(k, axes@)) == self.at(k)
            }),
    {
        proof {
            use_type_invariant(self);
        }
        let n = self.ndim();
        if axes.len() != n {
            return Err("Axes length must match tensor dimensions".to_string());
        }
        let mut i: usize = 0;
        while i < n
            invariant
                0 <= i <= n,
                n == axes@.len(),
                n == self.shape_view().len(),
                forall|m: int| 0 <= m < i ==> #[trigger] axes@[m] < n,
            decreases n - i,
        {
            if axes[i] >= n {
                return Err("Axis out of bounds".to_string());
            }
            i = i + 1;
        }
        let mut seen: Vec<bool> = Vec::new();
        let mut i: usize = 0;
        while i < n
            invariant
                0 <= i <= n,
                seen@.len() == i,
                forall|m: int| 0 <= m < i ==> !#[trigger] seen@[m],
            decreases n - i,
        {
            seen.push(false);
            i = i + 1;
        }
        let mut i: usize = 0;
        while i < n
            invariant
                0 <= i <= n,
                n == axes@.len(),
                n == self.shape_view().len(),
                seen@.len() == n,
                forall|m: int| 0 <= m < n ==> #[trigger] axes@[m] < n,
                forall|v: int| 0 <= v < n ==> (#[trigger] seen@[v] <==> exists|m: int|
                    0 <= m < i && axes@[m] == v),
                forall|m1: int, m2: int|
                    0 <= m1 < i && 0 <= m2 < i && m1 != m2 ==> axes@[m1] != axes@[m2],
            decreases n - i,
        {
            let x = axes[i];
            if seen[x] {
                proof {
                    let m = choose|m: int| 0 <= m < i && axes@[m] == x;
                    assert(axes@[m] == axes@[i as int]);
                    assert(!axes@.no_duplicates());
                }
                return Err("Axes must be unique".to_string());
            }
            let ghost prev = seen@;
            seen.set(x, true);
            i = i + 1;
            proof {
                assert forall|v: int| 0 <= v < n implies (#[trigger] seen@[v] <==> exists|m: int|
                    0 <= m < i && axes@[m] == v) by {
                    if v == x {
                        assert(axes@[i - 1] == v);
                    } else {
                        assert(seen@[v] == prev[v]);
                        if exists|m: int| 0 <= m < i && axes@[m] == v {
                            let m = choose|m: int| 0 <= m < i && axes@[m] == v;
                            assert(m != i - 1);
                        }
                    }
                }
            }
        }
        assert(is_permutation(axes@));
        let ghost p = axes@;
        let mut shape: Vec<usize> = Vec::new();
        let mut strides: Vec<usize> = Vec::new();
        let mut i: usize = 0;
        while i < n
            invariant
                0 <= i <= n,
                n == self.shape@.len(),
                n == self.strides@.len(),
                p == axes@,
                is_permutation(p),
                n == p.len(),
                shape@ == permuted(self.shape@, p).take(i as int),
                strides@ == permuted(self.strides@, p).take(i as int),
            decreases n - i,
        {
            let j = axes[i];
            shape.push(self.shape[j]);
            strides.push(self.strides[j]);
            i = i + 1;
            proof {
                assert(shape@ =~= permuted(self.shape@, p).take(i as int));
                assert(strides@ =~= permuted(self.strides@, p).take(i as int));
            }
        }
        proof {
            assert(shape@ =~= permuted(self.shape@, p));
            assert(strides@ =~= permuted(self.strides@, p));
            self.lemma_permuted_layout(p);
        }
        let t = Tensor { data: self.data.clone(), shape, strides, offset: self.offset };
        proof {
            assert forall|k: Seq<usize>|
                #![trigger self.at(k)]
                k.len() == self.shape_view().len() implies t.at(permuted(k, p)) == self.at(k) by {
                lemma_dot_permuted(k, self.strides@, p);
            }
        }
        Ok(t)
    }

    /// The same elements under a new shape with as many elements. A tensor
    /// that `is_contiguous` accepts is reinterpreted in place: the result
    /// shares its storage, read in row-major order. Any other tensor is first
    /// copied out in row-major order.
    pub fn reshape(&self, new_shape: &[usize]) -> (r: Result<Tensor<T>, String>)
        requires
            padded_size(new_shape@) <= usize::MAX,
            new_shape@.len() >= 1 || self.size() != 1,
        ensures
            shape_size(new_shape@) != self.size() ==> (r matches Err(e) && e@
                == "New shape must have the same number of elements"@),
            shape_size(new_shape@) == self.size() ==> (r matches Ok(t) && {
                &&& t.shape_view() == new_shape@
                &&& self.contiguous_spec() ==> {
                    &&& t.data_view() == self.data_view()
                    &&& t.strides_view() == row_major_strides(new_shape@)
                    &&& t.offset_view() == self.offset_view()
                    &&& t.elems() == self.data_view()
                }
                &&& !self.contiguous_spec() ==> {
                    &&& t.is_row_major()
                    &&& t.data_view() == self.elems()
                    &&& t.elems() == self.elems()
                }
                &&& (self.contiguous_spec() ==> self.elems() == self.data_view()) ==> t.elems()
                    == self.elems()
            }),
    {
        proof {
            use_type_invariant(self);
            lemma_padded_fits_suffixes(new_shape@);
        }
        if shape_len(new_shape) != self.len() {
            return Err("New shape must have the same number of elements".to_string());
        }
        if self.is_contiguous() {
            let shape = vstd::slice::slice_to_vec(new_shape);
            let strides = Self::compute_strides(new_shape);
            proof {
                Self::lemma_row_major_layout(new_shape@);
            }
            let t = Tensor { data: self.data.clone(), shape, strides, offset: self.offset };
            proof {
                t.lemma_row_major_elems();
            }
            Ok(t)
        } else {
            let data: Vec<T> = self.iter().collect();
            Ok(Self::new(data, vstd::slice::slice_to_vec(new_shape)))
        }
    }

    /// Reading the layout through an axis order keeps it well formed.
    proof fn lemma_permuted_layout(&self, p: Seq<usize>)
        requires
            self.wf(),
            p.len() == self.shape@.len(),
            is_permutation(p),
        ensures
            padded_size(permuted(self.shape@, p)) == padded_size(self.shape@),
            shape_size(permuted(self.shape@, p)) == shape_size(self.shape@),
            dot(max_index(permuted(self.shape@, p)), permuted(self.strides@, p)) == dot(
                max_index(self.shape@),
                self.strides@,
            ),
    {
        lemma_sizes_permuted(self.shape@, p);
        lemma_dot_permuted(max_index(self.shape@), self.strides@, p);
    }
}

/// Reading `s` in the order `axes` gives, at each position `i`, the entry of
/// `s` at `axes[i]`.
pub proof fn lemma_permuted_reads<A>(s: Seq<A>, axes: Seq<usize>)
    ensures
        permuted(s, axes).len() == axes.len(),
        forall|i: int| 0 <= i < axes.len() ==> #[trigger] permuted(s, axes)[i] == s[axes[i] as int],
{
}

/// The order a transpose by `a` and `b` reads its source in exchanges `a`
/// and `b` and keeps every other axis in place; so the transpose's shape
/// (and likewise strides) has the source's dimension `b` at `a`, `a` at `b`,
/// and the source's dimension everywhere else.
pub proof fn lemma_transpose_exchanges<A>(s: Seq<A>, a: usize, b: usize)
    requires
        a < s.len(),
        b < s.len(),
        s.len() <= usize::MAX,
    ensures
        swap_axes(s.len(), a, b).len() == s.len(),
        swap_axes(s.len(), a, b)[a as int] == b,
        swap_axes(s.len(), a, b)[b as int] == a,
        forall|i: int|
            0 <= i < s.len() && i != a && i != b ==> #[trigger] swap_axes(s.len(), a, b)[i] == i,
        permuted(s, swap_axes(s.len(), a, b)).len() == s.len(),
        permuted(s, swap_axes(s.len(), a, b))[a as int] == s[b as int],
        permuted(s, swap_axes(s.len(), a, b))[b as int] == s[a as int],
        forall|i: int|
            0 <= i < s.len() && i != a && i != b ==> #[trigger] permuted(
                s,
                swap_axes(s.len(), a, b),
            )[i] == s[i],
{
    let p = swap_axes(s.len(), a, b);
    assert forall|i: int| 0 <= i < s.len() && i != a && i != b implies #[trigger] p[i] == i by {
        assert(i as usize == i);
    }
    assert forall|i: int| 0 <= i < s.len() && i != a && i != b implies #[trigger] permuted(
        s,
        p,
    )[i] == s[i] by {
        assert(p[i] == i);
    }
}

/// Exchanging the same two axes twice gives back the original order.
pub proof fn lemma_swap_twice<A>(s: Seq<A>, a: usize, b: usize)
    requires
        a < s.len(),
        b < s.len(),
        s.len() <= usize::MAX,
    ensures
        permuted(permuted(s, swap_axes(s.len(), a, b)), swap_axes(s.len(), a, b)) == s,
{
    let p = swap_axes(s.len(), a, b);
    assert forall|i: int| 0 <= i < s.len() implies #[trigger] permuted(permuted(s, p), p)[i] == s[i] by {
        assert(i as usize == i);
    }
    assert(permuted(permuted(s, p), p) =~= s);
}

/// Transposing twice by the same pair of axes gives back the original view:
/// if `t1` is the transpose of `t` by axes `a` and `b`, and `t2` that of `t1`,
/// then `t2` reads the same storage through the same layout as `t`.
pub proof fn lemma_transpose_twice<T>(t: Tensor<T>, t1: Tensor<T>, t2: Tensor<T>, a: usize, b: usize)
    requires
        a < t.shape_view().len(),
        b < t.shape_view().len(),
        t1.data_view() == t.data_view(),
        t1.shape_view() == permuted(t.shape_view(), swap_axes(t.shape_view().len(), a, b)),
        t1.strides_view() == permuted(t.strides_view(), swap_axes(t.shape_view().len(), a, b)),
        t1.offset_view() == t.offset_view(),
        t2.data_view() == t1.data_view(),
        t2.shape_view() == permuted(t1.shape_view(), swap_axes(t1.shape_view().len(), a, b)),
        t2.strides_view() == permuted(t1.strides_view(), swap_axes(t1.shape_view().len(), a, b)),
        t2.offset_view() == t1.offset_view(),
        t.wf(),
    ensures
        t2.same_view(&t),
        t2.elems() == t.elems(),
{
    lemma_swap_twice(t.shape_view(), a, b);
    assert(t.strides_view().len() == t.shape_view().len());
    lemma_swap_twice(t.strides_view(), a, b);
    assert(t2.elems() =~= t.elems());
}

/// Permuting by `axes` and then by its inverse `inv` (`inv[axes[i]] == i`
/// for every `i`) gives back the original view: if `t1` is the permute of
/// `t` by `axes` and `t2` that of `t1` by `inv`, then `t2` reads the same
/// storage through the same layout as `t`.
pub proof fn lemma_permute_inverse<T>(
    t: Tensor<T>,
    t1: Tensor<T>,
    t2: Tensor<T>,
    axes: Seq<usize>,
    inv: Seq<usize>,
)
    requires
        axes.len() == t.shape_view().len(),
        is_permutation(axes),
        inv.len() == axes.len(),
        forall|i: int| 0 <= i < axes.len() ==> #[trigger] inv[axes[i] as int] == i,
        t1.data_view() == t.data_view(),
        t1.shape_view() == permuted(t.shape_view(), axes),
        t1.strides_view() == permuted(t.strides_view(), axes),
        t1.offset_view() == t.offset_view(),
        t2.data_view() == t1.data_view(),
        t2.shape_view() == permuted(t1.shape_view(), inv),
        t2.strides_view() == permuted(t1.strides_view(), inv),
        t2.offset_view() == t1.offset_view(),
        t.wf(),
    ensures
        t2.same_view(&t),
        t2.elems() == t.elems(),
{
    let n = axes.len();
    assert forall|j: int| 0 <= j < n implies #[trigger] axes[inv[j] as int] == j by {
        lemma_permutation_onto(axes, j);
        let i = choose|i: int| 0 <= i < axes.len() && #[trigger] axes[i] == j;
        assert(inv[axes[i] as int] == i);
    }
    assert forall|j: int| 0 <= j < n implies #[trigger] inv[j] < n by {
        lemma_permutation_onto(axes, j);
        let i = choose|i: int| 0 <= i < axes.len() && #[trigger] axes[i] == j;
        assert(inv[axes[i] as int] == i);
    }
    assert(t2.shape_view() =~= t.shape_view());
    assert(t.strides_view().len() == n);
    assert(t2.strides_view() =~= t.strides_view());
    assert(t2.elems() =~= t.elems());
}

} // verus!
