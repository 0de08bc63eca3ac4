//! Text rendering of a tensor: nested brackets, one level per axis.
use vstd::prelude::*;

use super::Tensor;
use crate::layout::{
    dot,
    in_bounds,
    lemma_dot_cons,
    lemma_dot_le_max,
    lemma_padded_subrange,
    lemma_shape_size_cons,
    lemma_single_size,
    lemma_size_positive,
    lemma_unravel_cons,
    lemma_unravel_in_bounds,
    max_index,
    padded_size,
    shape_size,
    unravel,
};

verus! {

/// `s` repeated `k` times.
pub open spec fn repeat_text(s: Seq<char>, k: nat) -> Seq<char>
    decreases k,
{
    if k == 0 {
        Seq::empty()
    } else {
        repeat_text(s, (k - 1) as nat) + s
    }
}

/// The element texts separated by `", "`.
pub open spec fn join_elements(es: Seq<Seq<char>>) -> Seq<char>
    decreases es.len(),
{
    if es.len() == 0 {
        Seq::empty()
    } else if es.len() == 1 {
        es[0]
    } else {
        join_elements(es.drop_last()) + ", "@ + es.last()
    }
}

/// What separates two consecutive blocks of a level with `ndim` remaining
/// axes in a tensor of `max_dim` axes: a comma, one newline per remaining
/// axis below this one (at least one) and enough spaces to align under the
/// opening bracket.
pub open spec fn block_separator(ndim: nat, max_dim: nat) -> Seq<char> {
    ","@ + repeat_text("\n"@, if ndim >= 2 { (ndim - 1) as nat } else { 1 }) + repeat_text(
        " "@,
        (6 + max_dim - ndim + 1) as nat,
    )
}

/// The text of a tensor whose element texts in row-major order are `es`,
/// of shape `shape`, as a part of a tensor with `max_dim` axes: the word
/// `Tensor` at the outermost level, then the elements nested in brackets.
pub open spec fn text_layout(es: Seq<Seq<char>>, shape: Seq<usize>, max_dim: nat) -> Seq<char>
    decreases shape.len(), 1nat, 0nat,
{
    let prefix = if max_dim == shape.len() {
        "Tensor"@
    } else {
        Seq::empty()
    };
    if shape.len() <= 1 {
        prefix + "["@ + join_elements(es) + "]"@
    } else {
        prefix + "["@ + blocks_text(es, shape, max_dim, shape[0] as nat) + "]"@
    }
}

/// The first `count` blocks of the outermost axis, with separators after all
/// but the axis's last block.
pub open spec fn blocks_text(es: Seq<Seq<char>>, shape: Seq<usize>, max_dim: nat, count: nat) -> Seq<
    char,
>
    decreases shape.len(), 0nat, count,
{
    if count == 0 || shape.len() <= 1 {
        Seq::empty()
    } else {
        let sub = shape_size(shape.drop_first());
        let c = (count - 1) as nat;
        let block = text_layout(
            es.subrange((c * sub) as int, (count * sub) as int),
            shape.drop_first(),
            max_dim,
        );
        let sep = if count < shape[0] {
            block_separator(shape.len(), max_dim)
        } else {
            Seq::empty()
        };
        blocks_text(es, shape, max_dim, c) + block + sep
    }
}

/// The texts of the elements of the layout `(shape, strides, offset)` over
/// `data`, in row-major order.
pub open spec fn element_texts<T, F: Fn(T) -> String>(
    fmt: F,
    data: Seq<T>,
    shape: Seq<usize>,
    strides: Seq<usize>,
    offset: nat,
    es: Seq<String>,
) -> bool {
    &&& es.len() == shape_size(shape)
    &&& forall|k: int|
        0 <= k < es.len() ==> #[trigger] fmt.ensures(
            (data[(offset + dot(unravel(k as nat, shape), strides)) as int],),
            es[k],
        )
}

/// The text views of strings.
pub open spec fn texts(es: Seq<String>) -> Seq<Seq<char>> {
    es.map_values(|s: String| s@)
}

/// `es` holds, in order, a rendering by `fmt` of each of `xs`.
pub open spec fn renders<T, F: Fn(T) -> String>(fmt: F, xs: Seq<T>, es: Seq<String>) -> bool {
    &&& es.len() == xs.len()
    &&& forall|k: int| 0 <= k < xs.len() ==> #[trigger] fmt.ensures((xs[k],), es[k])
}

/// `k` copies of a one-character text are `k` of that character.
pub proof fn lemma_repeat_char(c: char, k: nat)
    ensures
        repeat_text(seq![c], k) == Seq::new(k, |_i: int| c),
    decreases k,
{
    if k > 0 {
        lemma_repeat_char(c, (k - 1) as nat);
    }
    assert(repeat_text(seq![c], k) =~= Seq::new(k, |_i: int| c));
}

/// Two consecutive blocks of a level with `ndim` remaining axes, in a
/// tensor of `max_dim` axes, are separated by a comma, `ndim - 1` newlines
/// (one when `ndim` is one) and `max_dim + 7 - ndim` spaces.
pub proof fn lemma_block_separator(ndim: nat, max_dim: nat)
    requires
        ndim <= max_dim,
    ensures
        block_separator(ndim, max_dim) == seq![','] + Seq::new(
            if ndim >= 2 {
                (ndim - 1) as nat
            } else {
                1
            },
            |_i: int| '\n',
        ) + Seq::new((max_dim + 7 - ndim) as nat, |_i: int| ' '),
{
    reveal_strlit(",");
    reveal_strlit("\n");
    reveal_strlit(" ");
    assert(","@ =~= seq![',']);
    assert("\n"@ =~= seq!['\n']);
    assert(" "@ =~= seq![' ']);
    lemma_repeat_char('\n', if ndim >= 2 {
        (ndim - 1) as nat
    } else {
        1
    });
    lemma_repeat_char(' ', (6 + max_dim - ndim + 1) as nat);
}

/// Element texts are joined with `", "` between consecutive texts and
/// nothing before the first or after the last.
pub proof fn lemma_join_elements(es: Seq<Seq<char>>, x: Seq<char>)
    ensures
        join_elements(Seq::empty()) == Seq::<char>::empty(),
        join_elements(seq![x]) == x,
        es.len() >= 1 ==> join_elements(es.push(x)) == join_elements(es) + seq![',', ' '] + x,
{
    reveal_strlit(", ");
    assert(", "@ =~= seq![',', ' ']);
    assert(seq![x][0] == x);
    if es.len() >= 1 {
        assert(es.push(x).drop_last() =~= es);
    }
}

/// The text of a tensor (or of a block of one) is the word `Tensor` at the
/// outermost level only, then an opening bracket, then the joined element
/// texts for one axis or the blocks of the first axis for more, then a
/// closing bracket.
pub proof fn lemma_text_layout(es: Seq<Seq<char>>, shape: Seq<usize>, max_dim: nat)
    ensures
        text_layout(es, shape, max_dim) == (if max_dim == shape.len() {
            seq!['T', 'e', 'n', 's', 'o', 'r']
        } else {
            Seq::empty()
        }) + seq!['['] + (if shape.len() <= 1 {
            join_elements(es)
        } else {
            blocks_text(es, shape, max_dim, shape[0] as nat)
        }) + seq![']'],
{
    reveal_strlit("Tensor");
    reveal_strlit("[");
    reveal_strlit("]");
    assert("Tensor"@ =~= seq!['T', 'e', 'n', 's', 'o', 'r']);
    assert("["@ =~= seq!['[']);
    assert("]"@ =~= seq![']']);
}

/// The blocks of the first axis (two or more axes) come in order, each the
/// text of the elements of that block, and every block but the last is
/// followed by the separator of its level; no blocks give no text.
pub proof fn lemma_blocks_step(es: Seq<Seq<char>>, shape: Seq<usize>, max_dim: nat, c: nat)
    requires
        shape.len() >= 2,
        c < shape[0],
    ensures
        blocks_text(es, shape, max_dim, 0) == Seq::<char>::empty(),
        blocks_text(es, shape, max_dim, c + 1) == blocks_text(es, shape, max_dim, c) + text_layout(
            es.subrange(
                (c * shape_size(shape.drop_first())) as int,
                ((c + 1) * shape_size(shape.drop_first())) as int,
            ),
            shape.drop_first(),
            max_dim,
        ) + (if c + 1 < shape[0] {
            block_separator(shape.len(), max_dim)
        } else {
            Seq::empty()
        }),
{
}

/// Appends `s` `k` times.
fn append_repeat(out: &mut String, s: &str, k: usize)
    ensures
        final(out)@ == old(out)@ + repeat_text(s@, k as nat),
{
    let mut i: usize = 0;
    while i < k
        invariant
            0 <= i <= k,
            out@ == old(out)@ + repeat_text(s@, i as nat),
        decreases k - i,
    {
        out.append(s);
        i = i + 1;
        assert(out@ =~= old(out)@ + repeat_text(s@, i as nat));
    }
}

impl<T: Copy> Tensor<T> {
    /// The text of the tensor: `Tensor` followed by its elements, rendered by
    /// `fmt`, in brackets nested one level per axis; elements of the last axis
    /// are separated by `", "`, blocks of outer axes by a comma, newlines and
    /// indentation.
    pub fn to_string_with<F: Fn(T) -> String>(&self, fmt: F) -> (r: String)
        requires
            forall|x: T| #[trigger] fmt.requires((x,)),
            self.shape_view().len() + 7 <= usize::MAX,
        ensures
            exists|es: Seq<String>|
                #[trigger] renders(fmt, self.elems(), es) && r@ == text_layout(
                    texts(es),
                    self.shape_view(),
                    self.shape_view().len(),
                ),
    {
        proof {
            use_type_invariant(self);
        }
        let r = Self::format(
            self.data.as_slice(),
            self.shape.as_slice(),
            self.strides.as_slice(),
            self.offset,
            self.strides.len(),
            &fmt,
        );
        proof {
            let es = choose|es: Seq<String>|
                #[trigger] element_texts(
                    fmt,
                    self.data@,
                    self.shape@,
                    self.strides@,
                    self.offset as nat,
                    es,
                ) && r@ == text_layout(texts(es), self.shape@, self.strides@.len());
            assert(renders(fmt, self.elems(), es));
        }
        r
    }

    /// Renders the layout `(shape, strides, offset)` over `data` as a part of a
    /// tensor with `max_dim` axes, each element rendered by `fmt`.
    fn format<F: Fn(T) -> String>(
        data: &[T],
        shape: &[usize],
        strides: &[usize],
        offset: usize,
        max_dim: usize,
        fmt: &F,
    ) -> (r: String)
        requires
            shape@.len() >= 1,
            strides@.len() == shape@.len(),
            max_dim >= strides@.len(),
            offset + dot(max_index(shape@), strides@) <= usize::MAX,
            shape_size(shape@) > 0 ==> offset + dot(max_index(shape@), strides@) < data@.len(),
            padded_size(shape@) <= usize::MAX,
            max_dim + 7 <= usize::MAX,
            forall|x: T| #[trigger] fmt.requires((x,)),
        ensures
            exists|es: Seq<String>|
                #[trigger] element_texts(*fmt, data@, shape@, strides@, offset as nat, es) && r@
                    == text_layout(texts(es), shape@, max_dim as nat),
        decreases shape@.len(),
    {
        let mut formatted: String = String::new();
        let ghost prefix = if max_dim as nat == shape@.len() {
            "Tensor"@
        } else {
            Seq::<char>::empty()
        };
        if max_dim == strides.len() {
            formatted.append("Tensor");
        }
        assert(formatted@ =~= prefix);
        if shape.len() == 1 {
            formatted.append("[");
            let d = shape[0];
            let ghost mut es: Seq<String> = Seq::empty();
            let mut i: usize = 0;
            while i < d
                invariant
                    0 <= i <= d,
                    shape@.len() == 1,
                    strides@.len() == 1,
                    d == shape@[0],
                    offset + dot(max_index(shape@), strides@) <= usize::MAX,
                    shape_size(shape@) > 0 ==> offset + dot(max_index(shape@), strides@)
                        < data@.len(),
                    forall|x: T| #[trigger] fmt.requires((x,)),
                    es.len() == i,
                    forall|k: int|
                        0 <= k < i ==> #[trigger] fmt.ensures(
                            (data@[offset + dot(unravel(k as nat, shape@), strides@)],),
                            es[k],
                        ),
                    formatted@ == prefix + "["@ + join_elements(texts(es)),
                decreases d - i,
            {
                proof {
                    lemma_single_axis(i as nat, shape@, strides@);
                    lemma_size_positive(shape@);
                    assert(in_bounds(seq![i], shape@));
                    lemma_dot_le_max(seq![i], shape@, strides@);
                    assert((strides@[0] as nat) * (i as nat) == (i as nat) * (strides@[0] as nat))
                        by (nonlinear_arith);
                }
                let idx = offset + strides[0] * i;
                if i > 0 {
                    formatted.append(", ");
                }
                let s = fmt(data[idx]);
                let ghost prev = es;
                formatted.append(s.as_str());
                proof {
                    es = es.push(s);
                    assert(texts(es).drop_last() =~= texts(prev));
                    if i == 0 {
                        assert(texts(es) =~= seq![s@]);
                        assert(join_elements(texts(prev)) =~= Seq::<char>::empty());
                    }
                    assert(formatted@ =~= prefix + "["@ + join_elements(texts(es)));
                }
                i = i + 1;
            }
            formatted.append("]");
            proof {
                lemma_single_size(d);
                assert(shape@ =~= seq![d]);
                assert(element_texts(*fmt, data@, shape@, strides@, offset as nat, es));
                assert(formatted@ =~= text_layout(texts(es), shape@, max_dim as nat));
            }
            formatted
        } else {
            formatted.append("[");
            let n = shape.len();
            let d = shape[0];
            let sub_shape = vstd::slice::slice_subrange(shape, 1, n);
            let sub_strides = vstd::slice::slice_subrange(strides, 1, n);
            let ghost sub = shape_size(shape@.drop_first());
            proof {
                assert(sub_shape@ =~= shape@.drop_first());
                assert(sub_strides@ =~= strides@.drop_first());
                lemma_shape_size_cons(shape@);
                lemma_padded_subrange(shape@, 1, n as int);
                assert(shape@.subrange(1, n as int) =~= shape@.drop_first());
            }
            let ghost mut es: Seq<String> = Seq::empty();
            let mut i: usize = 0;
            while i < d
                invariant
                    0 <= i <= d,
                    n == shape@.len(),
                    n >= 2,
                    strides@.len() == n,
                    max_dim >= n,
                    max_dim + 7 <= usize::MAX,
                    d == shape@[0],
                    sub_shape@ == shape@.drop_first(),
                    sub_strides@ == strides@.drop_first(),
                    sub == shape_size(shape@.drop_first()),
                    shape_size(shape@) == (d as nat) * sub,
                    padded_size(shape@.drop_first()) <= usize::MAX,
                    offset + dot(max_index(shape@), strides@) <= usize::MAX,
                    shape_size(shape@) > 0 ==> offset + dot(max_index(shape@), strides@)
                        < data@.len(),
                    forall|x: T| #[trigger] fmt.requires((x,)),
                    es.len() == (i as nat) * sub,
                    forall|k: int|
                        0 <= k < es.len() ==> #[trigger] fmt.ensures(
                            (data@[offset + dot(unravel(k as nat, shape@), strides@)],),
                            es[k],
                        ),
                    formatted@ == prefix + "["@ + blocks_text(texts(es), shape@, max_dim as nat, i as nat),
                decreases d - i,
            {
                proof {
                    Self::lemma_block_layout(shape@, strides@, offset as nat, i as nat, data@.len());
                }
                let sub_offset = offset + strides[0] * i;
                let block = Self::format(data, sub_shape, sub_strides, sub_offset, max_dim, fmt);
                let ghost bes = choose|bes: Seq<String>|
                    #[trigger] element_texts(*fmt, data@, sub_shape@, sub_strides@, sub_offset as nat, bes)
                        && block@ == text_layout(texts(bes), sub_shape@, max_dim as nat);
                formatted.append(block.as_str());
                if i < d - 1 {
                    formatted.append(",");
                    let newlines: usize = if n - 1 >= 1 { n - 1 } else { 1 };
                    append_repeat(&mut formatted, "\n", newlines);
                    append_repeat(&mut formatted, " ", 6 + max_dim - n + 1);
                }
                proof {
                    let prev = es;
                    es = es + bes;
                    Self::lemma_block_elements(
                        *fmt,
                        data@,
                        shape@,
                        strides@,
                        offset as nat,
                        i as nat,
                        prev,
                        bes,
                    );
                    assert forall|k: int| 0 <= k < es.len() implies #[trigger] fmt.ensures(
                        (data@[offset + dot(unravel(k as nat, shape@), strides@)],),
                        es[k],
                    ) by {
                        assert(fmt.ensures(
                            (data@[((offset as nat) + dot(unravel(k as nat, shape@), strides@)) as int],),
                            es[k],
                        ));
                    }
                    assert(texts(es).subrange((i * sub) as int, ((i + 1) * sub) as int) =~= texts(bes))
                        by {
                        lemma_block_len(i as nat, sub);
                    }
                    assert(blocks_text(texts(es), shape@, max_dim as nat, i as nat) == blocks_text(
                        texts(prev),
                        shape@,
                        max_dim as nat,
                        i as nat,
                    )) by {
                        Self::lemma_blocks_text_prefix(texts(prev), texts(es), shape@, max_dim as nat, i as nat);
                    }
                    assert(formatted@ =~= prefix + "["@ + blocks_text(
                        texts(es),
                        shape@,
                        max_dim as nat,
                        (i + 1) as nat,
                    ));
                }
                i = i + 1;
            }
            formatted.append("]");
            proof {
                assert(es.len() == shape_size(shape@));
                assert(element_texts(*fmt, data@, shape@, strides@, offset as nat, es));
                assert(formatted@ =~= text_layout(texts(es), shape@, max_dim as nat));
            }
            formatted
        }
    }
}

/// On a single axis, position `i` is the index `[i]`.
proof fn lemma_single_axis(i: nat, shape: Seq<usize>, strides: Seq<usize>)
    requires
        shape.len() == 1,
        strides.len() == 1,
        i < shape[0],
    ensures
        unravel(i, shape) == seq![i as usize],
        dot(seq![i as usize], strides) == i * (strides[0] as nat),
{
    let d = shape[0] as nat;
    assert(shape.drop_last() =~= Seq::<usize>::empty());
    assert(i / d == 0 && i % d == i) by (nonlinear_arith)
        requires i < d;
    assert(unravel(i, shape) == unravel(i / d, shape.drop_last()).push((i % d) as usize));
    assert(unravel(i, shape) =~= seq![i as usize]);
    assert(seq![i as usize].drop_last() =~= Seq::<usize>::empty());
    assert(dot(Seq::<usize>::empty(), strides) == 0);
}

proof fn lemma_block_len(i: nat, sub: nat)
    ensures
        (i + 1) * sub == i * sub + sub,
        i * sub <= (i + 1) * sub,
{
    assert((i + 1) * sub == i * sub + sub) by (nonlinear_arith);
}

impl<T: Copy> Tensor<T> {
    /// The block at position `i` of the outermost axis is a layout that fits
    /// where the whole does.
    proof fn lemma_block_layout(shape: Seq<usize>, strides: Seq<usize>, offset: nat, i: nat, dlen: nat)
        requires
            shape.len() >= 2,
            strides.len() == shape.len(),
            i < shape[0],
        ensures
            offset + (strides[0] as nat) * i + dot(max_index(shape.drop_first()), strides.drop_first())
                <= offset + dot(max_index(shape), strides),
            (strides[0] as nat) * i == i * (strides[0] as nat),
            shape_size(shape.drop_first()) > 0 ==> shape_size(shape) > 0,
    {
        let mx = max_index(shape);
        assert(mx =~= seq![mx[0]] + max_index(shape.drop_first()));
        lemma_dot_cons(mx[0], max_index(shape.drop_first()), strides);
        let s0 = strides[0] as nat;
        assert(i <= mx[0]);
        assert(s0 * i <= (mx[0] as nat) * s0 && s0 * i == i * s0) by (nonlinear_arith)
            requires i <= mx[0];
        lemma_shape_size_cons(shape);
        let a = shape[0] as nat;
        let b = shape_size(shape.drop_first());
        assert(a > 0 && b > 0 ==> a * b > 0) by (nonlinear_arith);
    }

    /// The element texts of block `i` extend those of the blocks before it.
    proof fn lemma_block_elements<F: Fn(T) -> String>(
        fmt: F,
        data: Seq<T>,
        shape: Seq<usize>,
        strides: Seq<usize>,
        offset: nat,
        i: nat,
        prev: Seq<String>,
        bes: Seq<String>,
    )
        requires
            shape.len() >= 2,
            strides.len() == shape.len(),
            i < shape[0],
            prev.len() == i * shape_size(shape.drop_first()),
            forall|k: int|
                0 <= k < prev.len() ==> #[trigger] fmt.ensures(
                    (data[(offset + dot(unravel(k as nat, shape), strides)) as int],),
                    prev[k],
                ),
            element_texts(
                fmt,
                data,
                shape.drop_first(),
                strides.drop_first(),
                offset + (strides[0] as nat) * i,
                bes,
            ),
        ensures
            (prev + bes).len() == (i + 1) * shape_size(shape.drop_first()),
            forall|k: int|
                0 <= k < (prev + bes).len() ==> #[trigger] fmt.ensures(
                    (data[(offset + dot(unravel(k as nat, shape), strides)) as int],),
                    (prev + bes)[k],
                ),
    {
        let sub = shape_size(shape.drop_first());
        let es = prev + bes;
        lemma_block_len(i, sub);
        assert forall|k: int|
            0 <= k < es.len() implies #[trigger] fmt.ensures(
            (data[(offset + dot(unravel(k as nat, shape), strides)) as int],),
            es[k],
        ) by {
            if k >= prev.len() {
                let kp = (k - prev.len()) as nat;
                assert(es[k] == bes[kp as int]);
                lemma_unravel_cons(i, kp, shape);
                lemma_unravel_in_bounds(kp, shape.drop_first());
                lemma_dot_cons(i as usize, unravel(kp, shape.drop_first()), strides);
                assert(k as nat == i * sub + kp);
                assert((i as usize) as nat == i);
                let s0 = strides[0] as nat;
                assert(i * s0 == s0 * i) by (nonlinear_arith);
                let idx_big = offset + dot(unravel(k as nat, shape), strides);
                let idx_sub = (offset + s0 * i) + dot(unravel(kp, shape.drop_first()), strides.drop_first());
                assert(idx_big == idx_sub);
                assert(fmt.ensures((data[idx_sub as int],), bes[kp as int]));
            } else {
                assert(es[k] == prev[k]);
            }
        }
    }

    /// The first `count` blocks depend only on the element texts they hold.
    proof fn lemma_blocks_text_prefix(
        a: Seq<Seq<char>>,
        b: Seq<Seq<char>>,
        shape: Seq<usize>,
        max_dim: nat,
        count: nat,
    )
        requires
            shape.len() >= 2,
            a.len() == count * shape_size(shape.drop_first()),
            b.len() >= a.len(),
            forall|k: int| 0 <= k < a.len() ==> a[k] == b[k],
        ensures
            blocks_text(a, shape, max_dim, count) == blocks_text(b, shape, max_dim, count),
        decreases count,
    {
        if count > 0 {
            let sub = shape_size(shape.drop_first());
            let c = (count - 1) as nat;
            lemma_block_len(c, sub);
            Self::lemma_blocks_text_prefix(a.subrange(0, (c * sub) as int), b, shape, max_dim, c);
            Self::lemma_blocks_text_prefix(a.subrange(0, (c * sub) as int), a, shape, max_dim, c);
            assert(a.subrange((c * sub) as int, (count * sub) as int) =~= b.subrange(
                (c * sub) as int,
                (count * sub) as int,
            ));
        }
    }
}

} // verus!
