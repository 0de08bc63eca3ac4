//! The byte format of a saved tensor.
//!
//! A saved tensor is the eight magic bytes `yn` followed by six zero bytes,
//! the number of axes as four little-endian bytes, each dimension as eight
//! little-endian bytes, and then the elements in row-major order, four bytes
//! each.
use vstd::arithmetic::div_mod::{
    lemma_div_denominator,
    lemma_fundamental_div_mod_converse,
    lemma_mod_breakdown,
    lemma_small_mod,
};
use vstd::arithmetic::power::pow;
use vstd::prelude::*;

use super::util::{padded_len, shape_len};
use super::Tensor;
use crate::layout::{padded_size, shape_size};

verus! {

/// Why a byte string is not a saved tensor.
#[derive(Debug, Clone, Copy, PartialEq, Eq, Structural)]
pub enum LoadError {
    /// The bytes end before the header or the elements it announces.
    UnexpectedEof,
    /// The bytes do not start with the magic bytes.
    InvalidMagic,
}

/// `256` raised to the power `n`.
pub open spec fn pow256(n: nat) -> nat
    decreases n,
{
    if n == 0 {
        1
    } else {
        256 * pow256((n - 1) as nat)
    }
}

/// The number whose little-endian bytes are `bytes`.
pub open spec fn le_value(bytes: Seq<u8>) -> nat
    decreases bytes.len(),
{
    if bytes.len() == 0 {
        0
    } else {
        bytes[0] as nat + 256 * le_value(bytes.drop_first())
    }
}

/// The `n` lowest bytes of `v`, least significant first.
pub open spec fn le_bytes(v: nat, n: nat) -> Seq<u8>
    decreases n,
{
    if n == 0 {
        Seq::empty()
    } else {
        seq![(v % 256) as u8] + le_bytes(v / 256, (n - 1) as nat)
    }
}

/// Appends the `n` lowest bytes of `v`, least significant first.
fn push_le(out: &mut Vec<u8>, v: u64, n: usize)
    ensures
        final(out)@ == old(out)@ + le_bytes(v as nat, n as nat),
    decreases n,
{
    if n == 0 {
        assert(old(out)@ + le_bytes(v as nat, 0) =~= old(out)@);
    } else {
        out.push((v % 256) as u8);
        push_le(out, v / 256, n - 1);
        assert(final(out)@ =~= old(out)@ + le_bytes(v as nat, n as nat));
    }
}

/// The value of the `n` little-endian bytes of `bytes` starting at `start`.
fn read_le(bytes: &[u8], start: usize, n: usize) -> (r: u64)
    requires
        n <= 8,
        start + n <= bytes@.len(),
    ensures
        r as nat == le_value(bytes@.subrange(start as int, start + n)),
        (r as nat) < pow256(n as nat),
    decreases n,
{
    if n == 0 {
        0
    } else {
        assert(bytes@.len() == bytes.len());
        let rest = read_le(bytes, start + 1, n - 1);
        proof {
            assert(bytes@.subrange(start as int, start + n).drop_first() =~= bytes@.subrange(
                start + 1,
                start + n,
            ));
            assert(pow256(7) == 72057594037927936) by {
                reveal_with_fuel(pow256, 8);
            }
            lemma_pow256_monotone((n - 1) as nat, 7);
        }
        (bytes[start] as u64) + 256 * rest
    }
}

/// `pow256` grows with its exponent.
proof fn lemma_pow256_monotone(a: nat, b: nat)
    requires
        a <= b,
    ensures
        pow256(a) <= pow256(b),
        pow256(a) >= 1,
    decreases b,
{
    if b > a {
        lemma_pow256_monotone(a, (b - 1) as nat);
    } else if a > 0 {
        lemma_pow256_monotone((a - 1) as nat, (a - 1) as nat);
    }
}

/// The little-endian bytes of `v` read back give `v` modulo `256^n`.
pub proof fn lemma_le_roundtrip(v: nat, n: nat)
    ensures
        le_bytes(v, n).len() == n,
        le_value(le_bytes(v, n)) == v % pow256(n),
    decreases n,
{
    if n > 0 {
        lemma_le_roundtrip(v / 256, (n - 1) as nat);
        lemma_pow256_monotone((n - 1) as nat, (n - 1) as nat);
        assert(le_bytes(v, n).drop_first() =~= le_bytes(v / 256, (n - 1) as nat));
        lemma_mod_breakdown(v as int, 256, pow256((n - 1) as nat) as int);
    }
}

/// The eight bytes every saved tensor starts with: `yn` and six zeros.
pub open spec fn magic_bytes() -> Seq<u8> {
    seq![121u8, 110u8, 0u8, 0u8, 0u8, 0u8, 0u8, 0u8]
}

/// Pieces of `width` bytes each, laid end to end.
pub open spec fn join_pieces(pieces: Seq<Seq<u8>>, width: nat) -> Seq<u8> {
    Seq::new(pieces.len() * width, |j: int| pieces[j / width as int][j % width as int])
}

/// The eight-byte pieces that store the dimensions of `shape`.
pub open spec fn dim_pieces(shape: Seq<usize>) -> Seq<Seq<u8>> {
    shape.map_values(|d: usize| le_bytes(d as nat, 8))
}

/// The saved form of a tensor of shape `shape` whose elements, in row-major
/// order, encode to the four-byte `chunks`.
pub open spec fn encoding(shape: Seq<usize>, chunks: Seq<[u8; 4]>) -> Seq<u8> {
    magic_bytes() + le_bytes(shape.len(), 4) + join_pieces(dim_pieces(shape), 8) + join_pieces(
        chunks.map_values(|c: [u8; 4]| c@),
        4,
    )
}

/// Appending one more piece of the common width extends the joined bytes by
/// that piece.
proof fn lemma_join_push(pieces: Seq<Seq<u8>>, x: Seq<u8>, width: nat)
    requires
        width > 0,
        x.len() == width,
    ensures
        join_pieces(pieces.push(x), width) =~= join_pieces(pieces, width) + x,
{
    let n = pieces.len();
    let a = join_pieces(pieces.push(x), width);
    let b = join_pieces(pieces, width) + x;
    assert((n + 1) * width == n * width + width) by (nonlinear_arith);
    assert forall|j: int| 0 <= j < a.len() implies a[j] == b[j] by {
        if j < n * width {
            assert(0 <= j / (width as int) < n && 0 <= j % (width as int) < width)
                by (nonlinear_arith)
                requires
                    0 <= j < n * width,
                    width > 0,
            ;
        } else {
            let t = j - n * width;
            lemma_fundamental_div_mod_converse(j, width as int, n as int, t);
        }
    }
}

/// The piece at position `i` sits at `i * width` in the joined bytes.
proof fn lemma_join_piece(pieces: Seq<Seq<u8>>, width: nat, i: int)
    requires
        width > 0,
        0 <= i < pieces.len(),
        pieces[i].len() == width,
    ensures
        i * width + width <= pieces.len() * width,
        join_pieces(pieces, width).subrange(i * width, i * width + width) =~= pieces[i],
{
    assert(i * width + width <= pieces.len() * width) by (nonlinear_arith)
        requires
            0 <= i < pieces.len(),
            width > 0,
    ;
    assert forall|j: int| 0 <= j < width implies #[trigger] join_pieces(pieces, width).subrange(
        i * width,
        i * width + width,
    )[j] == pieces[i][j] by {
        lemma_fundamental_div_mod_converse(i * width + j, width as int, i, j);
    }
}

/// The number of axes recorded in the header of `bytes`.
pub open spec fn stored_ndim(bytes: Seq<u8>) -> nat {
    le_value(bytes.subrange(8, 12))
}

/// Where the elements begin: after the magic bytes, the axis count and the
/// dimensions.
pub open spec fn data_start(bytes: Seq<u8>) -> nat {
    12 + 8 * stored_ndim(bytes)
}

/// The dimension of axis `i` recorded in the header of `bytes`, taken to
/// `usize`.
pub open spec fn stored_dim(bytes: Seq<u8>, i: int) -> usize {
    le_value(bytes.subrange(12 + 8 * i, 20 + 8 * i)) as usize
}

/// The shape recorded in the header of `bytes`.
pub open spec fn stored_shape(bytes: Seq<u8>) -> Seq<usize> {
    Seq::new(stored_ndim(bytes), |i: int| stored_dim(bytes, i))
}

/// The four bytes of the element at row-major position `k`.
pub open spec fn stored_chunk(bytes: Seq<u8>, k: int) -> [u8; 4] {
    let p = data_start(bytes) + 4 * k;
    [bytes[p], bytes[p + 1], bytes[p + 2], bytes[p + 3]]
}

/// `bytes` start with the magic bytes and hold the whole header.
pub open spec fn header_complete(bytes: Seq<u8>) -> bool {
    &&& bytes.len() >= 12
    &&& bytes.subrange(0, 8) == magic_bytes()
    &&& bytes.len() >= data_start(bytes)
}

/// `bytes` hold the whole header and every element it announces.
pub open spec fn data_complete(bytes: Seq<u8>) -> bool {
    &&& header_complete(bytes)
    &&& bytes.len() >= data_start(bytes) + 4 * shape_size(stored_shape(bytes))
}

/// The error that reading `bytes` ends in, if any.
pub open spec fn load_error(bytes: Seq<u8>) -> Option<LoadError> {
    if bytes.len() >= 8 && bytes.subrange(0, 8) != magic_bytes() {
        Some(LoadError::InvalidMagic)
    } else if !data_complete(bytes) {
        Some(LoadError::UnexpectedEof)
    } else {
        None
    }
}

/// The headers that describe no tensor: a shape whose dimensions (zeros
/// counted as one) multiply beyond `usize`, or, once its element is present,
/// a shape with no axes.
pub open spec fn load_refused(bytes: Seq<u8>) -> bool {
    &&& header_complete(bytes)
    &&& padded_size(stored_shape(bytes)) > usize::MAX || (stored_ndim(bytes) == 0
        && data_complete(bytes))
}

/// What reading `bytes` with the element decoder `dec` gives: the error of
/// `load_error`, or a row-major tensor of the stored shape whose element at
/// each position is what `dec` makes of that position's four bytes.
pub open spec fn loaded_from<T, G: Fn([u8; 4]) -> T>(
    bytes: Seq<u8>,
    dec: G,
    r: Result<Tensor<T>, LoadError>,
) -> bool {
    match load_error(bytes) {
        Some(e) => r == Err::<Tensor<T>, LoadError>(e),
        None => match r {
            Ok(t) => {
                &&& t.shape_view() == stored_shape(bytes)
                &&& t.is_row_major()
                &&& t.elems() == t.data_view()
                &&& forall|k: int|
                    0 <= k < t.size() ==> dec.ensures(
                        (stored_chunk(bytes, k),),
                        #[trigger] t.elems()[k],
                    )
            },
            Err(_) => false,
        },
    }
}

/// Whether the eight bytes at the front are the magic bytes.
fn has_magic(bytes: &[u8]) -> (r: bool)
    requires
        bytes@.len() >= 8,
    ensures
        r == (bytes@.subrange(0, 8) == magic_bytes()),
{
    let r = bytes[0] == 121u8 && bytes[1] == 110u8 && bytes[2] == 0u8 && bytes[3] == 0u8
        && bytes[4] == 0u8 && bytes[5] == 0u8 && bytes[6] == 0u8 && bytes[7] == 0u8;
    proof {
        let sub = bytes@.subrange(0, 8);
        let m = magic_bytes();
        assert(sub[0] == bytes@[0] && sub[1] == bytes@[1] && sub[2] == bytes@[2] && sub[3]
            == bytes@[3] && sub[4] == bytes@[4] && sub[5] == bytes@[5] && sub[6] == bytes@[6]
            && sub[7] == bytes@[7]);
        assert(m[0] == 121 && m[1] == 110 && m[2] == 0 && m[3] == 0 && m[4] == 0 && m[5] == 0
            && m[6] == 0 && m[7] == 0);
        if r {
            assert(sub =~= m);
        }
    }
    r
}

/// Reads the header: `Ok` with the stored shape when `bytes` start with the
/// magic bytes and hold the whole header.
fn read_shape(bytes: &[u8]) -> (r: Result<Vec<usize>, LoadError>)
    ensures
        header_complete(bytes@) <==> r is Ok,
        r matches Ok(shape) ==> shape@ == stored_shape(bytes@),
        r matches Err(e) ==> {
            &&& (bytes@.len() >= 8 && bytes@.subrange(0, 8) != magic_bytes()) ==> e
                == LoadError::InvalidMagic
            &&& !(bytes@.len() >= 8 && bytes@.subrange(0, 8) != magic_bytes()) ==> e
                == LoadError::UnexpectedEof
        },
{
    let len = bytes.len();
    if len < 8 {
        return Err(LoadError::UnexpectedEof);
    }
    if !has_magic(bytes) {
        return Err(LoadError::InvalidMagic);
    }
    if len < 12 {
        return Err(LoadError::UnexpectedEof);
    }
    let ndim64 = read_le(bytes, 8, 4);
    if (((len - 12) / 8) as u64) < ndim64 {
        return Err(LoadError::UnexpectedEof);
    }
    let ndim = ndim64 as usize;
    let mut shape: Vec<usize> = Vec::new();
    let mut i: usize = 0;
    while i < ndim
        invariant
            0 <= i <= ndim,
            len == bytes@.len(),
            ndim == stored_ndim(bytes@),
            12 + 8 * ndim <= len,
            shape@ == stored_shape(bytes@).take(i as int),
        decreases ndim - i,
    {
        let d = read_le(bytes, 12 + 8 * i, 8);
        shape.push(d as usize);
        i = i + 1;
        assert(shape@ =~= stored_shape(bytes@).take(i as int));
    }
    assert(shape@ =~= stored_shape(bytes@));
    Ok(shape)
}

/// Appends the four bytes of `c` in order.
fn push_chunk(out: &mut Vec<u8>, c: [u8; 4])
    ensures
        final(out)@ == old(out)@ + c@,
{
    out.push(c[0]);
    out.push(c[1]);
    out.push(c[2]);
    out.push(c[3]);
    assert(final(out)@ =~= old(out)@ + c@);
}

impl<T: Copy> Tensor<T> {
    /// The saved form of the tensor: the header, then each element, in
    /// row-major order, as the four bytes that `enc` gives for it.
    pub fn to_bytes<F: Fn(T) -> [u8; 4]>(&self, enc: F) -> (r: Vec<u8>)
        requires
            forall|x: T| enc.requires((x,)),
        ensures
            exists|chunks: Seq<[u8; 4]>|
                {
                    &&& chunks.len() == self.size()
                    &&& forall|k: int|
                        0 <= k < chunks.len() ==> enc.ensures(
                            (self.elems()[k],),
                            #[trigger] chunks[k],
                        )
                    &&& r@ == encoding(self.shape_view(), chunks)
                },
    {
        proof {
            use_type_invariant(self);
        }
        let mut out: Vec<u8> = Vec::new();
        out.push(121u8);
        out.push(110u8);
        let mut z: usize = 0;
        while z < 6
            invariant
                0 <= z <= 6,
                out@ == magic_bytes().take(z + 2),
            decreases 6 - z,
        {
            out.push(0u8);
            z = z + 1;
            assert(out@ =~= magic_bytes().take(z + 2));
        }
        assert(magic_bytes().take(8) =~= magic_bytes());
        let shape = self.shape();
        let ndim = shape.len();
        push_le(&mut out, ndim as u64, 4);
        let ghost head = out@;
        let ghost pieces = dim_pieces(shape@);
        let mut i: usize = 0;
        while i < ndim
            invariant
                0 <= i <= ndim,
                ndim == shape@.len(),
                pieces == dim_pieces(shape@),
                out@ == head + join_pieces(pieces.take(i as int), 8),
            decreases ndim - i,
        {
            let ghost before = out@;
            push_le(&mut out, shape[i] as u64, 8);
            proof {
                lemma_le_roundtrip(shape@[i as int] as nat, 8);
                assert(pieces.take(i + 1) =~= pieces.take(i as int).push(pieces[i as int]));
                lemma_join_push(pieces.take(i as int), pieces[i as int], 8);
            }
            i = i + 1;
        }
        assert(pieces.take(ndim as int) =~= pieces);
        let ghost body = out@;
        let elems = self.iter().collect();
        let n = elems.len();
        let ghost mut chunks: Seq<[u8; 4]> = Seq::empty();
        let mut k: usize = 0;
        while k < n
            invariant
                0 <= k <= n,
                n == elems@.len(),
                elems@ == self.elems(),
                chunks.len() == k,
                forall|x: T| enc.requires((x,)),
                forall|m: int| 0 <= m < k ==> enc.ensures((elems@[m],), #[trigger] chunks[m]),
                out@ == body + join_pieces(chunks.map_values(|c: [u8; 4]| c@), 4),
            decreases n - k,
        {
            let c = enc(elems[k]);
            let ghost before = chunks.map_values(|c: [u8; 4]| c@);
            push_chunk(&mut out, c);
            proof {
                lemma_join_push(before, c@, 4);
                chunks = chunks.push(c);
                assert(chunks.map_values(|c: [u8; 4]| c@) =~= before.push(c@));
            }
            k = k + 1;
        }
        assert(out@ =~= encoding(self.shape_view(), chunks));
        out
    }
}

/// Reading back the saved form of a tensor gives its shape and, at each
/// row-major position, the four bytes its element was saved as; and a shape
/// that a tensor can have (at least one axis, fewer than `2^32`, and a
/// padded size within `usize`) is never refused.
pub proof fn lemma_encoding_roundtrip(shape: Seq<usize>, chunks: Seq<[u8; 4]>)
    requires
        shape.len() < pow256(4),
        chunks.len() == shape_size(shape),
    ensures
        load_error(encoding(shape, chunks)) is None,
        stored_shape(encoding(shape, chunks)) == shape,
        forall|k: int|
            0 <= k < chunks.len() ==> #[trigger] stored_chunk(encoding(shape, chunks), k)
                == chunks[k],
        shape.len() >= 1 && padded_size(shape) <= usize::MAX ==> !load_refused(
            encoding(shape, chunks),
        ),
{
    let bytes = encoding(shape, chunks);
    let n = shape.len();
    let pieces = dim_pieces(shape);
    let views = chunks.map_values(|c: [u8; 4]| c@);
    let head = magic_bytes() + le_bytes(n, 4);
    let dims = join_pieces(pieces, 8);
    let body = join_pieces(views, 4);
    lemma_le_roundtrip(n, 4);
    assert(head.len() == 12);
    assert(bytes.subrange(0, 8) =~= magic_bytes());
    assert(bytes.subrange(8, 12) =~= le_bytes(n, 4));
    lemma_small_mod(n, pow256(4));
    assert(stored_ndim(bytes) == n);
    assert(bytes.len() == 12 + 8 * n + 4 * chunks.len());
    assert(pow256(8) == 18446744073709551616) by {
        reveal_with_fuel(pow256, 9);
    }
    assert forall|i: int| 0 <= i < n implies #[trigger] stored_shape(bytes)[i] == shape[i] by {
        lemma_le_roundtrip(shape[i] as nat, 8);
        lemma_small_mod(shape[i] as nat, pow256(8));
        lemma_join_piece(pieces, 8, i);
        assert(bytes.subrange(12 + 8 * i, 20 + 8 * i) =~= dims.subrange(8 * i, 8 * i + 8));
    }
    assert(stored_shape(bytes) =~= shape);
    assert forall|k: int| 0 <= k < chunks.len() implies #[trigger] stored_chunk(bytes, k)
        == chunks[k] by {
        lemma_join_piece(views, 4, k);
        let p = 12 + 8 * n + 4 * k;
        assert(bytes.subrange(p, p + 4) =~= body.subrange(4 * k, 4 * k + 4));
        assert(stored_chunk(bytes, k) =~= chunks[k]);
    }
}

/// `pow256` is the power of 256.
pub proof fn lemma_pow256_is_power(n: nat)
    ensures
        pow256(n) == pow(256, n),
    decreases n,
{
    reveal(pow);
    if n > 0 {
        lemma_pow256_is_power((n - 1) as nat);
    }
}

/// Byte `j` of the `n` little-endian bytes of `v` is digit `j` of `v` in
/// base 256: `(v / 256^j) % 256`.
pub proof fn lemma_le_bytes_digits(v: nat, n: nat, j: int)
    requires
        0 <= j < n,
    ensures
        le_bytes(v, n).len() == n,
        le_bytes(v, n)[j] as int == (v as int / pow(256, j as nat)) % 256,
    decreases j,
{
    lemma_le_roundtrip(v, n);
    reveal(pow);
    if j > 0 {
        lemma_le_bytes_digits(v / 256, (n - 1) as nat, j - 1);
        assert(le_bytes(v, n)[j] == le_bytes(v / 256, (n - 1) as nat)[j - 1]);
        lemma_pow256_is_power((j - 1) as nat);
        lemma_pow256_monotone((j - 1) as nat, (j - 1) as nat);
        lemma_div_denominator(v as int, 256, pow(256, (j - 1) as nat));
        assert(pow(256, j as nat) == 256 * pow(256, (j - 1) as nat));
    } else {
        assert(pow(256, 0) == 1);
    }
}

/// Every byte string of length `n` is the `n` little-endian bytes of its
/// value, and that value is below `256^n`; with the digit law above, the
/// value read from bytes is the number whose base-256 digits, least
/// significant first, are those bytes.
pub proof fn lemma_le_value_inverse(bytes: Seq<u8>)
    ensures
        le_value(bytes) < pow(256, bytes.len()),
        le_bytes(le_value(bytes), bytes.len()) == bytes,
    decreases bytes.len(),
{
    reveal(pow);
    if bytes.len() > 0 {
        let rest = bytes.drop_first();
        lemma_le_value_inverse(rest);
        let v = le_value(bytes);
        let w = le_value(rest);
        let b0 = bytes[0] as nat;
        assert(v == b0 + 256 * w);
        assert(v % 256 == b0 && v / 256 == w) by {
            lemma_fundamental_div_mod_converse(v as int, 256, w as int, b0 as int);
        }
        let p = pow(256, rest.len());
        assert(pow(256, bytes.len()) == 256 * p);
        assert(b0 + 256 * w < 256 * p) by (nonlinear_arith)
            requires
                b0 < 256,
                w < p,
        ;
        assert(le_bytes(v, bytes.len()) =~= bytes);
    } else {
        assert(le_bytes(le_value(bytes), 0) =~= bytes);
    }
}

/// Where each part sits in the saved form of a tensor: the magic bytes `yn`
/// and six zeros at 0, the axis count as four little-endian bytes at 8,
/// dimension `i` as eight little-endian bytes at `12 + 8 * i`, and the four
/// bytes of element `k` at `12 + 8 * ndim + 4 * k`, nothing after them.
pub proof fn lemma_encoding_layout(shape: Seq<usize>, chunks: Seq<[u8; 4]>)
    ensures
        encoding(shape, chunks).len() == 12 + 8 * shape.len() + 4 * chunks.len(),
        encoding(shape, chunks).subrange(0, 8) == seq![121u8, 110u8, 0u8, 0u8, 0u8, 0u8, 0u8, 0u8],
        encoding(shape, chunks).subrange(8, 12) == le_bytes(shape.len(), 4),
        forall|i: int|
            0 <= i < shape.len() ==> #[trigger] encoding(shape, chunks).subrange(
                12 + 8 * i,
                20 + 8 * i,
            ) == le_bytes(shape[i] as nat, 8),
        forall|k: int|
            0 <= k < chunks.len() ==> #[trigger] encoding(shape, chunks).subrange(
                12 + 8 * shape.len() + 4 * k,
                16 + 8 * shape.len() + 4 * k,
            ) == chunks[k]@,
{
    let bytes = encoding(shape, chunks);
    let n = shape.len();
    let pieces = dim_pieces(shape);
    let views = chunks.map_values(|c: [u8; 4]| c@);
    let dims = join_pieces(pieces, 8);
    let body = join_pieces(views, 4);
    lemma_le_roundtrip(n, 4);
    assert(bytes.subrange(0, 8) =~= seq![121u8, 110u8, 0u8, 0u8, 0u8, 0u8, 0u8, 0u8]);
    assert(bytes.subrange(8, 12) =~= le_bytes(n, 4));
    assert forall|i: int| 0 <= i < n implies #[trigger] bytes.subrange(12 + 8 * i, 20 + 8 * i)
        == le_bytes(shape[i] as nat, 8) by {
        lemma_le_roundtrip(shape[i] as nat, 8);
        lemma_join_piece(pieces, 8, i);
        assert(bytes.subrange(12 + 8 * i, 20 + 8 * i) =~= dims.subrange(8 * i, 8 * i + 8));
    }
    assert forall|k: int| 0 <= k < chunks.len() implies #[trigger] bytes.subrange(
        12 + 8 * n + 4 * k,
        16 + 8 * n + 4 * k,
    ) == chunks[k]@ by {
        lemma_join_piece(views, 4, k);
        assert(bytes.subrange(12 + 8 * n + 4 * k, 16 + 8 * n + 4 * k) =~= body.subrange(
            4 * k,
            4 * k + 4,
        ));
    }
}

/// Where reading takes each part from: the axis count from the four
/// little-endian bytes at 8, dimension `i` from the eight little-endian
/// bytes at `12 + 8 * i` (taken to `usize`), and element `k` from the four
/// bytes at `12 + 8 * ndim + 4 * k`; and the bytes are refused as not a
/// saved tensor exactly when their first eight differ from `yn` and six
/// zeros.
pub proof fn lemma_stored_layout(bytes: Seq<u8>)
    ensures
        bytes.len() >= 12 ==> stored_ndim(bytes) == le_value(bytes.subrange(8, 12)),
        stored_shape(bytes).len() == stored_ndim(bytes),
        forall|i: int|
            0 <= i < stored_ndim(bytes) && 20 + 8 * i <= bytes.len() ==> #[trigger] stored_shape(
                bytes,
            )[i] == le_value(bytes.subrange(12 + 8 * i, 20 + 8 * i)) as usize,
        forall|k: int|
            0 <= k && 16 + 8 * stored_ndim(bytes) + 4 * k <= bytes.len() ==> #[trigger] stored_chunk(
                bytes,
                k,
            )@ == bytes.subrange(
                12 + 8 * stored_ndim(bytes) + 4 * k,
                16 + 8 * stored_ndim(bytes) + 4 * k,
            ),
        (load_error(bytes) == Some(LoadError::InvalidMagic)) <==> (bytes.len() >= 8
            && bytes.subrange(0, 8) != seq![121u8, 110u8, 0u8, 0u8, 0u8, 0u8, 0u8, 0u8]),
        (load_error(bytes) is None) <==> (bytes.len() >= 12 && bytes.subrange(0, 8) == seq![
            121u8,
            110u8,
            0u8,
            0u8,
            0u8,
            0u8,
            0u8,
            0u8,
        ] && bytes.len() >= 12 + 8 * stored_ndim(bytes) + 4 * shape_size(stored_shape(bytes))),
        load_refused(bytes) <==> (bytes.len() >= 12 && bytes.subrange(0, 8) == seq![
            121u8,
            110u8,
            0u8,
            0u8,
            0u8,
            0u8,
            0u8,
            0u8,
        ] && bytes.len() >= 12 + 8 * stored_ndim(bytes) && (padded_size(stored_shape(bytes))
            > usize::MAX || (stored_ndim(bytes) == 0 && bytes.len() >= 12 + 4 * shape_size(
            stored_shape(bytes),
        )))),
{
    assert(magic_bytes() =~= seq![121u8, 110u8, 0u8, 0u8, 0u8, 0u8, 0u8, 0u8]);
    assert forall|k: int|
        0 <= k && 16 + 8 * stored_ndim(bytes) + 4 * k <= bytes.len() implies #[trigger] stored_chunk(
            bytes,
            k,
        )@ == bytes.subrange(
            12 + 8 * stored_ndim(bytes) + 4 * k,
            16 + 8 * stored_ndim(bytes) + 4 * k,
        ) by {
        assert(stored_chunk(bytes, k)@ =~= bytes.subrange(
            12 + 8 * stored_ndim(bytes) + 4 * k,
            16 + 8 * stored_ndim(bytes) + 4 * k,
        ));
    }
}

impl<T: Copy> Tensor<T> {
    /// The tensor saved in `bytes`, each element decoded from its four bytes
    /// by `dec`; or the error that reading them ends in.
    pub fn from_bytes<G: Fn([u8; 4]) -> T>(bytes: &[u8], dec: G) -> (r: Result<Tensor<T>, LoadError>)
        requires
            !load_refused(bytes@),
            forall|c: [u8; 4]| dec.requires((c,)),
        ensures
            loaded_from(bytes@, dec, r),
    {
        let shape = match read_shape(bytes) {
            Ok(s) => s,
            Err(e) => return Err(e),
        };
        let n = shape_len(shape.as_slice());
        let ndim = shape.len();
        let len = bytes.len();
        let start = 12 + 8 * ndim;
        if (len - start) / 4 < n {
            return Err(LoadError::UnexpectedEof);
        }
        let mut data: Vec<T> = Vec::new();
        let mut k: usize = 0;
        while k < n
            invariant
                0 <= k <= n,
                len == bytes@.len(),
                start == data_start(bytes@),
                start + 4 * n <= len,
                data@.len() == k,
                forall|c: [u8; 4]| dec.requires((c,)),
                forall|m: int|
                    0 <= m < k ==> dec.ensures((stored_chunk(bytes@, m),), #[trigger] data@[m]),
            decreases n - k,
        {
            let p = start + 4 * k;
            let c: [u8; 4] = [bytes[p], bytes[p + 1], bytes[p + 2], bytes[p + 3]];
            let x = dec(c);
            data.push(x);
            assert(c == stored_chunk(bytes@, k as int));
            k = k + 1;
        }
        Ok(Tensor::new(data, shape))
    }

    /// `from_bytes` on any input: `None` exactly where it refuses the header
    /// (see `load_refused`), else what `from_bytes` gives.
    pub fn checked_from_bytes<G: Fn([u8; 4]) -> T>(bytes: &[u8], dec: G) -> (r: Option<
        Result<Tensor<T>, LoadError>,
    >)
        requires
            forall|c: [u8; 4]| dec.requires((c,)),
        ensures
            r is None <==> load_refused(bytes@),
            r matches Some(x) ==> loaded_from(bytes@, dec, x),
    {
        if let Ok(shape) = read_shape(bytes) {
            if padded_len(shape.as_slice()).is_none() {
                return None;
            }
            if shape.len() == 0 && bytes.len() >= 16 {
                return None;
            }
        }
        Some(Self::from_bytes(bytes, dec))
    }
}

} // verus!
