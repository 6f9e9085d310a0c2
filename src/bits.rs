//! Mathematical model of quantized codes: bits of packed bytes, dot products
//! over code sequences, and the Hamming form of the one-bit dot product.

use vstd::prelude::*;

verus! {

/// Bit `k` of a byte counted from the most significant end (`k == 0` is bit 7).
pub open spec fn msb_bit(b: u8, k: int) -> u8 {
    (b >> ((7 - k) as u8)) & 1u8
}

/// Component `i` of a packed buffer: bit `i % 8`, MSB-first, of byte `i / 8`.
pub open spec fn bit_at(p: Seq<u8>, i: int) -> u8 {
    msb_bit(p[i / 8], i % 8)
}

/// Every component of a packed buffer, eight per byte.
pub open spec fn unpack(p: Seq<u8>) -> Seq<u8> {
    Seq::new((8 * p.len()) as nat, |i: int| bit_at(p, i))
}

/// Whether every component is 0 or 1.
pub open spec fn is_binary(v: Seq<u8>) -> bool {
    forall|i: int| 0 <= i < v.len() ==> #[trigger] v[i] <= 1
}

/// `a[0]*b[0] + ... + a[n-1]*b[n-1]`.
pub open spec fn dot_upto(a: Seq<u8>, b: Seq<u8>, n: int) -> int
    decreases n,
{
    if n <= 0 {
        0
    } else {
        dot_upto(a, b, n - 1) + a[n - 1] as int * b[n - 1] as int
    }
}

/// The dot product of two code sequences, over the first one's length.
pub open spec fn dot(a: Seq<u8>, b: Seq<u8>) -> int {
    dot_upto(a, b, a.len() as int)
}

/// Number of one bits in a byte.
pub open spec fn ones(b: u8) -> int {
    ((b & 1u8) + ((b >> 1u8) & 1u8) + ((b >> 2u8) & 1u8) + ((b >> 3u8) & 1u8)
        + ((b >> 4u8) & 1u8) + ((b >> 5u8) & 1u8) + ((b >> 6u8) & 1u8) + ((b >> 7u8) & 1u8)) as int
}

/// Hamming distance between the first `n` bytes of two packed buffers.
pub open spec fn hamming_upto(q: Seq<u8>, d: Seq<u8>, n: int) -> int
    decreases n,
{
    if n <= 0 {
        0
    } else {
        hamming_upto(q, d, n - 1) + ones(q[n - 1] ^ d[n - 1])
    }
}

/// The one-bit dot product of two packed buffers of `q`'s length:
/// the total number of bits less twice the Hamming distance.
pub open spec fn packed_dot(q: Seq<u8>, d: Seq<u8>) -> int {
    8 * q.len() - 2 * hamming_upto(q, d, q.len() as int)
}

pub proof fn lemma_ones_bound(b: u8)
    ensures
        0 <= ones(b) <= 8,
{
    assert((b & 1u8) <= 1u8) by (bit_vector);
    assert(((b >> 1u8) & 1u8) <= 1u8) by (bit_vector);
    assert(((b >> 2u8) & 1u8) <= 1u8) by (bit_vector);
    assert(((b >> 3u8) & 1u8) <= 1u8) by (bit_vector);
    assert(((b >> 4u8) & 1u8) <= 1u8) by (bit_vector);
    assert(((b >> 5u8) & 1u8) <= 1u8) by (bit_vector);
    assert(((b >> 6u8) & 1u8) <= 1u8) by (bit_vector);
    assert(((b >> 7u8) & 1u8) <= 1u8) by (bit_vector);
}

/// Partial dot products grow with the prefix: every term is non-negative.
pub proof fn lemma_dot_upto_monotone(a: Seq<u8>, b: Seq<u8>, m: int, n: int)
    requires
        0 <= m <= n <= a.len(),
        n <= b.len(),
    ensures
        0 <= dot_upto(a, b, m) <= dot_upto(a, b, n),
    decreases n - m,
{
    if m < n {
        lemma_dot_upto_monotone(a, b, m, n - 1);
        assert(a[n - 1] as int * b[n - 1] as int >= 0) by (nonlinear_arith);
    } else {
        lemma_dot_upto_nonneg(a, b, n);
    }
}

pub proof fn lemma_dot_upto_nonneg(a: Seq<u8>, b: Seq<u8>, n: int)
    requires
        0 <= n <= a.len(),
        n <= b.len(),
    ensures
        0 <= dot_upto(a, b, n),
    decreases n,
{
    if n > 0 {
        lemma_dot_upto_nonneg(a, b, n - 1);
        assert(a[n - 1] as int * b[n - 1] as int >= 0) by (nonlinear_arith);
    }
}

/// `q[0]*bit_at(p, 0) + ... + q[n-1]*bit_at(p, n-1)`: a query code against the
/// leading `n` components of a packed one-bit code.
pub open spec fn masked_dot(q: Seq<u8>, p: Seq<u8>, n: int) -> int
    decreases n,
{
    if n <= 0 {
        0
    } else {
        masked_dot(q, p, n - 1) + q[n - 1] as int * bit_at(p, n - 1) as int
    }
}

/// A code cut or zero-padded to `size` bytes.
pub open spec fn fit(v: Seq<u8>, size: int) -> Seq<u8> {
    Seq::new(size as nat, |j: int| if j < v.len() { v[j] } else { 0u8 })
}

/// The `i`-th slot of `size` bytes in a buffer of slots laid back to back.
pub open spec fn slot(buf: Seq<u8>, i: int, size: int) -> Seq<u8> {
    buf.subrange(i * size, i * size + size)
}

pub proof fn lemma_msb_bit_le_one(b: u8, k: int)
    requires
        0 <= k < 8,
    ensures
        msb_bit(b, k) <= 1,
{
    let s = (7 - k) as u8;
    assert((b >> s) & 1u8 <= 1u8) by (bit_vector);
}

pub proof fn lemma_masked_dot_bounds(q: Seq<u8>, p: Seq<u8>, n: int)
    requires
        0 <= n <= q.len(),
        n <= 8 * p.len(),
    ensures
        0 <= masked_dot(q, p, n) <= 255 * n,
    decreases n,
{
    if n > 0 {
        lemma_masked_dot_bounds(q, p, n - 1);
        lemma_msb_bit_le_one(p[(n - 1) / 8], (n - 1) % 8);
        let a = q[n - 1] as int;
        let b = bit_at(p, n - 1) as int;
        assert(0 <= a * b <= 255) by (nonlinear_arith)
            requires
                0 <= a <= 255,
                0 <= b <= 1,
        ;
    }
}

/// Hamming distances only look at the first `n` bytes of either buffer.
pub proof fn lemma_hamming_prefix(q1: Seq<u8>, d1: Seq<u8>, q2: Seq<u8>, d2: Seq<u8>, n: int)
    requires
        0 <= n <= q1.len(),
        n <= q2.len(),
        n <= d1.len(),
        n <= d2.len(),
        forall|j: int| 0 <= j < n ==> q1[j] == q2[j] && d1[j] == d2[j],
    ensures
        hamming_upto(q1, d1, n) == hamming_upto(q2, d2, n),
    decreases n,
{
    if n > 0 {
        lemma_hamming_prefix(q1, d1, q2, d2, n - 1);
    }
}

/// `+1` for each position where two one-bit codes agree, `-1` where they
/// differ: the dot product of the codes read as `±1` vectors.
pub open spec fn signed_dot_upto(u: Seq<u8>, v: Seq<u8>, n: int) -> int
    decreases n,
{
    if n <= 0 {
        0
    } else {
        signed_dot_upto(u, v, n - 1) + if u[n - 1] == v[n - 1] { 1int } else { -1int }
    }
}

/// Number of positions below `n` where both codes are 0.
pub open spec fn both_zero_upto(u: Seq<u8>, v: Seq<u8>, n: int) -> int
    decreases n,
{
    if n <= 0 {
        0
    } else {
        both_zero_upto(u, v, n - 1) + if u[n - 1] == 0 && v[n - 1] == 0 { 1int } else { 0int }
    }
}

/// Number of positions below `n` where the codes differ.
pub open spec fn differ_upto(u: Seq<u8>, v: Seq<u8>, n: int) -> int
    decreases n,
{
    if n <= 0 {
        0
    } else {
        differ_upto(u, v, n - 1) + if u[n - 1] != v[n - 1] { 1int } else { 0int }
    }
}

/// Partial dot products of byte codes are at most `255 * 255` per component.
pub proof fn lemma_dot_upto_bound(a: Seq<u8>, b: Seq<u8>, n: int)
    requires
        0 <= n <= a.len(),
        n <= b.len(),
    ensures
        0 <= dot_upto(a, b, n) <= 65025 * n,
    decreases n,
{
    if n > 0 {
        lemma_dot_upto_bound(a, b, n - 1);
        let x = a[n - 1] as int;
        let y = b[n - 1] as int;
        assert(0 <= x * y <= 65025) by (nonlinear_arith)
            requires
                0 <= x <= 255,
                0 <= y <= 255,
        ;
    }
}

} // verus!
