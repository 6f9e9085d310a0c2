//! Dot products between two quantized codes: the byte-by-byte reference
//! kernel and the XOR/popcount kernel for bit-packed one-bit codes.

use vstd::prelude::*;
use crate::bits::{
    both_zero_upto, differ_upto, dot, dot_upto, hamming_upto, msb_bit, ones,
    packed_dot, signed_dot_upto, unpack, lemma_dot_upto_monotone, lemma_dot_upto_nonneg,
    lemma_msb_bit_le_one, lemma_ones_bound,
};
use crate::error::QuantError;

verus! {

/// Relies on `u8::count_ones`: the number of one bits in the byte.
#[verifier::external_body]
fn count_ones_u8(b: u8) -> (r: u32)
    ensures
        r as int == ones(b),
{
    b.count_ones()
}

/// Reference dot product of two unpacked codes, one byte per component.
pub fn compute_quantized_dot_product(q: &[u8], d: &[u8]) -> (r: Result<i32, QuantError>)
    requires
        q@.len() == d@.len() ==> dot(q@, d@) <= i32::MAX,
    ensures
        q@.len() != d@.len() ==> r == Err::<i32, QuantError>(
            QuantError::DimensionMismatch { expected: q@.len() as usize, found: d@.len() as usize },
        ),
        q@.len() == d@.len() ==> r == Ok::<i32, QuantError>(dot(q@, d@) as i32),
{
    if q.len() != d.len() {
        return Err(QuantError::DimensionMismatch { expected: q.len(), found: d.len() });
    }
    let mut sum: i32 = 0;
    let mut j: usize = 0;
    while j < q.len()
        invariant
            q@.len() == d@.len(),
            dot(q@, d@) <= i32::MAX,
            j <= q@.len(),
            sum as int == dot_upto(q@, d@, j as int),
        decreases q@.len() - j,
    {
        proof {
            lemma_dot_upto_monotone(q@, d@, j as int + 1, q@.len() as int);
            lemma_dot_upto_nonneg(q@, d@, j as int);
        }
        sum = sum + (q[j] as i32) * (d[j] as i32);
        j = j + 1;
    }
    Ok(sum)
}

/// Dot product of an unpacked four-bit query code with an unpacked one-bit
/// index code.
#[inline]
pub fn compute_int4_bit_dot_product(q: &[u8], d: &[u8]) -> (r: Result<i32, QuantError>)
    requires
        q@.len() == d@.len() ==> dot(q@, d@) <= i32::MAX,
    ensures
        q@.len() != d@.len() ==> r == Err::<i32, QuantError>(
            QuantError::DimensionMismatch { expected: q@.len() as usize, found: d@.len() as usize },
        ),
        q@.len() == d@.len() ==> r == Ok::<i32, QuantError>(dot(q@, d@) as i32),
{
    compute_quantized_dot_product(q, d)
}

/// Dot product of two unpacked one-bit codes.
#[inline]
pub fn compute_int1_bit_dot_product(q: &[u8], d: &[u8]) -> (r: Result<i32, QuantError>)
    requires
        q@.len() == d@.len() ==> dot(q@, d@) <= i32::MAX,
    ensures
        q@.len() != d@.len() ==> r == Err::<i32, QuantError>(
            QuantError::DimensionMismatch { expected: q@.len() as usize, found: d@.len() as usize },
        ),
        q@.len() == d@.len() ==> r == Ok::<i32, QuantError>(dot(q@, d@) as i32),
{
    compute_quantized_dot_product(q, d)
}

/// One-bit dot product of two bit-packed codes: `8 * len - 2 * popcount(q ^ d)`.
pub fn compute_packed_bit_dot_product(q: &[u8], d: &[u8]) -> (r: Result<i32, QuantError>)
    requires
        8 * q@.len() <= i32::MAX,
    ensures
        q@.len() != d@.len() ==> r == Err::<i32, QuantError>(
            QuantError::DimensionMismatch { expected: q@.len() as usize, found: d@.len() as usize },
        ),
        q@.len() == d@.len() ==> r == Ok::<i32, QuantError>(packed_dot(q@, d@) as i32),
{
    if q.len() != d.len() {
        return Err(QuantError::DimensionMismatch { expected: q.len(), found: d.len() });
    }
    let xor_sum = packed_hamming(q, d, 0, q.len());
    proof {
        assert(d@.subrange(0, q@.len() as int) =~= d@);
    }
    let total_bits = (q.len() * 8) as i32;
    let hamming_distance = xor_sum as i32;
    Ok(total_bits - hamming_distance - hamming_distance)
}

/// Hamming distance between `q[0..len]` and `d[offset..offset + len]`.
pub(crate) fn packed_hamming(q: &[u8], d: &[u8], offset: usize, len: usize) -> (r: u32)
    requires
        len <= q@.len(),
        offset + len <= d@.len(),
        8 * len <= i32::MAX,
    ensures
        r as int == hamming_upto(q@, d@.subrange(offset as int, offset + len), len as int),
        r as int <= 8 * len,
{
    let ghost t = d@.subrange(offset as int, offset + len);
    let d_len = d.len();
    let mut sum: u32 = 0;
    let mut j: usize = 0;
    while j < len
        invariant
            len <= q@.len(),
            offset + len <= d@.len(),
            d_len == d@.len(),
            8 * len <= i32::MAX,
            t == d@.subrange(offset as int, offset + len),
            j <= len,
            sum as int == hamming_upto(q@, t, j as int),
            sum as int <= 8 * j,
        decreases len - j,
    {
        let c = count_ones_u8(q[j] ^ d[offset + j]);
        proof {
            lemma_ones_bound(q@[j as int] ^ d@[offset + j]);
            assert(t[j as int] == d@[offset + j]);
        }
        sum = sum + c;
        j = j + 1;
    }
    sum
}

proof fn lemma_xor_bit(x: u8, y: u8, s: u8)
    requires
        s < 8,
    ensures
        ((x ^ y) >> s) & 1u8 == (if (x >> s) & 1u8 == (y >> s) & 1u8 { 0u8 } else { 1u8 }),
{
    assert(((x ^ y) >> s) & 1u8 == (if (x >> s) & 1u8 == (y >> s) & 1u8 { 0u8 } else { 1u8 }))
        by (bit_vector)
        requires
            s < 8,
    ;
}

/// One byte of the packed kernel: `8 - 2 * popcount(x ^ y)` is the `±1` dot
/// product of the byte's eight bits.
proof fn lemma_byte_signed(x: u8, y: u8)
    ensures
        8 - 2 * ones(x ^ y) == (if msb_bit(x, 0) == msb_bit(y, 0) { 1int } else { -1int })
            + (if msb_bit(x, 1) == msb_bit(y, 1) { 1int } else { -1int })
            + (if msb_bit(x, 2) == msb_bit(y, 2) { 1int } else { -1int })
            + (if msb_bit(x, 3) == msb_bit(y, 3) { 1int } else { -1int })
            + (if msb_bit(x, 4) == msb_bit(y, 4) { 1int } else { -1int })
            + (if msb_bit(x, 5) == msb_bit(y, 5) { 1int } else { -1int })
            + (if msb_bit(x, 6) == msb_bit(y, 6) { 1int } else { -1int })
            + (if msb_bit(x, 7) == msb_bit(y, 7) { 1int } else { -1int }),
{
    lemma_xor_bit(x, y, 0);
    lemma_xor_bit(x, y, 1);
    lemma_xor_bit(x, y, 2);
    lemma_xor_bit(x, y, 3);
    lemma_xor_bit(x, y, 4);
    lemma_xor_bit(x, y, 5);
    lemma_xor_bit(x, y, 6);
    lemma_xor_bit(x, y, 7);
    assert((x ^ y) >> 0u8 == x ^ y) by (bit_vector);
    assert(x >> 0u8 == x) by (bit_vector);
    assert(y >> 0u8 == y) by (bit_vector);
}

proof fn lemma_hamming_signed(q: Seq<u8>, d: Seq<u8>, n: int)
    requires
        0 <= n <= q.len(),
        q.len() == d.len(),
    ensures
        8 * n - 2 * hamming_upto(q, d, n) == signed_dot_upto(unpack(q), unpack(d), 8 * n),
    decreases n,
{
    if n > 0 {
        let m = n - 1;
        lemma_hamming_signed(q, d, m);
        lemma_byte_signed(q[m], d[m]);
        let u = unpack(q);
        let v = unpack(d);
        assert forall|k: int| 0 <= k < 8 implies #[trigger] u[8 * m + k] == msb_bit(q[m], k)
            && v[8 * m + k] == msb_bit(d[m], k) by {
            assert((8 * m + k) / 8 == m && (8 * m + k) % 8 == k);
        }
        assert(signed_dot_upto(u, v, 8 * m + 1) == signed_dot_upto(u, v, 8 * m) + if u[8 * m] == v[8 * m] { 1int } else { -1int });
        assert(signed_dot_upto(u, v, 8 * m + 2) == signed_dot_upto(u, v, 8 * m + 1) + if u[8 * m + 1] == v[8 * m + 1] { 1int } else { -1int });
        assert(signed_dot_upto(u, v, 8 * m + 3) == signed_dot_upto(u, v, 8 * m + 2) + if u[8 * m + 2] == v[8 * m + 2] { 1int } else { -1int });
        assert(signed_dot_upto(u, v, 8 * m + 4) == signed_dot_upto(u, v, 8 * m + 3) + if u[8 * m + 3] == v[8 * m + 3] { 1int } else { -1int });
        assert(signed_dot_upto(u, v, 8 * m + 5) == signed_dot_upto(u, v, 8 * m + 4) + if u[8 * m + 4] == v[8 * m + 4] { 1int } else { -1int });
        assert(signed_dot_upto(u, v, 8 * m + 6) == signed_dot_upto(u, v, 8 * m + 5) + if u[8 * m + 5] == v[8 * m + 5] { 1int } else { -1int });
        assert(signed_dot_upto(u, v, 8 * m + 7) == signed_dot_upto(u, v, 8 * m + 6) + if u[8 * m + 6] == v[8 * m + 6] { 1int } else { -1int });
        assert(signed_dot_upto(u, v, 8 * m + 8) == signed_dot_upto(u, v, 8 * m + 7) + if u[8 * m + 7] == v[8 * m + 7] { 1int } else { -1int });
    }
}

/// The packed kernel computes the dot product of the two unpacked one-bit
/// codes read as `±1` vectors (0 as -1, 1 as +1).
pub proof fn lemma_packed_dot_is_signed_dot(q: Seq<u8>, d: Seq<u8>)
    requires
        q.len() == d.len(),
    ensures
        packed_dot(q, d) == signed_dot_upto(unpack(q), unpack(d), 8 * q.len() as int),
{
    lemma_hamming_signed(q, d, q.len() as int);
}

proof fn lemma_signed_split(u: Seq<u8>, v: Seq<u8>, n: int)
    requires
        0 <= n <= u.len(),
        n <= v.len(),
        forall|i: int| 0 <= i < n ==> #[trigger] u[i] <= 1 && v[i] <= 1,
    ensures
        signed_dot_upto(u, v, n) == dot_upto(u, v, n) + both_zero_upto(u, v, n) - differ_upto(u, v, n),
    decreases n,
{
    if n > 0 {
        lemma_signed_split(u, v, n - 1);
        assert(u[n - 1] <= 1 && v[n - 1] <= 1);
    }
}

/// The packed kernel equals the reference dot product over the unpacked 0/1
/// codes exactly on the inputs where the number of positions at which both
/// codes hold 0 equals the number at which they differ (elsewhere the packed
/// kernel counts agreeing zeros as `+1` and differing bits as `-1`).
pub proof fn lemma_packed_dot_matches_unpacked_dot(q: Seq<u8>, d: Seq<u8>)
    requires
        q.len() == d.len(),
        both_zero_upto(unpack(q), unpack(d), 8 * q.len() as int) == differ_upto(unpack(q), unpack(d), 8 * q.len() as int),
    ensures
        packed_dot(q, d) == dot(unpack(q), unpack(d)),
{
    let u = unpack(q);
    let v = unpack(d);
    lemma_hamming_signed(q, d, q.len() as int);
    assert forall|i: int| 0 <= i < 8 * q.len() implies #[trigger] u[i] <= 1 && v[i] <= 1 by {
        lemma_msb_bit_le_one(q[i / 8], i % 8);
        lemma_msb_bit_le_one(d[i / 8], i % 8);
    }
    lemma_signed_split(u, v, 8 * q.len() as int);
}

} // verus!
