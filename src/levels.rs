//! The integer side of scalar quantization: argument shapes, and turning the
//! per-component level indices chosen on the interval into stored codes.

use vstd::prelude::*;
use vstd::arithmetic::power2::{pow2, lemma2_to64, lemma_pow2_unfold};
use crate::error::QuantError;

verus! {

/// Smallest and largest supported quantization bit-widths.
pub const MIN_BITS: u8 = 1;
pub const MAX_BITS: u8 = 8;

/// Whether `bits` is a supported quantization bit-width.
pub open spec fn valid_bits(bits: u8) -> bool {
    MIN_BITS <= bits <= MAX_BITS
}

/// The largest code a `bits`-wide quantization stores: `2^bits - 1`.
pub open spec fn max_level(bits: u8) -> int {
    pow2(bits as nat) - 1
}

/// Sum of the first `n` level indices.
pub open spec fn level_sum_upto(levels: Seq<u32>, n: int) -> int
    decreases n,
{
    if n <= 0 {
        0
    } else {
        level_sum_upto(levels, n - 1) + levels[n - 1] as int
    }
}

/// Sum of all level indices.
pub open spec fn level_sum(levels: Seq<u32>) -> int {
    level_sum_upto(levels, levels.len() as int)
}

/// The code stored for a level index: the index capped at `2^bits - 1`.
pub open spec fn stored_level(level: u32, bits: u8) -> int {
    if level as int <= max_level(bits) {
        level as int
    } else {
        max_level(bits)
    }
}

/// Checks the shapes of a quantization request: the centroid and destination
/// must have the vector's length, and the bit-width must lie in `1..=8`.
pub fn check_quantize_args<T, C>(vector: &[T], centroid: &[C], destination: &[u8], bits: u8) -> (r: Result<(), QuantError>)
    ensures
        vector@.len() != centroid@.len() ==> r == Err::<(), QuantError>(
            QuantError::DimensionMismatch { expected: vector@.len() as usize, found: centroid@.len() as usize },
        ),
        vector@.len() == centroid@.len() && destination@.len() != vector@.len() ==> r == Err::<(), QuantError>(
            QuantError::DimensionMismatch { expected: vector@.len() as usize, found: destination@.len() as usize },
        ),
        vector@.len() == centroid@.len() && destination@.len() == vector@.len() && !valid_bits(bits) ==> r
            == Err::<(), QuantError>(QuantError::Config { bits }),
        r is Ok <==> vector@.len() == centroid@.len() && destination@.len() == vector@.len() && valid_bits(bits),
{
    if vector.len() != centroid.len() {
        return Err(QuantError::DimensionMismatch { expected: vector.len(), found: centroid.len() });
    }
    if destination.len() != vector.len() {
        return Err(QuantError::DimensionMismatch { expected: vector.len(), found: destination.len() });
    }
    check_bits(bits)
}

/// Checks that a quantization bit-width lies in `1..=8`.
pub fn check_bits(bits: u8) -> (r: Result<(), QuantError>)
    ensures
        valid_bits(bits) ==> r is Ok,
        !valid_bits(bits) ==> r == Err::<(), QuantError>(QuantError::Config { bits }),
{
    if bits < MIN_BITS || bits > MAX_BITS {
        Err(QuantError::Config { bits })
    } else {
        Ok(())
    }
}

/// `2^bits - 1` for a supported bit-width.
fn max_level_of(bits: u8) -> (m: u32)
    requires
        valid_bits(bits),
    ensures
        m as int == max_level(bits),
        m <= 255,
{
    let mut levels: u32 = 1;
    let mut i: u8 = 0;
    proof {
        lemma2_to64();
    }
    while i < bits
        invariant
            i <= bits <= 8,
            levels as int == pow2(i as nat),
            levels <= 256,
        decreases bits - i,
    {
        proof {
            lemma_pow2_unfold((i + 1) as nat);
            lemma2_to64();
            assert(pow2(i as nat) <= pow2(7)) by {
                vstd::arithmetic::power2::lemma_pow2_strictly_increases(i as nat, 8);
            }
        }
        levels = levels * 2;
        i = i + 1;
    }
    proof {
        lemma2_to64();
    }
    levels - 1
}

/// Stores each level index as a `bits`-wide code, capped at `2^bits - 1`, and
/// returns the sum of the uncapped indices. For one bit the indices are the
/// 0/1 threshold decisions, so the codes are exactly 0 or 1.
pub fn assign_levels(levels: &[u32], bits: u8, destination: &mut [u8]) -> (sum: u64)
    requires
        valid_bits(bits),
        old(destination)@.len() == levels@.len(),
        level_sum(levels@) <= u64::MAX,
    ensures
        final(destination)@.len() == levels@.len(),
        forall|i: int| 0 <= i < levels@.len() ==> #[trigger] final(destination)@[i] as int == stored_level(levels@[i], bits),
        forall|i: int| 0 <= i < levels@.len() ==> #[trigger] final(destination)@[i] as int <= max_level(bits),
        bits == 1 ==> forall|i: int| 0 <= i < levels@.len() ==> #[trigger] final(destination)@[i] <= 1,
        sum as int == level_sum(levels@),
{
    let cap = max_level_of(bits);
    let n = levels.len();
    let mut sum: u64 = 0;
    let mut i: usize = 0;
    while i < n
        invariant
            valid_bits(bits),
            cap as int == max_level(bits),
            cap <= 255,
            n == levels@.len(),
            destination@.len() == n,
            level_sum(levels@) <= u64::MAX,
            i <= n,
            sum as int == level_sum_upto(levels@, i as int),
            forall|i2: int| 0 <= i2 < i ==> #[trigger] destination@[i2] as int == stored_level(levels@[i2], bits),
        decreases n - i,
    {
        let level = levels[i];
        let code: u8 = if level <= cap { level as u8 } else { cap as u8 };
        destination[i] = code;
        proof {
            lemma_level_sum_monotone(levels@, i as int + 1, n as int);
        }
        sum = sum + level as u64;
        i = i + 1;
    }
    proof {
        lemma2_to64();
    }
    sum
}

proof fn lemma_level_sum_monotone(levels: Seq<u32>, m: int, n: int)
    requires
        0 <= m <= n <= levels.len(),
    ensures
        level_sum_upto(levels, m) <= level_sum_upto(levels, n),
    decreases n - m,
{
    if m < n {
        lemma_level_sum_monotone(levels, m, n - 1);
    }
}

} // verus!
