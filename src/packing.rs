//! Binary packing of one-bit codes: eight components per byte, MSB-first.

use vstd::prelude::*;
use crate::bits::{bit_at, is_binary, msb_bit, unpack};
use crate::error::QuantError;

verus! {

/// Bytes needed to pack `n` one-bit components.
pub open spec fn packed_len(n: int) -> int {
    (n + 7) / 8
}

/// `p` holds the packed form of `v`: component `i` is bit `i` of `p`, and the
/// unused trailing bits of the last byte are 0.
pub open spec fn packs_to(v: Seq<u8>, p: Seq<u8>) -> bool {
    &&& packed_len(v.len() as int) <= p.len()
    &&& forall|i: int|
        0 <= i < 8 * packed_len(v.len() as int) ==> #[trigger] bit_at(p, i) == if i < v.len() {
            v[i]
        } else {
            0u8
        }
}

/// `p` is the first component of `v` that is neither 0 nor 1.
pub open spec fn first_invalid(v: Seq<u8>, p: int) -> bool {
    0 <= p < v.len() && v[p] > 1 && forall|i: int| 0 <= i < p ==> v[i] <= 1
}

/// The error that packing `v` into a destination of `available` bytes reports:
/// the first component that is not 0 or 1 when it lies within the first
/// `available + 1` groups of eight, otherwise a destination that is too short.
pub open spec fn pack_error(v: Seq<u8>, available: int) -> Option<QuantError> {
    if exists|p: int| first_invalid(v, p) && p / 8 <= available {
        let p = choose|p: int| first_invalid(v, p) && p / 8 <= available;
        Some(QuantError::InvalidBit { position: p as usize, value: v[p] })
    } else if available < packed_len(v.len() as int) {
        Some(QuantError::BufferTooSmall { needed: packed_len(v.len() as int) as usize, available: available as usize })
    } else {
        None
    }
}

proof fn lemma_first_invalid_unique(v: Seq<u8>, p: int, q: int)
    requires
        first_invalid(v, p),
        first_invalid(v, q),
    ensures
        p == q,
{
    if p < q {
        assert(v[p] <= 1);
    } else if q < p {
        assert(v[q] <= 1);
    }
}

/// The first component that is neither 0 nor 1, if any.
fn find_invalid(vector: &[u8]) -> (r: Option<usize>)
    ensures
        r matches Some(p) ==> first_invalid(vector@, p as int),
        r is None ==> is_binary(vector@),
{
    let n = vector.len();
    let mut i: usize = 0;
    while i < n
        invariant
            n == vector@.len(),
            i <= n,
            forall|i2: int| 0 <= i2 < i ==> vector@[i2] <= 1,
        decreases n - i,
    {
        if vector[i] > 1 {
            return Some(i);
        }
        i = i + 1;
    }
    None
}

proof fn lemma_set_bit(r: u8, val: u8, sj: u8, sk: u8)
    requires
        val <= 1,
        sj < 8,
        sk < 8,
    ensures
        ((r | (val << sj)) >> sk) & 1u8 == if sk == sj {
            val | ((r >> sk) & 1u8)
        } else {
            (r >> sk) & 1u8
        },
{
    assert(((r | (val << sj)) >> sk) & 1u8 == if sk == sj {
        val | ((r >> sk) & 1u8)
    } else {
        (r >> sk) & 1u8
    }) by (bit_vector)
        requires
            val <= 1,
            sj < 8,
            sk < 8,
    ;
}

proof fn lemma_zero_bits()
    ensures
        forall|k: int| 0 <= k < 8 ==> #[trigger] msb_bit(0u8, k) == 0,
{
    assert forall|k: int| 0 <= k < 8 implies #[trigger] msb_bit(0u8, k) == 0 by {
        let s = (7 - k) as u8;
        assert((0u8 >> s) & 1u8 == 0u8) by (bit_vector);
    }
}

/// Packs group `g` of `vector` (components `8g .. 8g + 8`) into one byte.
fn pack_group(vector: &[u8], g: usize) -> (byte: u8)
    requires
        is_binary(vector@),
        8 * g < vector@.len(),
    ensures
        forall|k: int| 0 <= k < 8 ==> #[trigger] msb_bit(byte, k) == if 8 * g + k < vector@.len() {
            vector@[8 * g + k]
        } else {
            0u8
        },
{
    let n = vector.len();
    let mut result: u8 = 0;
    let mut j: u8 = 0;
    proof {
        lemma_zero_bits();
    }
    while j < 8
        invariant
            is_binary(vector@),
            n == vector@.len(),
            8 * g < n,
            j <= 8,
            forall|k: int| 0 <= k < 8 ==> #[trigger] msb_bit(result, k) == if k < j && 8 * g + k < n {
                vector@[8 * g + k]
            } else {
                0u8
            },
        decreases 8 - j,
    {
        let i = 8 * g + j as usize;
        if i < n {
            let val = vector[i];
            let old_result = result;
            let shift: u8 = 7 - j;
            result = result | (val << shift);
            proof {
                assert(val <= 1);
                assert(val | 0u8 == val) by (bit_vector);
                assert forall|k: int| 0 <= k < 8 implies #[trigger] msb_bit(result, k) == if k < j + 1 && 8 * g + k < n {
                    vector@[8 * g + k]
                } else {
                    0u8
                } by {
                    let sk = (7 - k) as u8;
                    lemma_set_bit(old_result, val, shift, sk);
                    assert(msb_bit(old_result, k) == (old_result >> sk) & 1u8);
                    assert(msb_bit(result, k) == (result >> sk) & 1u8);
                    assert(sk == shift <==> k == j);
                }
            }
        }
        j = j + 1;
    }
    result
}

/// Writes the packed form of a 0/1 code into the first `packed_len` bytes.
fn write_packed(vector: &[u8], packed: &mut [u8])
    requires
        is_binary(vector@),
        packed_len(vector@.len() as int) <= old(packed)@.len(),
    ensures
        final(packed)@.len() == old(packed)@.len(),
        packs_to(vector@, final(packed)@),
        forall|b: int|
            packed_len(vector@.len() as int) <= b < old(packed)@.len() ==> #[trigger] final(packed)@[b] == old(packed)@[b],
{
    let n = vector.len();
    let needed = n / 8 + if n % 8 == 0 { 0 } else { 1 };
    let ghost before = packed@;
    let mut g: usize = 0;
    while g < needed
        invariant
            n == vector@.len(),
            packed@.len() == before.len(),
            needed == packed_len(n as int),
            needed <= packed@.len(),
            is_binary(vector@),
            g <= needed,
            forall|b: int| g <= b < packed@.len() ==> #[trigger] packed@[b] == before[b],
            forall|i2: int| 0 <= i2 < 8 * g ==> #[trigger] bit_at(packed@, i2) == if i2 < n {
                vector@[i2]
            } else {
                0u8
            },
        decreases needed - g,
    {
        let byte = pack_group(vector, g);
        let ghost prev = packed@;
        packed[g] = byte;
        proof {
            assert forall|i2: int| 0 <= i2 < 8 * (g + 1) implies #[trigger] bit_at(packed@, i2) == if i2 < n {
                vector@[i2]
            } else {
                0u8
            } by {
                if i2 >= 8 * g {
                    assert(i2 / 8 == g as int);
                    assert(8 * g + i2 % 8 == i2);
                    assert(msb_bit(byte, i2 % 8) == if 8 * g + i2 % 8 < n { vector@[8 * g + i2 % 8] } else { 0u8 });
                } else {
                    assert(i2 / 8 < g);
                    assert(packed@[i2 / 8] == prev[i2 / 8]);
                    assert(bit_at(prev, i2) == if i2 < n { vector@[i2] } else { 0u8 });
                }
            }
        }
        g = g + 1;
    }
}

/// Packs a one-bit code into `packed`, eight components per byte, MSB-first;
/// the unused trailing bits of the last byte are 0 and bytes past the packed
/// length are left as they were. Fails without writing when a component is
/// neither 0 nor 1 or `packed` is too short (see `pack_error`).
pub fn pack_as_binary(vector: &[u8], packed: &mut [u8]) -> (r: Result<(), QuantError>)
    ensures
        final(packed)@.len() == old(packed)@.len(),
        pack_error(vector@, old(packed)@.len() as int) is None <==> r is Ok,
        pack_error(vector@, old(packed)@.len() as int) matches Some(e) ==> r == Err::<(), QuantError>(e),
        r is Ok ==> is_binary(vector@) && packs_to(vector@, final(packed)@),
        r is Ok ==> forall|b: int|
            packed_len(vector@.len() as int) <= b < old(packed)@.len() ==> #[trigger] final(packed)@[b] == old(packed)@[b],
        r is Err ==> final(packed)@ == old(packed)@,
{
    let n = vector.len();
    let available = packed.len();
    let needed = n / 8 + if n % 8 == 0 { 0 } else { 1 };
    match find_invalid(vector) {
        Some(p) => {
            if p / 8 <= available {
                proof {
                    let c = choose|c: int| first_invalid(vector@, c) && c / 8 <= available;
                    lemma_first_invalid_unique(vector@, c, p as int);
                }
                Err(QuantError::InvalidBit { position: p, value: vector[p] })
            } else {
                proof {
                    assert forall|c: int| first_invalid(vector@, c) implies !(c / 8 <= available) by {
                        lemma_first_invalid_unique(vector@, c, p as int);
                    }
                    assert(p / 8 < packed_len(n as int));
                }
                Err(QuantError::BufferTooSmall { needed, available })
            }
        },
        None => {
            if available < needed {
                Err(QuantError::BufferTooSmall { needed, available })
            } else {
                write_packed(vector, packed);
                Ok(())
            }
        },
    }
}

/// Packing then unpacking gives back the code: for a 0/1 code whose length is
/// a multiple of 8, the unpacked bits of the packed bytes are the code itself.
pub proof fn lemma_pack_round_trip(v: Seq<u8>, p: Seq<u8>)
    requires
        is_binary(v),
        v.len() % 8 == 0,
        packs_to(v, p),
    ensures
        unpack(p.take(v.len() as int / 8)) == v,
{
    let q = p.take(v.len() as int / 8);
    assert forall|i: int| 0 <= i < v.len() implies #[trigger] unpack(q)[i] == v[i] by {
        assert(bit_at(p, i) == v[i]);
        assert(q[i / 8] == p[i / 8]);
    }
    assert(unpack(q) =~= v);
}

} // verus!
