//! Batched kernels over a direct-packed buffer: many one-bit codes of one
//! dimension laid back to back, scored against a single query.

use vstd::prelude::*;
use crate::bits::{
    bit_at, dot, dot_upto, fit, hamming_upto, masked_dot, msb_bit, packed_dot, slot, unpack,
    lemma_hamming_prefix, lemma_masked_dot_bounds, lemma_msb_bit_le_one,
};
use crate::bitwise_dot_product::packed_hamming;

verus! {

proof fn lemma_byte_position(j: int, k: int)
    requires
        0 <= j,
        0 <= k < 8,
    ensures
        (8 * j + k) / 8 == j,
        (8 * j + k) % 8 == k,
{
}

/// `masked_dot` over one whole byte of the packed code.
proof fn lemma_masked_dot_byte(q: Seq<u8>, p: Seq<u8>, j: int)
    requires
        0 <= j < p.len(),
    ensures
        masked_dot(q, p, 8 * j + 8) == masked_dot(q, p, 8 * j)
            + q[8 * j] as int * msb_bit(p[j], 0) as int
            + q[8 * j + 1] as int * msb_bit(p[j], 1) as int
            + q[8 * j + 2] as int * msb_bit(p[j], 2) as int
            + q[8 * j + 3] as int * msb_bit(p[j], 3) as int
            + q[8 * j + 4] as int * msb_bit(p[j], 4) as int
            + q[8 * j + 5] as int * msb_bit(p[j], 5) as int
            + q[8 * j + 6] as int * msb_bit(p[j], 6) as int
            + q[8 * j + 7] as int * msb_bit(p[j], 7) as int,
{
    assert forall|k: int| 0 <= k < 8 implies #[trigger] bit_at(p, 8 * j + k) == msb_bit(p[j], k) by {
        lemma_byte_position(j, k);
    }
    assert(masked_dot(q, p, 8 * j + 1) == masked_dot(q, p, 8 * j) + q[8 * j] as int * bit_at(p, 8 * j) as int);
    assert(masked_dot(q, p, 8 * j + 2) == masked_dot(q, p, 8 * j + 1) + q[8 * j + 1] as int * bit_at(p, 8 * j + 1) as int);
    assert(masked_dot(q, p, 8 * j + 3) == masked_dot(q, p, 8 * j + 2) + q[8 * j + 2] as int * bit_at(p, 8 * j + 2) as int);
    assert(masked_dot(q, p, 8 * j + 4) == masked_dot(q, p, 8 * j + 3) + q[8 * j + 3] as int * bit_at(p, 8 * j + 3) as int);
    assert(masked_dot(q, p, 8 * j + 5) == masked_dot(q, p, 8 * j + 4) + q[8 * j + 4] as int * bit_at(p, 8 * j + 4) as int);
    assert(masked_dot(q, p, 8 * j + 6) == masked_dot(q, p, 8 * j + 5) + q[8 * j + 5] as int * bit_at(p, 8 * j + 5) as int);
    assert(masked_dot(q, p, 8 * j + 7) == masked_dot(q, p, 8 * j + 6) + q[8 * j + 6] as int * bit_at(p, 8 * j + 6) as int);
    assert(masked_dot(q, p, 8 * j + 8) == masked_dot(q, p, 8 * j + 7) + q[8 * j + 7] as int * bit_at(p, 8 * j + 7) as int);
}

/// Dot products of an unpacked query code with `num_vectors` one-bit codes
/// packed MSB-first into `continuous_buffer`, `ceil(dimension / 8)` bytes each;
/// the bits of a trailing partial byte beyond `dimension` are ignored.
pub fn compute_batch_four_bit_dot_product_direct_packed(
    query_vector: &[u8],
    continuous_buffer: &[u8],
    num_vectors: usize,
    dimension: usize,
) -> (results: Vec<i32>)
    requires
        dimension <= query_vector@.len(),
        num_vectors * ((dimension + 7) / 8) <= continuous_buffer@.len(),
        255 * dimension <= i32::MAX,
    ensures
        results@.len() == num_vectors,
        forall|i: int|
            0 <= i < num_vectors ==> #[trigger] results@[i] as int == masked_dot(
                query_vector@,
                slot(continuous_buffer@, i, (dimension + 7) / 8),
                dimension as int,
            ),
{
    let packed_dimension = (dimension + 7) / 8;
    let main_packed_dimension = dimension / 8;
    let buffer_len = continuous_buffer.len();
    let mut results: Vec<i32> = Vec::with_capacity(num_vectors);
    let mut i: usize = 0;
    while i < num_vectors
        invariant
            packed_dimension == (dimension + 7) / 8,
            main_packed_dimension == dimension / 8,
            dimension <= query_vector@.len(),
            num_vectors * packed_dimension <= continuous_buffer@.len(),
            buffer_len == continuous_buffer@.len(),
            255 * dimension <= i32::MAX,
            i <= num_vectors,
            results@.len() == i,
            forall|i2: int|
                0 <= i2 < i ==> #[trigger] results@[i2] as int == masked_dot(
                    query_vector@,
                    slot(continuous_buffer@, i2, packed_dimension as int),
                    dimension as int,
                ),
        decreases num_vectors - i,
    {
        proof {
            assert(i * packed_dimension + packed_dimension <= num_vectors * packed_dimension)
                by (nonlinear_arith)
                requires
                    i < num_vectors,
            ;
        }
        let target_offset = i * packed_dimension;
        let ghost t = slot(continuous_buffer@, i as int, packed_dimension as int);
        let mut dot_product: i32 = 0;
        let mut j: usize = 0;
        while j < main_packed_dimension
            invariant
                packed_dimension == (dimension + 7) / 8,
                main_packed_dimension == dimension / 8,
                dimension <= query_vector@.len(),
                target_offset + packed_dimension <= continuous_buffer@.len(),
                buffer_len == continuous_buffer@.len(),
                t == continuous_buffer@.subrange(target_offset as int, target_offset + packed_dimension),
                255 * dimension <= i32::MAX,
                j <= main_packed_dimension,
                dot_product as int == masked_dot(query_vector@, t, 8 * j as int),
            decreases main_packed_dimension - j,
        {
            let packed_value = continuous_buffer[target_offset + j];
            let query_offset = j * 8;
            proof {
                assert(t[j as int] == packed_value);
                lemma_masked_dot_byte(query_vector@, t, j as int);
                lemma_masked_dot_bounds(query_vector@, t, 8 * j as int + 8);
                lemma_masked_dot_bounds(query_vector@, t, 8 * j as int);
                assert(((packed_value >> 7u8) & 1u8) <= 1u8) by (bit_vector);
                assert(((packed_value >> 6u8) & 1u8) <= 1u8) by (bit_vector);
                assert(((packed_value >> 5u8) & 1u8) <= 1u8) by (bit_vector);
                assert(((packed_value >> 4u8) & 1u8) <= 1u8) by (bit_vector);
                assert(((packed_value >> 3u8) & 1u8) <= 1u8) by (bit_vector);
                assert(((packed_value >> 2u8) & 1u8) <= 1u8) by (bit_vector);
                assert(((packed_value >> 1u8) & 1u8) <= 1u8) by (bit_vector);
                assert((packed_value & 1u8) <= 1u8) by (bit_vector);
                assert(packed_value >> 0u8 == packed_value) by (bit_vector);
            }
            let mut byte_sum: i32 = 0;
            byte_sum = byte_sum + (query_vector[query_offset] as i32) * (((packed_value >> 7) & 1) as i32);
            byte_sum = byte_sum + (query_vector[query_offset + 1] as i32) * (((packed_value >> 6) & 1) as i32);
            byte_sum = byte_sum + (query_vector[query_offset + 2] as i32) * (((packed_value >> 5) & 1) as i32);
            byte_sum = byte_sum + (query_vector[query_offset + 3] as i32) * (((packed_value >> 4) & 1) as i32);
            byte_sum = byte_sum + (query_vector[query_offset + 4] as i32) * (((packed_value >> 3) & 1) as i32);
            byte_sum = byte_sum + (query_vector[query_offset + 5] as i32) * (((packed_value >> 2) & 1) as i32);
            byte_sum = byte_sum + (query_vector[query_offset + 6] as i32) * (((packed_value >> 1) & 1) as i32);
            byte_sum = byte_sum + (query_vector[query_offset + 7] as i32) * ((packed_value & 1) as i32);
            dot_product = dot_product + byte_sum;
            j = j + 1;
        }
        let remainder_start_dim = main_packed_dimension * 8;
        if remainder_start_dim < dimension {
            let last_packed_value = continuous_buffer[target_offset + main_packed_dimension];
            let mut dim: usize = remainder_start_dim;
            while dim < dimension
                invariant
                    packed_dimension == (dimension + 7) / 8,
                    main_packed_dimension == dimension / 8,
                    remainder_start_dim == main_packed_dimension * 8,
                    remainder_start_dim <= dim <= dimension,
                    dimension <= query_vector@.len(),
                    target_offset + packed_dimension <= continuous_buffer@.len(),
                    buffer_len == continuous_buffer@.len(),
                    t == continuous_buffer@.subrange(target_offset as int, target_offset + packed_dimension),
                    main_packed_dimension < packed_dimension,
                    last_packed_value == t[main_packed_dimension as int],
                    255 * dimension <= i32::MAX,
                    dot_product as int == masked_dot(query_vector@, t, dim as int),
                decreases dimension - dim,
            {
                let bit_index = 7 - (dim % 8) as u8;
                let target_value = ((last_packed_value >> bit_index) & 1) as i32;
                proof {
                    assert(dim as int / 8 == main_packed_dimension as int);
                    lemma_msb_bit_le_one(last_packed_value, dim as int % 8);
                    lemma_masked_dot_bounds(query_vector@, t, dim as int);
                    let a = query_vector@[dim as int] as int;
                    let b = target_value as int;
                    assert(0 <= a * b <= 255) by (nonlinear_arith)
                        requires
                            0 <= a <= 255,
                            0 <= b <= 1,
                    ;
                }
                dot_product = dot_product + (query_vector[dim] as i32) * target_value;
                dim = dim + 1;
            }
        }
        results.push(dot_product);
        i = i + 1;
    }
    results
}

/// One-bit dot products of a packed query code with `num_vectors` packed codes
/// of `packed_dimension` bytes each laid back to back in `continuous_buffer`:
/// per code, the number of bits less twice the Hamming distance.
pub fn compute_batch_one_bit_dot_product_direct_packed(
    query_vector: &[u8],
    continuous_buffer: &[u8],
    num_vectors: usize,
    packed_dimension: usize,
) -> (results: Vec<i32>)
    requires
        packed_dimension <= query_vector@.len(),
        num_vectors * packed_dimension <= continuous_buffer@.len(),
        8 * packed_dimension <= i32::MAX,
    ensures
        results@.len() == num_vectors,
        forall|i: int|
            0 <= i < num_vectors ==> #[trigger] results@[i] as int == 8 * packed_dimension
                - 2 * hamming_upto(
                query_vector@,
                slot(continuous_buffer@, i, packed_dimension as int),
                packed_dimension as int,
            ),
{
    let buffer_len = continuous_buffer.len();
    let mut results: Vec<i32> = Vec::with_capacity(num_vectors);
    let mut i: usize = 0;
    while i < num_vectors
        invariant
            packed_dimension <= query_vector@.len(),
            num_vectors * packed_dimension <= continuous_buffer@.len(),
            buffer_len == continuous_buffer@.len(),
            8 * packed_dimension <= i32::MAX,
            i <= num_vectors,
            results@.len() == i,
            forall|i2: int|
                0 <= i2 < i ==> #[trigger] results@[i2] as int == 8 * packed_dimension
                    - 2 * hamming_upto(
                    query_vector@,
                    slot(continuous_buffer@, i2, packed_dimension as int),
                    packed_dimension as int,
                ),
        decreases num_vectors - i,
    {
        proof {
            assert(i * packed_dimension + packed_dimension <= num_vectors * packed_dimension)
                by (nonlinear_arith)
                requires
                    i < num_vectors,
            ;
        }
        let target_offset = i * packed_dimension;
        let hamming_distance = packed_hamming(query_vector, continuous_buffer, target_offset, packed_dimension) as i32;
        let total_bits = (8 * packed_dimension) as i32;
        results.push(total_bits - hamming_distance - hamming_distance);
        i = i + 1;
    }
    results
}

/// Copies the codes `vectors[indices[0]], vectors[indices[1]], ...` into one
/// buffer of `packed_size`-byte slots, each code cut or zero-padded to its slot.
pub fn create_direct_packed_buffer(
    vectors: &[Vec<u8>],
    indices: &[usize],
    packed_size: usize,
) -> (buffer: Vec<u8>)
    requires
        forall|i: int| 0 <= i < indices@.len() ==> #[trigger] indices@[i] < vectors@.len(),
        indices@.len() * packed_size <= usize::MAX,
    ensures
        buffer@.len() == indices@.len() * packed_size,
        forall|i: int|
            0 <= i < indices@.len() ==> #[trigger] slot(buffer@, i, packed_size as int) == fit(
                vectors@[indices@[i] as int]@,
                packed_size as int,
            ),
{
    let mut buffer: Vec<u8> = Vec::new();
    let mut i: usize = 0;
    while i < indices.len()
        invariant
            forall|i2: int| 0 <= i2 < indices@.len() ==> #[trigger] indices@[i2] < vectors@.len(),
            indices@.len() * packed_size <= usize::MAX,
            i <= indices@.len(),
            buffer@.len() == i * packed_size,
            forall|i2: int|
                0 <= i2 < i ==> #[trigger] slot(buffer@, i2, packed_size as int) == fit(
                    vectors@[indices@[i2] as int]@,
                    packed_size as int,
                ),
        decreases indices@.len() - i,
    {
        proof {
            assert(i * packed_size + packed_size <= indices@.len() * packed_size) by (nonlinear_arith)
                requires
                    i < indices@.len(),
            ;
            assert((i + 1) * packed_size == i * packed_size + packed_size) by (nonlinear_arith);
        }
        let vector = &vectors[indices[i]];
        let ghost start = buffer@.len();
        let ghost before = buffer@;
        let mut j: usize = 0;
        while j < packed_size
            invariant
                start == i * packed_size,
                start + packed_size <= usize::MAX,
                j <= packed_size,
                buffer@.len() == start + j,
                buffer@.subrange(0, start as int) == before,
                buffer@.subrange(start as int, start + j) == fit(vector@, packed_size as int).subrange(0, j as int),
            decreases packed_size - j,
        {
            let value = if j < vector.len() { vector[j] } else { 0u8 };
            buffer.push(value);
            j = j + 1;
            proof {
                assert(buffer@.subrange(0, start as int) =~= before);
                assert(buffer@.subrange(start as int, start + j) =~= fit(vector@, packed_size as int).subrange(0, j as int));
            }
        }
        proof {
            assert(fit(vector@, packed_size as int).subrange(0, packed_size as int) =~= fit(vector@, packed_size as int));
            assert forall|i2: int| 0 <= i2 < i + 1 implies #[trigger] slot(buffer@, i2, packed_size as int) == fit(
                vectors@[indices@[i2] as int]@,
                packed_size as int,
            ) by {
                if i2 < i {
                    assert(i2 * packed_size + packed_size <= i * packed_size) by (nonlinear_arith)
                        requires
                            i2 < i,
                    ;
                    assert(slot(buffer@, i2, packed_size as int) =~= slot(before, i2, packed_size as int));
                }
            }
        }
        i = i + 1;
    }
    buffer
}

/// `masked_dot` is the reference dot product against the unpacked code.
proof fn lemma_masked_dot_is_dot(q: Seq<u8>, p: Seq<u8>, n: int)
    requires
        0 <= n <= q.len(),
        n <= 8 * p.len(),
    ensures
        masked_dot(q, p, n) == dot_upto(q, unpack(p), n),
    decreases n,
{
    if n > 0 {
        lemma_masked_dot_is_dot(q, p, n - 1);
    }
}

proof fn lemma_dot_upto_prefix(a1: Seq<u8>, b1: Seq<u8>, a2: Seq<u8>, b2: Seq<u8>, n: int)
    requires
        0 <= n <= a1.len(),
        n <= a2.len(),
        n <= b1.len(),
        n <= b2.len(),
        forall|j: int| 0 <= j < n ==> a1[j] == a2[j] && b1[j] == b2[j],
    ensures
        dot_upto(a1, b1, n) == dot_upto(a2, b2, n),
    decreases n,
{
    if n > 0 {
        lemma_dot_upto_prefix(a1, b1, a2, b2, n - 1);
    }
}

/// Batched four-bit scoring agrees with the single-pair kernel: the value the
/// batch gives for target `i` is the reference dot product of the query's
/// first `dimension` components with that target's unpacked code.
pub proof fn lemma_batch_four_bit_matches_pairwise(
    query: Seq<u8>,
    buffer: Seq<u8>,
    num_vectors: int,
    dimension: int,
    i: int,
)
    requires
        0 <= dimension <= query.len(),
        0 <= i < num_vectors,
        num_vectors * ((dimension + 7) / 8) <= buffer.len(),
    ensures
        masked_dot(query, slot(buffer, i, (dimension + 7) / 8), dimension) == dot(
            query.take(dimension),
            unpack(slot(buffer, i, (dimension + 7) / 8)).take(dimension),
        ),
{
    let pd = (dimension + 7) / 8;
    assert(0 <= i * pd && i * pd + pd <= num_vectors * pd) by (nonlinear_arith)
        requires
            0 <= i < num_vectors,
            0 <= pd,
    ;
    let t = slot(buffer, i, pd);
    lemma_masked_dot_is_dot(query, t, dimension);
    lemma_dot_upto_prefix(query, unpack(t), query.take(dimension), unpack(t).take(dimension), dimension);
}

/// Batched one-bit scoring agrees with the single-pair packed kernel applied
/// to the query's first `packed_dimension` bytes and target `i`'s slot.
pub proof fn lemma_batch_one_bit_matches_pairwise(
    query: Seq<u8>,
    buffer: Seq<u8>,
    num_vectors: int,
    packed_dimension: int,
    i: int,
)
    requires
        0 <= packed_dimension <= query.len(),
        0 <= i < num_vectors,
        num_vectors * packed_dimension <= buffer.len(),
    ensures
        8 * packed_dimension - 2 * hamming_upto(
            query,
            slot(buffer, i, packed_dimension),
            packed_dimension,
        ) == packed_dot(query.take(packed_dimension), slot(buffer, i, packed_dimension)),
{
    assert(0 <= i * packed_dimension && i * packed_dimension + packed_dimension <= num_vectors
        * packed_dimension) by (nonlinear_arith)
        requires
            0 <= i < num_vectors,
            0 <= packed_dimension,
    ;
    let t = slot(buffer, i, packed_dimension);
    lemma_hamming_prefix(query, t, query.take(packed_dimension), t, packed_dimension);
}

} // verus!
