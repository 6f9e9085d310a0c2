//! The integer stage of quantized scoring: the raw bit-level dot products
//! between a quantized query and quantized targets, chosen by query bit-width.

use vstd::prelude::*;
use crate::bits::{
    bit_at, dot, fit, hamming_upto, is_binary, masked_dot, signed_dot_upto, slot, unpack,
    lemma_dot_upto_bound,
};
use crate::bitwise_dot_product::{
    compute_int1_bit_dot_product, compute_int4_bit_dot_product, compute_quantized_dot_product,
    lemma_packed_dot_is_signed_dot,
};
use crate::batch_dot_product::{
    compute_batch_four_bit_dot_product_direct_packed, compute_batch_one_bit_dot_product_direct_packed,
    create_direct_packed_buffer,
};
use crate::packing::{first_invalid, pack_as_binary, packed_len};
use crate::error::QuantError;

verus! {

/// Raw dot product between one query code and one unpacked target code, for
/// the query bit-widths the single-pair path serves (1 and 4).
pub fn compute_pair_bit_dot_product(quantized_query: &[u8], quantized_index: &[u8], query_bits: u8) -> (r: Result<i32, QuantError>)
    requires
        quantized_query@.len() == quantized_index@.len() ==> dot(quantized_query@, quantized_index@) <= i32::MAX,
    ensures
        query_bits != 1 && query_bits != 4 ==> r == Err::<i32, QuantError>(QuantError::UnsupportedQueryBits { bits: query_bits }),
        (query_bits == 1 || query_bits == 4) && quantized_query@.len() != quantized_index@.len() ==> r == Err::<i32, QuantError>(
            QuantError::DimensionMismatch { expected: quantized_query@.len() as usize, found: quantized_index@.len() as usize },
        ),
        (query_bits == 1 || query_bits == 4) && quantized_query@.len() == quantized_index@.len() ==> r == Ok::<i32, QuantError>(
            dot(quantized_query@, quantized_index@) as i32,
        ),
{
    if query_bits == 1 {
        compute_int1_bit_dot_product(quantized_query, quantized_index)
    } else if query_bits == 4 {
        compute_int4_bit_dot_product(quantized_query, quantized_index)
    } else {
        Err(QuantError::UnsupportedQueryBits { bits: query_bits })
    }
}

/// The first target in `target_ords` whose code length differs from `dimension`.
pub open spec fn first_misfit(target_vectors: Seq<Vec<u8>>, target_ords: Seq<usize>, dimension: int, i: int) -> bool {
    &&& 0 <= i < target_ords.len()
    &&& target_vectors[target_ords[i] as int]@.len() != dimension
    &&& forall|j: int| 0 <= j < i ==> #[trigger] target_vectors[target_ords[j] as int]@.len() == dimension
}

/// The raw dot product that batch scoring computes for one target:
/// - four-bit queries: the query against the target's one-bit code, packed in
///   `ceil(dimension / 8)` bytes;
/// - one-bit queries: the `±1` dot product of the query's bits (zero-padded to
///   whole bytes) with the target's packed bits;
/// - any other width: the reference dot product with the unpacked target code.
pub open spec fn raw_dot(query: Seq<u8>, target: Seq<u8>, query_bits: u8, dimension: int) -> int {
    let pd = packed_len(dimension);
    if query_bits == 4 {
        masked_dot(query, fit(target, pd), dimension)
    } else if query_bits == 1 {
        signed_dot_upto(fit(query, 8 * pd), unpack(fit(target, pd)), 8 * pd)
    } else {
        dot(query, target)
    }
}

/// The inputs on which batch scoring succeeds: a query of `dimension`
/// components that, for one bit, is 0/1, and for a width other than 1 or 4,
/// targets of `dimension` components too.
pub open spec fn batch_ready(
    query: Seq<u8>,
    target_vectors: Seq<Vec<u8>>,
    target_ords: Seq<usize>,
    query_bits: u8,
    dimension: int,
) -> bool {
    &&& query.len() == dimension
    &&& query_bits == 1 ==> is_binary(query)
    &&& query_bits != 1 && query_bits != 4 ==> forall|i: int|
        0 <= i < target_ords.len() ==> #[trigger] target_vectors[target_ords[i] as int]@.len() == dimension
}

/// Every raw dot product of a batch fits in `i32`: four-bit queries add at
/// most 255 per component, one-bit queries at most one per packed bit, and
/// the byte-by-byte path at most `255 * 255` per component.
pub open spec fn batch_fits(query_bits: u8, dimension: int) -> bool {
    if query_bits == 4 {
        255 * dimension <= i32::MAX
    } else if query_bits == 1 {
        8 * packed_len(dimension) <= i32::MAX
    } else {
        65025 * dimension <= i32::MAX
    }
}

/// Raw dot products (see `raw_dot`) between a quantized query of `dimension`
/// components and the targets `target_vectors[target_ords[i]]`, in
/// `target_ords` order.
pub fn compute_batch_bit_dot_products(
    quantized_query: &[u8],
    target_vectors: &[Vec<u8>],
    target_ords: &[usize],
    query_bits: u8,
    dimension: usize,
) -> (r: Result<Vec<i32>, QuantError>)
    requires
        forall|i: int| 0 <= i < target_ords@.len() ==> #[trigger] target_ords@[i] < target_vectors@.len(),
        batch_fits(query_bits, dimension as int),
        query_bits == 1 || query_bits == 4 ==> target_ords@.len() * packed_len(dimension as int) <= usize::MAX,
    ensures
        r is Ok <==> batch_ready(quantized_query@, target_vectors@, target_ords@, query_bits, dimension as int),
        r matches Ok(v) ==> v@.len() == target_ords@.len() && forall|i: int| 0 <= i < target_ords@.len()
            ==> #[trigger] v@[i] as int == raw_dot(
                quantized_query@,
                target_vectors@[target_ords@[i] as int]@,
                query_bits,
                dimension as int,
            ),
        quantized_query@.len() != dimension ==> r == Err::<Vec<i32>, QuantError>(
            QuantError::DimensionMismatch { expected: dimension, found: quantized_query@.len() as usize },
        ),
        quantized_query@.len() == dimension && query_bits == 1 && !is_binary(quantized_query@) ==> exists|p: int|
            first_invalid(quantized_query@, p) && r == Err::<Vec<i32>, QuantError>(
                QuantError::InvalidBit { position: p as usize, value: quantized_query@[p] },
            ),
        quantized_query@.len() == dimension && query_bits != 1 && query_bits != 4 ==> forall|i: int|
            #[trigger] first_misfit(target_vectors@, target_ords@, dimension as int, i) ==> r == Err::<Vec<i32>, QuantError>(
                QuantError::DimensionMismatch {
                    expected: dimension,
                    found: target_vectors@[target_ords@[i] as int]@.len() as usize,
                },
            ),
{
    if quantized_query.len() != dimension {
        return Err(QuantError::DimensionMismatch { expected: dimension, found: quantized_query.len() });
    }
    let packed_size = dimension / 8 + if dimension % 8 == 0 { 0 } else { 1 };
    let num = target_ords.len();
    if query_bits == 4 {
        let buffer = create_direct_packed_buffer(target_vectors, target_ords, packed_size);
        let v = compute_batch_four_bit_dot_product_direct_packed(quantized_query, buffer.as_slice(), num, dimension);
        Ok(v)
    } else if query_bits == 1 {
        let mut packed_query: Vec<u8> = Vec::new();
        let mut j: usize = 0;
        while j < packed_size
            invariant
                j <= packed_size,
                packed_query@.len() == j,
            decreases packed_size - j,
        {
            packed_query.push(0u8);
            j = j + 1;
        }
        let packed_result = pack_as_binary(quantized_query, packed_query.as_mut_slice());
        match packed_result {
            Err(e) => {
                proof {
                    let c = choose|c: int| first_invalid(quantized_query@, c) && c / 8 <= packed_size as int;
                    assert(first_invalid(quantized_query@, c));
                }
                Err(e)
            },
            Ok(()) => {
                let buffer = create_direct_packed_buffer(target_vectors, target_ords, packed_size);
                let v = compute_batch_one_bit_dot_product_direct_packed(
                    packed_query.as_slice(),
                    buffer.as_slice(),
                    num,
                    packed_size,
                );
                proof {
                    let pq = packed_query@;
                    let q = quantized_query@;
                    assert(unpack(pq) =~= fit(q, 8 * packed_size as int)) by {
                        assert forall|i: int| 0 <= i < 8 * packed_size implies #[trigger] unpack(pq)[i] == fit(q, 8 * packed_size as int)[i] by {
                            assert(bit_at(pq, i) == if i < q.len() { q[i] } else { 0u8 });
                        }
                    }
                    assert forall|i: int| 0 <= i < num implies #[trigger] v@[i] as int == signed_dot_upto(
                        fit(q, 8 * packed_size as int),
                        unpack(fit(target_vectors@[target_ords@[i] as int]@, packed_size as int)),
                        8 * packed_size as int,
                    ) by {
                        let t = slot(buffer@, i, packed_size as int);
                        assert(pq.take(packed_size as int) =~= pq);
                        lemma_packed_dot_is_signed_dot(pq, t);
                        assert(hamming_upto(pq, t, packed_size as int) == hamming_upto(pq, t, pq.len() as int));
                    }
                }
                Ok(v)
            },
        }
    } else {
        compute_batch_reference_dot_products(quantized_query, target_vectors, target_ords, dimension)
    }
}

/// Reference dot products between a query code of `dimension` components and
/// the unpacked codes `target_vectors[target_ords[i]]`, in `target_ords`
/// order. Fails on the query, or on the first target, whose length is not
/// `dimension`.
pub fn compute_batch_reference_dot_products(
    quantized_query: &[u8],
    target_vectors: &[Vec<u8>],
    target_ords: &[usize],
    dimension: usize,
) -> (r: Result<Vec<i32>, QuantError>)
    requires
        forall|i: int| 0 <= i < target_ords@.len() ==> #[trigger] target_ords@[i] < target_vectors@.len(),
        65025 * dimension <= i32::MAX,
    ensures
        quantized_query@.len() != dimension ==> r == Err::<Vec<i32>, QuantError>(
            QuantError::DimensionMismatch { expected: dimension, found: quantized_query@.len() as usize },
        ),
        r is Ok <==> quantized_query@.len() == dimension && forall|i: int|
            0 <= i < target_ords@.len() ==> #[trigger] target_vectors@[target_ords@[i] as int]@.len() == dimension,
        quantized_query@.len() == dimension ==> forall|i: int|
            #[trigger] first_misfit(target_vectors@, target_ords@, dimension as int, i) ==> r == Err::<Vec<i32>, QuantError>(
                QuantError::DimensionMismatch {
                    expected: dimension,
                    found: target_vectors@[target_ords@[i] as int]@.len() as usize,
                },
            ),
        r matches Ok(v) ==> v@.len() == target_ords@.len() && forall|i: int| 0 <= i < target_ords@.len()
            ==> #[trigger] v@[i] as int == dot(quantized_query@, target_vectors@[target_ords@[i] as int]@),
{
    if quantized_query.len() != dimension {
        return Err(QuantError::DimensionMismatch { expected: dimension, found: quantized_query.len() });
    }
    let num = target_ords.len();
    let mut results: Vec<i32> = Vec::with_capacity(num);
    let mut i: usize = 0;
    while i < num
        invariant
            forall|i2: int| 0 <= i2 < target_ords@.len() ==> #[trigger] target_ords@[i2] < target_vectors@.len(),
            65025 * dimension <= i32::MAX,
            quantized_query@.len() == dimension,
            num == target_ords@.len(),
            i <= num,
            results@.len() == i,
            forall|i2: int| 0 <= i2 < i ==> #[trigger] target_vectors@[target_ords@[i2] as int]@.len() == dimension,
            forall|i2: int| 0 <= i2 < i ==> #[trigger] results@[i2] as int == dot(
                quantized_query@,
                target_vectors@[target_ords@[i2] as int]@,
            ),
        decreases num - i,
    {
        let target = &target_vectors[target_ords[i]];
        proof {
            if target@.len() == dimension {
                lemma_dot_upto_bound(quantized_query@, target@, dimension as int);
            }
        }
        let value = compute_quantized_dot_product(quantized_query, target.as_slice());
        match value {
            Ok(x) => {
                results.push(x);
            },
            Err(e) => {
                proof {
                    assert(first_misfit(target_vectors@, target_ords@, dimension as int, i as int));
                    assert forall|i2: int| #[trigger] first_misfit(target_vectors@, target_ords@, dimension as int, i2) implies i2 == i by {
                        if i2 < i {
                        } else if i2 > i {
                            assert(target_vectors@[target_ords@[i as int] as int]@.len() == dimension);
                        }
                    }
                }
                return Err(e);
            },
        }
        i = i + 1;
    }
    Ok(results)
}

} // verus!
