use bbq::{
    compute_batch_four_bit_dot_product_direct_packed, compute_batch_one_bit_dot_product_direct_packed,
    compute_int1_bit_dot_product, compute_int4_bit_dot_product, compute_packed_bit_dot_product,
    compute_quantized_dot_product, create_direct_packed_buffer, QuantError,
};

fn unpack(p: &[u8]) -> Vec<u8> {
    let mut out = Vec::new();
    for &b in p {
        for k in 0..8 {
            out.push((b >> (7 - k)) & 1);
        }
    }
    out
}

#[test]
fn test_batch_four_bit_dot_product() {
    let query = vec![1, 2, 3, 4, 5, 6, 7, 8];
    let buffer = vec![0xFF, 0x00];
    let results = compute_batch_four_bit_dot_product_direct_packed(&query, &buffer, 2, 8);
    assert_eq!(results[0], 36);
    assert_eq!(results[1], 0);
}

#[test]
fn test_batch_one_bit_dot_product() {
    let query = vec![0xFF];
    let buffer = vec![0xFF, 0x00, 0xF0];
    let results = compute_batch_one_bit_dot_product_direct_packed(&query, &buffer, 3, 1);
    assert_eq!(results[0], 8);
    assert_eq!(results[1], -8);
    assert_eq!(results[2], 0);
}

#[test]
fn test_create_direct_packed_buffer() {
    let vectors = vec![vec![1, 2, 3], vec![4, 5, 6], vec![7, 8, 9]];
    let indices = vec![0, 2];
    let buffer = create_direct_packed_buffer(&vectors, &indices, 3);
    assert_eq!(buffer.len(), 6);
    assert_eq!(&buffer[0..3], &[1, 2, 3]);
    assert_eq!(&buffer[3..6], &[7, 8, 9]);
}

#[test]
fn test_quantized_dot_product() {
    let q = vec![1, 2, 3, 4];
    let d = vec![5, 6, 7, 8];
    let result = compute_quantized_dot_product(&q, &d).unwrap();
    assert_eq!(result, 70);
}

#[test]
fn test_int4_bit_dot_product() {
    let q = vec![15, 14, 13, 12];
    let d = vec![1, 1, 0, 1];
    let result = compute_int4_bit_dot_product(&q, &d).unwrap();
    assert_eq!(result, 41);
}

#[test]
fn test_packed_bit_dot_product() {
    let q = vec![0b11110000];
    let d = vec![0b11001100];
    let result = compute_packed_bit_dot_product(&q, &d).unwrap();
    assert_eq!(result, 0);
}

#[test]
fn int1_bit_dot_product_counts_common_ones() {
    let q = vec![1, 0, 1, 1, 0];
    let d = vec![1, 1, 1, 0, 0];
    assert_eq!(compute_int1_bit_dot_product(&q, &d), Ok(2));
}

#[test]
fn dot_products_reject_length_mismatch() {
    let q = vec![1, 2, 3];
    let d = vec![1, 2];
    let expected = Err(QuantError::DimensionMismatch { expected: 3, found: 2 });
    assert_eq!(compute_quantized_dot_product(&q, &d), expected);
    assert_eq!(compute_int4_bit_dot_product(&q, &d), expected);
    assert_eq!(compute_int1_bit_dot_product(&q, &d), expected);
    assert_eq!(compute_packed_bit_dot_product(&q, &d), expected);
}

#[test]
fn dot_products_of_empty_codes_are_zero() {
    let empty: Vec<u8> = Vec::new();
    assert_eq!(compute_quantized_dot_product(&empty, &empty), Ok(0));
    assert_eq!(compute_packed_bit_dot_product(&empty, &empty), Ok(0));
}

#[test]
fn quantized_dot_product_of_largest_bytes() {
    let q = vec![255u8; 3];
    let d = vec![255u8; 3];
    assert_eq!(compute_quantized_dot_product(&q, &d), Ok(3 * 65025));
}

#[test]
fn packed_dot_equals_plus_minus_one_dot_of_unpacked_bits() {
    let q = vec![0b1011_0010u8, 0x5A, 0x00];
    let d = vec![0b0011_1110u8, 0xA5, 0xFF];
    let expected: i32 = unpack(&q)
        .iter()
        .zip(unpack(&d).iter())
        .map(|(&a, &b)| if a == b { 1 } else { -1 })
        .sum();
    assert_eq!(compute_packed_bit_dot_product(&q, &d), Ok(expected));
}

#[test]
fn packed_dot_equals_unpacked_dot_when_zero_agreements_match_differences() {
    // Both codes are 0 at two places and differ at two.
    let q = vec![0b1111_1000u8];
    let d = vec![0b1111_0100u8];
    let naive = compute_quantized_dot_product(&unpack(&q), &unpack(&d)).unwrap();
    assert_eq!(compute_packed_bit_dot_product(&q, &d), Ok(naive));
    assert_eq!(naive, 4);
}

#[test]
fn packed_dot_differs_from_unpacked_dot_on_all_zero_codes() {
    let q = vec![0u8];
    let d = vec![0u8];
    assert_eq!(compute_packed_bit_dot_product(&q, &d), Ok(8));
    assert_eq!(compute_quantized_dot_product(&unpack(&q), &unpack(&d)), Ok(0));
}

#[test]
fn batch_four_bit_matches_pairwise_with_partial_byte() {
    let dimension = 13;
    let query: Vec<u8> = (0..dimension as u8).map(|i| (i * 7) % 16).collect();
    let targets: Vec<Vec<u8>> = vec![vec![0b1011_0110, 0b1101_1111], vec![0xFF, 0xFF], vec![0x00, 0b0000_0111]];
    let ords: Vec<usize> = vec![0, 1, 2];
    let buffer = create_direct_packed_buffer(&targets, &ords, 2);
    let batch = compute_batch_four_bit_dot_product_direct_packed(&query, &buffer, 3, dimension);
    for (i, t) in targets.iter().enumerate() {
        let unpacked: Vec<u8> = unpack(t)[..dimension].to_vec();
        let pair = compute_int4_bit_dot_product(&query, &unpacked).unwrap();
        assert_eq!(batch[i], pair);
    }
    // The all-ones target picks up every query component once.
    assert_eq!(batch[1], query.iter().map(|&x| x as i32).sum::<i32>());
    // Bits beyond the dimension in the last byte are ignored.
    assert_eq!(batch[2], 0);
}

#[test]
fn batch_one_bit_matches_pairwise() {
    let query = vec![0b1010_1010u8, 0b1100_0000];
    let targets: Vec<Vec<u8>> = vec![vec![0b1010_1010, 0b1100_0000], vec![0x0F, 0xF0], vec![0x55, 0x3F]];
    let ords: Vec<usize> = vec![2, 0, 1];
    let buffer = create_direct_packed_buffer(&targets, &ords, 2);
    let batch = compute_batch_one_bit_dot_product_direct_packed(&query, &buffer, 3, 2);
    for (i, &o) in ords.iter().enumerate() {
        assert_eq!(batch[i], compute_packed_bit_dot_product(&query, &targets[o]).unwrap());
    }
    assert_eq!(batch[1], 16);
    assert_eq!(batch[0], -16);
}

#[test]
fn direct_packed_buffer_pads_and_cuts() {
    let vectors = vec![vec![9u8], vec![1, 2, 3, 4, 5]];
    let indices = vec![1, 0, 1];
    let buffer = create_direct_packed_buffer(&vectors, &indices, 3);
    assert_eq!(buffer, vec![1, 2, 3, 9, 0, 0, 1, 2, 3]);
}

#[test]
fn batches_with_no_targets_are_empty() {
    let query = vec![1u8; 8];
    let empty: Vec<u8> = Vec::new();
    assert!(compute_batch_four_bit_dot_product_direct_packed(&query, &empty, 0, 8).is_empty());
    assert!(compute_batch_one_bit_dot_product_direct_packed(&query, &empty, 0, 1).is_empty());
    let none: Vec<Vec<u8>> = Vec::new();
    let no_ords: Vec<usize> = Vec::new();
    assert!(create_direct_packed_buffer(&none, &no_ords, 4).is_empty());
}
