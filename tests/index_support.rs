use bbq::{
    check_corpus, check_index_config, check_search_request, compute_batch_bit_dot_products,
    compute_batch_reference_dot_products, compute_pair_bit_dot_product, rank_top_k, CorpusCodes, QuantError, SEARCH_BATCH_SIZE,
};

#[test]
fn top_k_is_sorted_and_truncated() {
    let keys: Vec<u32> = vec![5, 9, 1, 9, 7];
    assert_eq!(rank_top_k(&keys, 3), vec![1, 3, 4]);
    assert_eq!(rank_top_k(&keys, 10), vec![1, 3, 4, 0, 2]);
    assert!(rank_top_k(&keys, 0).is_empty());
    let none: Vec<u32> = Vec::new();
    assert!(rank_top_k(&none, 4).is_empty());
}

#[test]
fn top_k_keeps_ordinal_order_on_ties() {
    let keys: Vec<u32> = vec![3, 3, 3, 3];
    assert_eq!(rank_top_k(&keys, 2), vec![0, 1]);
}

#[test]
fn index_config_bits_are_checked_query_first() {
    assert_eq!(check_index_config(4, 1), Ok(()));
    assert_eq!(check_index_config(0, 9), Err(QuantError::Config { bits: 0 }));
    assert_eq!(check_index_config(4, 9), Err(QuantError::Config { bits: 9 }));
}

#[test]
fn empty_corpus_is_rejected() {
    let vectors: Vec<Vec<i32>> = Vec::new();
    assert_eq!(check_corpus(&vectors), Err(QuantError::EmptyInput));
}

#[test]
fn corpus_dimensions_must_agree() {
    let vectors = vec![vec![1i32, 2], vec![3, 4], vec![5], vec![6, 7, 8]];
    assert_eq!(check_corpus(&vectors), Err(QuantError::DimensionMismatch { expected: 2, found: 1 }));
    let good = vec![vec![1i32, 2], vec![3, 4]];
    assert_eq!(check_corpus(&good), Ok(2));
}

fn one_bit_corpus() -> CorpusCodes {
    let mut corpus = CorpusCodes::new(8, 1).unwrap();
    corpus.push_codes(vec![1, 1, 0, 0, 1, 0, 1, 0]).unwrap();
    corpus.push_codes(vec![0, 0, 1, 1, 0, 1, 0, 1]).unwrap();
    corpus.push_codes(vec![1, 1, 1, 1, 0, 0, 0, 0]).unwrap();
    corpus
}

#[test]
fn search_before_build_is_a_state_error() {
    let query = vec![1i32; 8];
    assert_eq!(check_search_request(None, &query, 3), Err(QuantError::NotBuilt));
}

#[test]
fn search_request_checks() {
    let corpus = one_bit_corpus();
    let empty: Vec<i32> = Vec::new();
    assert_eq!(check_search_request(Some(&corpus), &empty, 3), Err(QuantError::EmptyInput));
    let wrong = vec![1i32; 7];
    assert_eq!(
        check_search_request(Some(&corpus), &wrong, 3),
        Err(QuantError::DimensionMismatch { expected: 8, found: 7 })
    );
    assert_eq!(check_search_request(Some(&corpus), &wrong, 0), Ok(0));
    let query = vec![1i32; 8];
    assert_eq!(check_search_request(Some(&corpus), &query, 2), Ok(2));
    assert_eq!(check_search_request(Some(&corpus), &query, 10), Ok(3));
}

#[test]
fn corpus_stores_packed_and_unpacked_codes() {
    let corpus = one_bit_corpus();
    assert_eq!(corpus.size(), 3);
    assert_eq!(corpus.dimension(), 8);
    assert_eq!(corpus.index_bits(), 1);
    assert_eq!(corpus.vector_value(0), &[0b1100_1010u8]);
    assert_eq!(corpus.get_unpacked_vector(2), &[1u8, 1, 1, 1, 0, 0, 0, 0]);
}

#[test]
fn corpus_rejects_bad_codes() {
    assert!(CorpusCodes::new(8, 0).is_err());
    let mut corpus = CorpusCodes::new(4, 1).unwrap();
    assert_eq!(corpus.push_codes(vec![1, 0]), Err(QuantError::DimensionMismatch { expected: 4, found: 2 }));
    assert_eq!(corpus.push_codes(vec![1, 0, 3, 1]), Err(QuantError::InvalidBit { position: 2, value: 3 }));
    assert_eq!(corpus.size(), 0);
    let mut wide = CorpusCodes::new(4, 4).unwrap();
    wide.push_codes(vec![15, 3, 0, 7]).unwrap();
    assert_eq!(wide.vector_value(0), &[15u8, 3, 0, 7]);
}

#[test]
fn exact_match_scores_highest_among_one_bit_codes() {
    let corpus = one_bit_corpus();
    let query = vec![0u8, 0, 1, 1, 0, 1, 0, 1];
    let raw = corpus.raw_dot_products(&query, 1).unwrap();
    assert_eq!(raw, vec![-8, 8, 0]);
    let keys: Vec<u32> = raw.iter().map(|&x| (x + 100) as u32).collect();
    assert_eq!(rank_top_k(&keys, 1), vec![1]);
}

#[test]
fn four_bit_query_against_one_bit_corpus() {
    let corpus = one_bit_corpus();
    let query = vec![1u8, 2, 3, 4, 5, 6, 7, 8];
    let raw = corpus.raw_dot_products(&query, 4).unwrap();
    assert_eq!(raw, vec![1 + 2 + 5 + 7, 3 + 4 + 6 + 8, 1 + 2 + 3 + 4]);
}

#[test]
fn other_query_widths_use_the_reference_kernel() {
    let corpus = one_bit_corpus();
    let query = vec![3u8, 0, 1, 2, 0, 0, 3, 1];
    let raw = corpus.raw_dot_products(&query, 2).unwrap();
    assert_eq!(raw, vec![3 + 3, 1 + 2 + 1, 3 + 1 + 2]);
}

#[test]
fn raw_dot_products_reject_bad_queries() {
    let corpus = one_bit_corpus();
    let short = vec![1u8; 5];
    assert_eq!(corpus.raw_dot_products(&short, 4), Err(QuantError::DimensionMismatch { expected: 8, found: 5 }));
    let not_binary = vec![0u8, 1, 2, 0, 0, 0, 0, 0];
    assert_eq!(corpus.raw_dot_products(&not_binary, 1), Err(QuantError::InvalidBit { position: 2, value: 2 }));
}

#[test]
fn raw_dot_products_span_several_batches() {
    let mut corpus = CorpusCodes::new(3, 2).unwrap();
    let n = 2 * SEARCH_BATCH_SIZE + 5;
    for i in 0..n {
        corpus.push_codes(vec![(i % 4) as u8, 1, 0]).unwrap();
    }
    let query = vec![2u8, 1, 3];
    let raw = corpus.raw_dot_products(&query, 3).unwrap();
    assert_eq!(raw.len(), n);
    for i in 0..n {
        assert_eq!(raw[i], 2 * (i % 4) as i32 + 1);
    }
}

#[test]
fn pair_dot_product_serves_one_and_four_bits_only() {
    let q = vec![3u8, 1, 0];
    let d = vec![1u8, 1, 1];
    assert_eq!(compute_pair_bit_dot_product(&q, &d, 4), Ok(4));
    assert_eq!(compute_pair_bit_dot_product(&q, &d, 1), Ok(4));
    assert_eq!(compute_pair_bit_dot_product(&q, &d, 2), Err(QuantError::UnsupportedQueryBits { bits: 2 }));
}

#[test]
fn batch_bit_dot_products_follow_target_ords() {
    let targets: Vec<Vec<u8>> = vec![vec![0b1111_0000], vec![0b0000_1111]];
    let ords: Vec<usize> = vec![1, 0, 1];
    let query = vec![1u8, 1, 1, 1, 0, 0, 0, 0];
    let r = compute_batch_bit_dot_products(&query, &targets, &ords, 1, 8).unwrap();
    assert_eq!(r, vec![-8, 8, -8]);
    let q4 = vec![1u8, 2, 3, 4, 5, 6, 7, 8];
    let r4 = compute_batch_bit_dot_products(&q4, &targets, &ords, 4, 8).unwrap();
    assert_eq!(r4, vec![26, 10, 26]);
    let unpacked: Vec<Vec<u8>> = vec![vec![1, 0, 1], vec![1, 1]];
    let q3 = vec![2u8, 2, 2];
    assert_eq!(
        compute_batch_bit_dot_products(&q3, &unpacked, &[0, 1], 2, 3),
        Err(QuantError::DimensionMismatch { expected: 3, found: 2 })
    );
}

#[test]
fn wide_index_codes_use_the_reference_kernel() {
    let mut corpus = CorpusCodes::new(3, 4).unwrap();
    corpus.push_codes(vec![15, 3, 0]).unwrap();
    corpus.push_codes(vec![1, 1, 1]).unwrap();
    let query = vec![1u8, 2, 3];
    assert_eq!(corpus.raw_dot_products(&query, 4), Ok(vec![21, 6]));
    let binary_query = vec![1u8, 0, 1];
    assert_eq!(corpus.raw_dot_products(&binary_query, 1), Ok(vec![15, 2]));
}

#[test]
fn dimensions_beyond_byte_product_bound_are_scored() {
    let dimension = 40_000;
    let mut corpus = CorpusCodes::new(dimension, 1).unwrap();
    corpus.push_codes(vec![1u8; dimension]).unwrap();
    corpus.push_codes(vec![0u8; dimension]).unwrap();
    let four_bit = vec![15u8; dimension];
    assert_eq!(corpus.raw_dot_products(&four_bit, 4), Ok(vec![15 * 40_000, 0]));
    let one_bit = vec![1u8; dimension];
    assert_eq!(corpus.raw_dot_products(&one_bit, 1), Ok(vec![40_000, -40_000]));
}

#[test]
fn reference_batch_dot_products() {
    let targets: Vec<Vec<u8>> = vec![vec![1, 2, 3], vec![4, 5, 6], vec![7, 8]];
    let query = vec![1u8, 0, 2];
    assert_eq!(compute_batch_reference_dot_products(&query, &targets, &[1, 0], 3), Ok(vec![16, 7]));
    assert_eq!(
        compute_batch_reference_dot_products(&query, &targets, &[0, 2, 1], 3),
        Err(QuantError::DimensionMismatch { expected: 3, found: 2 })
    );
    assert_eq!(
        compute_batch_reference_dot_products(&query, &targets, &[0], 4),
        Err(QuantError::DimensionMismatch { expected: 4, found: 3 })
    );
}
