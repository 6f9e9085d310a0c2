//! Integer core of a binary-quantization vector search library: bit packing,
//! dot-product kernels over quantized codes, quantization-level assignment,
//! the quantized corpus store, request validation and top-k ranking.

pub mod bits;
pub mod error;
pub mod bitwise_dot_product;
pub mod batch_dot_product;
pub mod packing;
pub mod levels;
pub mod ranking;
pub mod score_batch;
pub mod corpus;

pub use error::QuantError;
pub use bitwise_dot_product::{
    compute_quantized_dot_product,
    compute_int4_bit_dot_product,
    compute_int1_bit_dot_product,
    compute_packed_bit_dot_product,
};
pub use batch_dot_product::{
    compute_batch_four_bit_dot_product_direct_packed,
    compute_batch_one_bit_dot_product_direct_packed,
    create_direct_packed_buffer,
};
pub use packing::pack_as_binary;
pub use levels::{assign_levels, check_bits, check_quantize_args, MAX_BITS, MIN_BITS};
pub use ranking::rank_top_k;
pub use score_batch::{compute_batch_bit_dot_products, compute_batch_reference_dot_products, compute_pair_bit_dot_product};
pub use corpus::{check_corpus, check_index_config, check_search_request, CorpusCodes, SEARCH_BATCH_SIZE};
