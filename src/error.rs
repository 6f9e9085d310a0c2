use vstd::prelude::*;

verus! {

/// Failures reported by the library; every one is a recoverable value.
#[derive(Debug, Clone, Copy, PartialEq, Eq, Structural)]
pub enum QuantError {
    /// A quantization bit-width outside `1..=8`.
    Config { bits: u8 },
    /// Two lengths that must agree do not.
    DimensionMismatch { expected: usize, found: usize },
    /// An empty corpus or an empty query.
    EmptyInput,
    /// A component handed to binary packing that is neither 0 nor 1.
    InvalidBit { position: usize, value: u8 },
    /// A packing destination shorter than the packed form needs.
    BufferTooSmall { needed: usize, available: usize },
    /// A search on an index that has not been built.
    NotBuilt,
    /// A query bit-width that the single-pair scoring path does not serve.
    UnsupportedQueryBits { bits: u8 },
}

} // verus!
