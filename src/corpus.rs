//! The quantized corpus of an index: one code per vector, by ordinal, in the
//! stored form scoring reads (packed when the index is one bit wide) and
//! unpacked; plus the checks that guard index construction and search.

use vstd::prelude::*;
use crate::bits::is_binary;
use crate::error::QuantError;
use crate::levels::{check_bits, valid_bits};
use crate::packing::{pack_as_binary, packed_len, packs_to, first_invalid};
use crate::score_batch::{
    batch_fits, batch_ready, compute_batch_bit_dot_products, compute_batch_reference_dot_products, raw_dot,
};
use crate::bits::dot;

verus! {

/// Number of targets scored together during search.
pub const SEARCH_BATCH_SIZE: usize = 1000;

/// Quantized codes of a corpus, by ordinal.
pub struct CorpusCodes {
    dimension: usize,
    index_bits: u8,
    vectors: Vec<Vec<u8>>,
    unpacked_vectors: Vec<Vec<u8>>,
}

impl CorpusCodes {
    /// Components per vector.
    pub closed spec fn spec_dimension(&self) -> nat {
        self.dimension as nat
    }

    /// Bit-width of the stored codes.
    pub closed spec fn spec_index_bits(&self) -> u8 {
        self.index_bits
    }

    /// The stored code of each ordinal: packed for one-bit indexes.
    pub closed spec fn stored(&self) -> Seq<Seq<u8>> {
        Seq::new(self.vectors@.len(), |o: int| self.vectors@[o]@)
    }

    /// The unpacked code of each ordinal, one byte per component.
    pub closed spec fn unpacked(&self) -> Seq<Seq<u8>> {
        Seq::new(self.unpacked_vectors@.len(), |o: int| self.unpacked_vectors@[o]@)
    }

    /// Each ordinal has an unpacked code of the index dimension and a stored
    /// code: its packed form for one-bit indexes, the code itself otherwise.
    pub open spec fn wf(&self) -> bool {
        &&& valid_bits(self.spec_index_bits())
        &&& self.stored().len() == self.unpacked().len()
        &&& forall|o: int| 0 <= o < self.unpacked().len() ==> (#[trigger] self.unpacked()[o]).len() == self.spec_dimension()
        &&& forall|o: int| 0 <= o < self.unpacked().len() ==> if self.spec_index_bits() == 1 {
            &&& is_binary(self.unpacked()[o])
            &&& (#[trigger] self.stored()[o]).len() == packed_len(self.spec_dimension() as int)
            &&& packs_to(self.unpacked()[o], self.stored()[o])
        } else {
            self.stored()[o] == self.unpacked()[o]
        }
    }

    /// An empty corpus of `dimension`-component codes `index_bits` wide.
    pub fn new(dimension: usize, index_bits: u8) -> (r: Result<Self, QuantError>)
        ensures
            r is Ok <==> valid_bits(index_bits),
            !valid_bits(index_bits) ==> r == Err::<Self, QuantError>(QuantError::Config { bits: index_bits }),
            r matches Ok(c) ==> c.wf() && c.spec_dimension() == dimension && c.spec_index_bits() == index_bits
                && c.unpacked().len() == 0,
    {
        match check_bits(index_bits) {
            Err(e) => Err(e),
            Ok(()) => {
                let c = CorpusCodes { dimension, index_bits, vectors: Vec::new(), unpacked_vectors: Vec::new() };
                proof {
                    assert(c.unpacked().len() == 0);
                }
                Ok(c)
            },
        }
    }

    /// Components per vector.
    pub fn dimension(&self) -> (r: usize)
        ensures
            r == self.spec_dimension(),
    {
        self.dimension
    }

    /// Bit-width of the stored codes.
    pub fn index_bits(&self) -> (r: u8)
        ensures
            r == self.spec_index_bits(),
    {
        self.index_bits
    }

    /// Number of codes.
    pub fn size(&self) -> (r: usize)
        requires
            self.wf(),
        ensures
            r == self.unpacked().len(),
    {
        self.unpacked_vectors.len()
    }

    /// The stored code of ordinal `ord`.
    pub fn vector_value(&self, ord: usize) -> (r: &[u8])
        requires
            self.wf(),
            ord < self.unpacked().len(),
        ensures
            r@ == self.stored()[ord as int],
    {
        self.vectors[ord].as_slice()
    }

    /// The unpacked code of ordinal `ord`.
    pub fn get_unpacked_vector(&self, ord: usize) -> (r: &[u8])
        requires
            self.wf(),
            ord < self.unpacked().len(),
        ensures
            r@ == self.unpacked()[ord as int],
    {
        self.unpacked_vectors[ord].as_slice()
    }

    /// Appends the code of the next ordinal, packing it for one-bit indexes.
    /// Fails, leaving the corpus as it was, when the code's length is not the
    /// index dimension or, for one bit, a component is neither 0 nor 1.
    pub fn push_codes(&mut self, codes: Vec<u8>) -> (r: Result<(), QuantError>)
        requires
            old(self).wf(),
        ensures
            final(self).wf(),
            final(self).spec_dimension() == old(self).spec_dimension(),
            final(self).spec_index_bits() == old(self).spec_index_bits(),
            codes@.len() != old(self).spec_dimension() ==> r == Err::<(), QuantError>(
                QuantError::DimensionMismatch { expected: old(self).spec_dimension() as usize, found: codes@.len() as usize },
            ),
            codes@.len() == old(self).spec_dimension() && old(self).spec_index_bits() == 1 && !is_binary(codes@) ==> exists|p: int|
                first_invalid(codes@, p) && r == Err::<(), QuantError>(QuantError::InvalidBit { position: p as usize, value: codes@[p] }),
            r is Ok <==> codes@.len() == old(self).spec_dimension() && (old(self).spec_index_bits() == 1 ==> is_binary(codes@)),
            r is Ok ==> final(self).unpacked() == old(self).unpacked().push(codes@),
            r is Ok && old(self).spec_index_bits() != 1 ==> final(self).stored() == old(self).stored().push(codes@),
            r is Err ==> final(self).unpacked() == old(self).unpacked() && final(self).stored() == old(self).stored(),
    {
        if codes.len() != self.dimension {
            return Err(QuantError::DimensionMismatch { expected: self.dimension, found: codes.len() });
        }
        let ghost old_stored = self.stored();
        let ghost old_unpacked = self.unpacked();
        if self.index_bits == 1 {
            let size = self.dimension / 8 + if self.dimension % 8 == 0 { 0 } else { 1 };
            let mut packed: Vec<u8> = Vec::new();
            let mut j: usize = 0;
            while j < size
                invariant
                    j <= size,
                    packed@.len() == j,
                decreases size - j,
            {
                packed.push(0u8);
                j = j + 1;
            }
            match pack_as_binary(codes.as_slice(), packed.as_mut_slice()) {
                Err(e) => {
                    proof {
                        let c = choose|c: int| first_invalid(codes@, c) && c / 8 <= size as int;
                        assert(first_invalid(codes@, c));
                    }
                    return Err(e);
                },
                Ok(()) => {
                    proof {
                        assert(is_binary(codes@));
                        assert(packs_to(codes@, packed@));
                    }
                    self.vectors.push(packed);
                },
            }
        } else {
            let copy = codes.clone();
            proof {
                assert(copy@ == codes@);
            }
            self.vectors.push(copy);
        }
        self.unpacked_vectors.push(codes);
        proof {
            assert(self.stored() =~= old_stored.push(self.vectors@.last()@));
            assert(self.unpacked() =~= old_unpacked.push(codes@));
            let n = old_unpacked.len() as int;
            assert(self.unpacked()[n] == codes@);
            assert(self.stored()[n] == self.vectors@.last()@);
            assert forall|o: int| 0 <= o < n implies self.unpacked()[o] == old_unpacked[o] && self.stored()[o] == old_stored[o] by {}
        }
        Ok(())
    }

    /// Whether a query of `query_bits` is scored against the packed codes:
    /// one-bit indexes read by one- or four-bit queries. Every other pairing
    /// uses the byte-by-byte kernel on the unpacked codes.
    pub open spec fn reads_packed(&self, query_bits: u8) -> bool {
        self.spec_index_bits() == 1 && (query_bits == 1 || query_bits == 4)
    }

    /// Every raw dot product against this corpus fits in `i32`, and a batch of
    /// packed codes fits in memory.
    pub open spec fn raw_dot_fits(&self, query_bits: u8) -> bool {
        if self.reads_packed(query_bits) {
            &&& batch_fits(query_bits, self.spec_dimension() as int)
            &&& SEARCH_BATCH_SIZE * packed_len(self.spec_dimension() as int) <= usize::MAX
        } else {
            65025 * self.spec_dimension() <= i32::MAX
        }
    }

    /// The raw dot product of a query with ordinal `o`: `raw_dot` on the packed
    /// code when the query reads packed codes, the reference dot product with
    /// the unpacked code otherwise.
    pub open spec fn raw_dot_of(&self, query: Seq<u8>, query_bits: u8, o: int) -> int {
        if self.reads_packed(query_bits) {
            raw_dot(query, self.stored()[o], query_bits, self.spec_dimension() as int)
        } else {
            dot(query, self.unpacked()[o])
        }
    }

    /// Raw dot products (see `raw_dot_of`) between a quantized query and every
    /// code of the corpus, by ordinal, computed in batches of
    /// `SEARCH_BATCH_SIZE`.
    pub fn raw_dot_products(&self, quantized_query: &[u8], query_bits: u8) -> (r: Result<Vec<i32>, QuantError>)
        requires
            self.wf(),
            self.raw_dot_fits(query_bits),
        ensures
            quantized_query@.len() != self.spec_dimension() ==> r == Err::<Vec<i32>, QuantError>(
                QuantError::DimensionMismatch { expected: self.spec_dimension() as usize, found: quantized_query@.len() as usize },
            ),
            r is Ok <==> quantized_query@.len() == self.spec_dimension() && (self.reads_packed(query_bits) && query_bits == 1
                && self.unpacked().len() > 0 ==> is_binary(quantized_query@)),
            quantized_query@.len() == self.spec_dimension() && self.reads_packed(query_bits) && query_bits == 1
                && self.unpacked().len() > 0 && !is_binary(quantized_query@) ==> exists|p: int|
                first_invalid(quantized_query@, p) && r == Err::<Vec<i32>, QuantError>(
                    QuantError::InvalidBit { position: p as usize, value: quantized_query@[p] },
                ),
            r matches Ok(v) ==> v@.len() == self.unpacked().len() && forall|o: int| 0 <= o < self.unpacked().len()
                ==> #[trigger] v@[o] as int == self.raw_dot_of(quantized_query@, query_bits, o),
    {
        let dimension = self.dimension;
        if quantized_query.len() != dimension {
            return Err(QuantError::DimensionMismatch { expected: dimension, found: quantized_query.len() });
        }
        let packed = self.index_bits == 1 && (query_bits == 1 || query_bits == 4);
        let n = self.unpacked_vectors.len();
        let mut all: Vec<i32> = Vec::with_capacity(n);
        let mut batch_start: usize = 0;
        while batch_start < n
            invariant
                self.wf(),
                self.raw_dot_fits(query_bits),
                packed == self.reads_packed(query_bits),
                dimension == self.spec_dimension(),
                quantized_query@.len() == dimension,
                n == self.unpacked().len(),
                n == self.vectors@.len(),
                n == self.unpacked_vectors@.len(),
                forall|o: int| 0 <= o < n ==> #[trigger] self.vectors@[o]@ == self.stored()[o],
                forall|o: int| 0 <= o < n ==> #[trigger] self.unpacked_vectors@[o]@ == self.unpacked()[o],
                batch_start <= n,
                all@.len() == batch_start,
                packed && query_bits == 1 && batch_start > 0 ==> is_binary(quantized_query@),
                forall|o: int| 0 <= o < batch_start ==> #[trigger] all@[o] as int == self.raw_dot_of(
                    quantized_query@,
                    query_bits,
                    o,
                ),
            decreases n - batch_start,
        {
            let batch_end = if n - batch_start < SEARCH_BATCH_SIZE { n } else { batch_start + SEARCH_BATCH_SIZE };
            let mut ords: Vec<usize> = Vec::with_capacity(batch_end - batch_start);
            let mut o: usize = batch_start;
            while o < batch_end
                invariant
                    batch_start <= o <= batch_end,
                    ords@.len() == o - batch_start,
                    forall|i: int| 0 <= i < ords@.len() ==> #[trigger] ords@[i] == batch_start + i,
                decreases batch_end - o,
            {
                ords.push(o);
                o = o + 1;
            }
            let batch = if packed {
                proof {
                    assert(ords@.len() * packed_len(dimension as int) <= usize::MAX) by (nonlinear_arith)
                        requires
                            ords@.len() <= 1000,
                            0 <= packed_len(dimension as int),
                            1000 * packed_len(dimension as int) <= usize::MAX,
                    ;
                }
                compute_batch_bit_dot_products(quantized_query, self.vectors.as_slice(), ords.as_slice(), query_bits, dimension)
            } else {
                proof {
                    assert forall|i: int| 0 <= i < ords@.len() implies #[trigger] self.unpacked_vectors@[ords@[i] as int]@.len() == dimension by {
                        assert(self.unpacked_vectors@[batch_start + i]@ == self.unpacked()[batch_start + i]);
                    }
                }
                compute_batch_reference_dot_products(quantized_query, self.unpacked_vectors.as_slice(), ords.as_slice(), dimension)
            };
            match batch {
                Err(e) => {
                    proof {
                        if packed && query_bits == 4 {
                            assert(batch_ready(quantized_query@, self.vectors@, ords@, query_bits, dimension as int));
                        }
                    }
                    return Err(e);
                },
                Ok(values) => {
                    let ghost before = all@;
                    proof {
                        if packed && query_bits == 1 {
                            assert(batch_ready(quantized_query@, self.vectors@, ords@, query_bits, dimension as int));
                        }
                    }
                    let mut i: usize = 0;
                    while i < values.len()
                        invariant
                            values@.len() == ords@.len(),
                            ords@.len() == batch_end - batch_start,
                            forall|i2: int| 0 <= i2 < ords@.len() ==> #[trigger] ords@[i2] == batch_start + i2,
                            forall|i2: int| 0 <= i2 < ords@.len() ==> #[trigger] values@[i2] as int == self.raw_dot_of(
                                quantized_query@,
                                query_bits,
                                batch_start + i2,
                            ),
                            i <= values@.len(),
                            all@.len() == batch_start + i,
                            all@.subrange(0, batch_start as int) == before,
                            forall|o2: int| batch_start <= o2 < batch_start + i ==> #[trigger] all@[o2] as int == self.raw_dot_of(
                                quantized_query@,
                                query_bits,
                                o2,
                            ),
                        decreases values@.len() - i,
                    {
                        all.push(values[i]);
                        proof {
                            assert(all@.subrange(0, batch_start as int) =~= before);
                        }
                        i = i + 1;
                    }
                    proof {
                        assert forall|o2: int| 0 <= o2 < batch_end implies #[trigger] all@[o2] as int == self.raw_dot_of(
                            quantized_query@,
                            query_bits,
                            o2,
                        ) by {
                            if o2 < batch_start {
                                assert(all@[o2] == before[o2]);
                            }
                        }
                    }
                },
            }
            batch_start = batch_end;
        }
        Ok(all)
    }
}

/// Checks an index configuration: both bit-widths must lie in `1..=8`; the
/// query's is checked first.
pub fn check_index_config(query_bits: u8, index_bits: u8) -> (r: Result<(), QuantError>)
    ensures
        !valid_bits(query_bits) ==> r == Err::<(), QuantError>(QuantError::Config { bits: query_bits }),
        valid_bits(query_bits) && !valid_bits(index_bits) ==> r == Err::<(), QuantError>(QuantError::Config { bits: index_bits }),
        r is Ok <==> valid_bits(query_bits) && valid_bits(index_bits),
{
    match check_bits(query_bits) {
        Err(e) => Err(e),
        Ok(()) => check_bits(index_bits),
    }
}

/// The first vector whose length differs from the first vector's.
pub open spec fn first_off_dimension<T>(vectors: Seq<Vec<T>>, i: int) -> bool {
    &&& 0 < i < vectors.len()
    &&& vectors[i]@.len() != vectors[0]@.len()
    &&& forall|j: int| 0 <= j < i ==> #[trigger] vectors[j]@.len() == vectors[0]@.len()
}

/// Checks the shape of a corpus to index and returns its dimension: the
/// corpus must be non-empty and every vector as long as the first.
pub fn check_corpus<T>(vectors: &[Vec<T>]) -> (r: Result<usize, QuantError>)
    ensures
        vectors@.len() == 0 ==> r == Err::<usize, QuantError>(QuantError::EmptyInput),
        forall|i: int| #[trigger] first_off_dimension(vectors@, i) ==> r == Err::<usize, QuantError>(
            QuantError::DimensionMismatch { expected: vectors@[0]@.len() as usize, found: vectors@[i]@.len() as usize },
        ),
        r is Ok <==> vectors@.len() > 0 && forall|i: int| 0 <= i < vectors@.len() ==> #[trigger] vectors@[i]@.len() == vectors@[0]@.len(),
        r matches Ok(d) ==> d == vectors@[0]@.len(),
{
    if vectors.len() == 0 {
        return Err(QuantError::EmptyInput);
    }
    let dimension = vectors[0].len();
    let mut i: usize = 1;
    while i < vectors.len()
        invariant
            vectors@.len() > 0,
            dimension == vectors@[0]@.len(),
            1 <= i <= vectors@.len(),
            forall|j: int| 0 <= j < i ==> #[trigger] vectors@[j]@.len() == dimension,
        decreases vectors@.len() - i,
    {
        if vectors[i].len() != dimension {
            proof {
                assert forall|i2: int| #[trigger] first_off_dimension(vectors@, i2) implies i2 == i by {
                    if i2 > i {
                        assert(vectors@[i as int]@.len() == dimension);
                    }
                }
            }
            return Err(QuantError::DimensionMismatch { expected: dimension, found: vectors[i].len() });
        }
        i = i + 1;
    }
    Ok(dimension)
}

/// Checks a search request against an index (`None` when it is not built)
/// and returns how many results the search yields: `min(k, size)`. The checks
/// run in order: built, non-empty query, `k == 0` (no results, not an error),
/// query dimension.
pub fn check_search_request<T>(corpus: Option<&CorpusCodes>, query: &[T], k: usize) -> (r: Result<usize, QuantError>)
    requires
        corpus matches Some(c) ==> c.wf(),
    ensures
        corpus is None ==> r == Err::<usize, QuantError>(QuantError::NotBuilt),
        corpus is Some && query@.len() == 0 ==> r == Err::<usize, QuantError>(QuantError::EmptyInput),
        corpus is Some && query@.len() > 0 && k == 0 ==> r == Ok::<usize, QuantError>(0),
        corpus matches Some(c) ==> (query@.len() > 0 && k > 0 && query@.len() != c.spec_dimension() ==> r == Err::<usize, QuantError>(
            QuantError::DimensionMismatch { expected: c.spec_dimension() as usize, found: query@.len() as usize },
        )),
        corpus matches Some(c) ==> (query@.len() > 0 && k > 0 && query@.len() == c.spec_dimension() ==> r == Ok::<usize, QuantError>(
            if k < c.unpacked().len() { k } else { c.unpacked().len() as usize },
        )),
{
    match corpus {
        None => Err(QuantError::NotBuilt),
        Some(c) => {
            if query.len() == 0 {
                Err(QuantError::EmptyInput)
            } else if k == 0 {
                Ok(0)
            } else if query.len() != c.dimension() {
                Err(QuantError::DimensionMismatch { expected: c.dimension(), found: query.len() })
            } else {
                let size = c.size();
                Ok(if k < size { k } else { size })
            }
        },
    }
}

} // verus!
