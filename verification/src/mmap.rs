//! Read-only search over the bytes of a `.lvdb` file, in place.
//!
//! [`MmapDb`] searches the vectors where they are — the big vectors block is
//! never copied into the heap, so a mapped file far larger than memory can still
//! be scanned. Only the small parts (ids and payloads) are read up front.
//!
//! It is read-only and always searches by exact brute force, ignoring any
//! persisted graph index. For inserts, updates, or approximate search, use
//! [`VectorDb`](crate::db::VectorDb).

use crate::db::Encoding;
use crate::distance::cosine_similarity;
use crate::error::VectorDbError;
use crate::float::F32;
use crate::query::{
    exact_hits, lemma_placed_ranking, matching, placed, resolved, view_results, Placed,
};
use crate::ranking::{first, rank, ranking};
use crate::record::{
    check_vector, validate_against, Metadata, Record, RecordView, SearchResult,
};
use crate::selection::lemma_hits_hold_filter;
use crate::storage::format::{lemma_many_len, parse_mmap, view_payloads};
use crate::storage::layout::{
    component_size, float_field, parse_layout, read_header, read_payload, read_u64, LayoutView,
    HEADER_LEN,
};
use crate::storage::quantize::{dequantize, dequantized};
use crate::storage::wire::{le_to_u64, lemma_le_value_bound};
use vstd::prelude::*;

verus! {

/// The component in the bytes at `at`.
pub open spec fn mapped_component(
    bytes: Seq<u8>,
    encoding: Encoding,
    range: (F32, F32),
    at: int,
) -> F32 {
    match encoding {
        Encoding::Float32 => float_field(bytes, at),
        Encoding::ScalarU8 => dequantized(bytes[at], range.0, range.1),
    }
}

/// The `i`-th vector of a mapped file.
pub open spec fn mapped_vector(bytes: Seq<u8>, layout: LayoutView, i: int) -> Seq<F32> {
    Seq::new(
        layout.stride,
        |j: int|
            mapped_component(
                bytes,
                layout.encoding,
                layout.range,
                layout.vectors_offset + (i * layout.stride + j) * component_size(layout.encoding),
            ),
    )
}

/// The `i`-th record of a mapped file.
pub open spec fn mapped_record(bytes: Seq<u8>, layout: LayoutView, i: int) -> RecordView {
    RecordView {
        id: layout.ids[i],
        vector: mapped_vector(bytes, layout, i),
        text: layout.payloads[i].0,
        metadata: layout.payloads[i].1,
    }
}

/// The records of a mapped file, in the order of the file.
pub open spec fn mapped_records(bytes: Seq<u8>, layout: LayoutView) -> Seq<RecordView> {
    Seq::new(layout.ids.len(), |i: int| mapped_record(bytes, layout, i))
}

/// A read-only view of the bytes of a `.lvdb` database.
#[derive(Debug)]
pub struct MmapDb<'a> {
    mmap: &'a [u8],
    dimension: Option<usize>,
    ids: Vec<u64>,
    payloads: Vec<(String, Metadata)>,
    vectors_offset: usize,
    stride: usize,
    encoding: Encoding,
    bounds: (F32, F32),
}

/// The bytes of a vectors block come before its end.
proof fn lemma_within(i: int, j: int, stride: int, n: int, size: int)
    requires
        0 <= i < n,
        0 <= j < stride,
        size > 0,
    ensures
        0 <= i * stride + j,
        0 <= (i * stride + j) * size,
        (i * stride + j) * size + size <= n * stride * size,
{
    assert(0 <= i * stride && i * stride + stride <= n * stride) by (nonlinear_arith)
        requires
            0 <= i < n,
            0 <= stride,
    ;
    let k = i * stride + j;
    assert(k * size + size <= n * stride * size && 0 <= k * size) by (nonlinear_arith)
        requires
            0 <= k,
            k + 1 <= n * stride,
            size > 0,
    ;
}

impl<'a> MmapDb<'a> {
    /// Where the sections are, with the small ones.
    pub closed spec fn layout(&self) -> LayoutView {
        LayoutView {
            dimension: self.dimension,
            ids: self.ids@,
            payloads: view_payloads(self.payloads@),
            vectors_offset: self.vectors_offset as nat,
            stride: self.stride as nat,
            encoding: self.encoding,
            range: self.bounds,
        }
    }

    /// The mapped bytes.
    pub closed spec fn mapped(&self) -> Seq<u8> {
        self.mmap@
    }

    /// The records, in the order of the file.
    pub open spec fn records(&self) -> Seq<RecordView> {
        mapped_records(self.mapped(), self.layout())
    }

    /// There is a payload for every id, and the vectors are within the bytes.
    pub open spec fn valid(&self) -> bool {
        let layout = self.layout();
        &&& layout.payloads.len() == layout.ids.len()
        &&& layout.vectors_offset + layout.ids.len() * layout.stride * component_size(
            layout.encoding,
        ) <= self.mapped().len()
    }

    /// Take up mapped `.lvdb` bytes for read-only search.
    ///
    /// Returns [`VectorDbError::Corrupt`] for a malformed file and
    /// [`VectorDbError::UnsupportedVersion`] for a newer major format version.
    /// The vectors are not read here — only the header, ids, and payloads.
    pub fn open(bytes: &'a [u8]) -> (r: Result<Self, VectorDbError>)
        ensures
            match parse_layout(bytes@) {
                Err(e) => r == Err::<Self, VectorDbError>(e),
                Ok(layout) => r matches Ok(db) && {
                    &&& db.valid()
                    &&& db.layout() == layout
                    &&& db.mapped() == bytes@
                },
            },
    {
        let found = parse_mmap(bytes)?;
        proof {
            let header = read_header(bytes@)->Ok_0;
            let n = header.count as nat;
            let body = bytes@.skip(HEADER_LEN as int);
            lemma_many_len(read_u64(), body, 0, n);
            let size = n * header.stride as nat * component_size(header.encoding);
            lemma_many_len(
                read_payload(),
                bytes@.skip((HEADER_LEN as nat + 8 * n + size) as int),
                0,
                n,
            );
        }
        Ok(
            MmapDb {
                mmap: bytes,
                dimension: found.dimension,
                ids: found.ids,
                payloads: found.payloads,
                vectors_offset: found.vectors_offset,
                stride: found.stride,
                encoding: found.encoding,
                bounds: found.bounds,
            },
        )
    }

    /// Number of records in the mapped database.
    pub fn len(&self) -> (r: usize)
        ensures
            r == self.layout().ids.len(),
    {
        self.ids.len()
    }

    /// Whether the database holds no records.
    pub fn is_empty(&self) -> (r: bool)
        ensures
            r == (self.layout().ids.len() == 0),
    {
        self.ids.len() == 0
    }

    /// The fixed vector dimension, if the file records one.
    pub fn dimension(&self) -> (r: Option<usize>)
        ensures
            r == self.layout().dimension,
    {
        self.dimension
    }

    /// Read vector `i` into `buffer`, decoding per the file's encoding. Touches
    /// only that vector's bytes.
    fn read_vector(&self, i: usize, buffer: &mut Vec<F32>)
        requires
            self.valid(),
            i < self.layout().ids.len(),
        ensures
            final(buffer)@ == mapped_vector(self.mapped(), self.layout(), i as int),
    {
        buffer.clear();
        let ghost expected = mapped_vector(self.mapped(), self.layout(), i as int);
        let size: usize = match self.encoding {
            Encoding::Float32 => 4,
            Encoding::ScalarU8 => 1,
        };
        let len: usize = self.mmap.len();
        let mut j: usize = 0;
        while j < self.stride
            invariant
                self.valid(),
                i < self.layout().ids.len(),
                len == self.mmap@.len(),
                size == component_size(self.encoding),
                expected == mapped_vector(self.mapped(), self.layout(), i as int),
                j <= self.stride,
                buffer@ == expected.take(j as int),
            decreases self.stride - j,
        {
            proof {
                lemma_within(
                    i as int,
                    j as int,
                    self.stride as int,
                    self.ids@.len() as int,
                    size as int,
                );
                assert(i * self.stride + j <= (i * self.stride + j) * size) by (nonlinear_arith)
                    requires
                        size >= 1,
                        0 <= i * self.stride + j,
                ;
                assert(i * self.stride >= 0) by (nonlinear_arith)
                    requires
                        i >= 0,
                        self.stride >= 0,
                ;
            }
            let at: usize = self.vectors_offset + (i * self.stride + j) * size;
            let component = match self.encoding {
                Encoding::Float32 => {
                    let part = vstd::slice::slice_subrange(self.mmap, at, at + 4);
                    proof {
                        lemma_le_value_bound(part@);
                    }
                    F32 { bits: le_to_u64(part) as u32 }
                },
                Encoding::ScalarU8 => dequantize(self.mmap[at], self.bounds.0, self.bounds.1),
            };
            buffer.push(component);
            j = j + 1;
            assert(buffer@ =~= expected.take(j as int));
        }
        assert(buffer@ =~= expected);
    }

    /// Search for the `k` most similar records (exact brute force).
    pub fn search(&self, query: &[F32], k: usize) -> (r: Result<Vec<SearchResult>, VectorDbError>)
        requires
            self.valid(),
        ensures
            match check_vector(self.layout().dimension, query@) {
                Err(e) => r == Err::<Vec<SearchResult>, VectorDbError>(e),
                Ok(_) => r matches Ok(results) && view_results(results@) == exact_hits(
                    self.records(),
                    query@,
                    k as nat,
                    Seq::empty(),
                ),
            },
    {
        self.search_filtered(query, k, &Metadata::new())
    }

    /// Search with a metadata filter. Filtering uses the in-memory payloads;
    /// scoring reads each candidate vector straight from the mapped bytes.
    pub fn search_filtered(&self, query: &[F32], k: usize, filter: &Metadata) -> (r: Result<
        Vec<SearchResult>,
        VectorDbError,
    >)
        requires
            self.valid(),
        ensures
            match check_vector(self.layout().dimension, query@) {
                Err(e) => r == Err::<Vec<SearchResult>, VectorDbError>(e),
                Ok(_) => r matches Ok(results) && view_results(results@) == exact_hits(
                    self.records(),
                    query@,
                    k as nat,
                    filter@,
                ),
            },
            r matches Ok(results) ==> forall|i: int, f: int|
                0 <= i < results@.len() && 0 <= f < filter@.len() ==> (
                #[trigger] results@[i]).record.metadata@.contains(#[trigger] filter@[f]),
    {
        validate_against(self.dimension, query)?;
        let ghost list = self.records();
        let ghost keep = matching(filter@);
        let ghost picked = list.filter(keep);
        if k == 0 {
            let none: Vec<SearchResult> = Vec::new();
            proof {
                lemma_placed_ranking(picked, query@);
                assert(view_results(none@) =~= exact_hits(list, query@, 0, filter@));
            }
            return Ok(none);
        }
        let mut buffer: Vec<F32> = Vec::new();
        let mut chosen: Vec<usize> = Vec::new();
        let mut scored: Vec<Placed> = Vec::new();
        let mut i: usize = 0;
        proof {
            reveal(Seq::filter);
            assert(list.take(0) =~= Seq::empty());
        }
        while i < self.ids.len()
            invariant
                self.valid(),
                i <= self.ids@.len(),
                list == self.records(),
                list.len() == self.ids@.len(),
                keep == matching(filter@),
                chosen@.len() == list.take(i as int).filter(keep).len(),
                scored@.len() == chosen@.len(),
                forall|n: int|
                    0 <= n < chosen@.len() ==> (#[trigger] chosen@[n]) < self.ids@.len()
                        && list[chosen@[n] as int] == list.take(i as int).filter(keep)[n],
                forall|n: int|
                    0 <= n < scored@.len() ==> #[trigger] scored@[n] == placed(
                        list.take(i as int).filter(keep),
                        query@,
                    )[n],
            decreases self.ids@.len() - i,
        {
            proof {
                reveal(Seq::filter);
                assert(list.take(i + 1).drop_last() =~= list.take(i as int));
                assert(list[i as int].metadata == self.payloads@[i as int].1@);
            }
            if self.payloads[i].1.satisfies(filter) {
                self.read_vector(i, &mut buffer);
                let score = cosine_similarity(query, buffer.as_slice());
                scored.push(Placed { score, id: self.ids[i], place: chosen.len() });
                chosen.push(i);
            }
            i = i + 1;
        }
        assert(list.take(i as int) =~= list);
        assert(scored@ =~= placed(picked, query@));
        let mut order = rank(scored);
        proof {
            lemma_placed_ranking(picked, query@);
        }
        order.truncate(k);
        let ghost best = first(ranking(placed(picked, query@)), k as nat);
        assert(order@ =~= best);
        let mut results: Vec<SearchResult> = Vec::new();
        let mut j: usize = 0;
        while j < order.len()
            invariant
                self.valid(),
                j <= order@.len(),
                list == self.records(),
                chosen@.len() == picked.len(),
                forall|n: int|
                    0 <= n < order@.len() ==> (#[trigger] order@[n]).place < picked.len(),
                forall|n: int|
                    0 <= n < chosen@.len() ==> (#[trigger] chosen@[n]) < self.ids@.len()
                        && list[chosen@[n] as int] == picked[n],
                results@.len() == j,
                forall|n: int|
                    0 <= n < j ==> (#[trigger] results@[n])@ == (
                        order@[n].score,
                        picked[order@[n].place as int],
                    ),
            decreases order@.len() - j,
        {
            assert(order@[j as int].place < picked.len());
            let at: usize = chosen[order[j].place];
            let mut vector: Vec<F32> = Vec::new();
            self.read_vector(at, &mut vector);
            let record = Record {
                id: self.ids[at],
                vector,
                text: self.payloads[at].0.clone(),
                metadata: self.payloads[at].1.clone(),
            };
            assert(record@ == list[at as int]);
            results.push(SearchResult { score: order[j].score, record });
            j = j + 1;
        }
        assert(view_results(results@) =~= resolved(picked, best));
        proof {
            assert forall|i: int, f: int|
                0 <= i < results@.len() && 0 <= f < filter@.len() implies (
            #[trigger] results@[i]).record.metadata@.contains(#[trigger] filter@[f]) by {
                lemma_hits_hold_filter(list, query@, k as nat, filter@, i, f);
                assert(view_results(results@)[i] == results@[i]@);
            }
        }
        Ok(results)
    }
}

} // verus!
