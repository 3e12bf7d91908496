//! The `VectorDb` collection: records, a pluggable index, and persistence.

use crate::consistency::{
    consistent, fits_memory, lemma_compact, lemma_delete, lemma_empty_consistent, lemma_insert,
    lemma_upsert, record_fits,
};
use crate::distance::cosine_similarity;
use crate::error::VectorDbError;
use crate::float::F32;
use crate::index::brute_force::BruteForce;
use crate::index::hnsw::{restore, AnnIndex, AnnParams};
use crate::index::model::{
    blank, built, filled, lemma_filled_fails, lemma_filled_kind, restored, Index, IndexModel,
};
use crate::index::{view_data, IndexData, IndexView, VectorIndex};
use crate::persistence::lemma_load_consistent;
use crate::query::{
    exact_hits, lemma_placed_ranking, matching, placed, resolved, view_results, Placed,
};
use crate::ranking::{first, rank, ranking};
use crate::record::{check_vector, validate_against, Metadata, Record, RecordView, SearchResult};
use crate::records::{in_order, listed, IdSet, Records};
use crate::selection::lemma_hits_hold_filter;
use crate::storage::format::{decode, encode, lemma_listed};
use crate::storage::layout::{file_bytes, parse_file, FileView};
use vstd::prelude::*;

verus! {

/// How a [`VectorDb`] indexes vectors for search.
///
/// The kind is chosen at construction and persisted with the database.
#[derive(Debug, Clone, Copy, PartialEq, Eq, Structural)]
pub enum IndexKind {
    /// Exact brute-force scan. Always correct; the best choice for small
    /// collections and the default.
    Exact,
    /// Approximate NSW-graph search. Faster on large collections, but results
    /// are approximate — raise [`AnnParams::ef_search`] for higher recall.
    Hnsw(AnnParams),
}

impl Default for IndexKind {
    fn default() -> (r: Self)
        ensures
            r == IndexKind::Exact,
    {
        IndexKind::Exact
    }
}

/// How vectors are encoded in the `.lvdb` file.
///
/// This is a storage concern only: vectors always have full precision in
/// memory. A quantized file is smaller on disk and dequantized on load
/// (lossily).
#[derive(Debug, Clone, Copy, PartialEq, Eq, Structural)]
pub enum Encoding {
    /// Full precision: the bit pattern, little-endian (4 bytes per component).
    Float32,
    /// Scalar quantization: each component stored as one byte against a global
    /// min/max range. 4× smaller, with a small, bounded precision loss.
    ScalarU8,
}

impl Default for Encoding {
    fn default() -> (r: Self)
        ensures
            r == Encoding::Float32,
    {
        Encoding::Float32
    }
}

/// What a collection holds.
pub struct DbView {
    pub dimension: Option<usize>,
    pub records: Map<u64, RecordView>,
    pub kind: IndexKind,
    pub index: IndexModel,
    /// Ids deleted since the last rebuild, still in the index.
    pub tombstones: Set<u64>,
    pub encoding: Encoding,
}

/// The vectors of the records, in ascending order of their keys.
pub open spec fn entries_of(records: Map<u64, RecordView>) -> Seq<(u64, Seq<F32>)> {
    listed(records).map_values(|r: RecordView| (r.id, r.vector))
}

/// The collection after its index has been built anew from the records, and
/// the outcome.
pub open spec fn rebuilt(s: DbView) -> (DbView, Result<(), VectorDbError>) {
    match built(s.kind, s.dimension, entries_of(s.records)) {
        Err(e) => (s, Err(e)),
        Ok(index) => (DbView { index, tombstones: Set::empty(), ..s }, Ok(())),
    }
}

/// The collection after an insertion, and the outcome. A vector that is
/// accepted fixes the dimension. A deleted id that is used again has the index
/// rebuilt, since the index still holds its old vector.
pub open spec fn inserted(s: DbView, r: RecordView) -> (DbView, Result<(), VectorDbError>) {
    if s.records.dom().contains(r.id) {
        (s, Err(VectorDbError::DuplicateId(r.id)))
    } else {
        match check_vector(s.dimension, r.vector) {
            Err(e) => (s, Err(e)),
            Ok(_) => {
                let fixed = DbView { dimension: Some(r.vector.len() as usize), ..s };
                let held = DbView { records: s.records.insert(r.id, r), ..fixed };
                if s.tombstones.contains(r.id) {
                    rebuilt(held)
                } else {
                    match check_vector(s.index.dimension, r.vector) {
                        Err(e) => (fixed, Err(e)),
                        Ok(_) => (DbView { index: s.index.push(r.id, r.vector), ..held }, Ok(())),
                    }
                }
            },
        }
    }
}

/// The collection after a record has been put in, in place of one with the same
/// id where there is one, and the outcome.
pub open spec fn upserted(s: DbView, r: RecordView) -> (DbView, Result<(), VectorDbError>) {
    match check_vector(s.dimension, r.vector) {
        Err(e) => (s, Err(e)),
        Ok(_) => {
            let held = DbView {
                dimension: Some(r.vector.len() as usize),
                records: s.records.insert(r.id, r),
                ..s
            };
            if s.records.dom().contains(r.id) || s.tombstones.contains(r.id) {
                rebuilt(held)
            } else {
                match check_vector(s.index.dimension, r.vector) {
                    Err(e) => (held, Err(e)),
                    Ok(_) => (DbView { index: s.index.push(r.id, r.vector), ..held }, Ok(())),
                }
            }
        },
    }
}

/// The collection without a record. Its vector stays in the index, and its id
/// is remembered.
pub open spec fn deleted(s: DbView, id: u64) -> DbView {
    DbView { records: s.records.remove(id), tombstones: s.tombstones.insert(id), ..s }
}

/// Hits whose records are still there.
pub open spec fn live(records: Map<u64, RecordView>) -> spec_fn((u64, F32)) -> bool {
    |hit: (u64, F32)| records.dom().contains(hit.0)
}

/// The search effort that the kind of index asks for.
pub open spec fn effort(kind: IndexKind) -> nat {
    match kind {
        IndexKind::Hnsw(params) => params.ef_search as nat,
        IndexKind::Exact => 0,
    }
}

/// How many hits to ask the index for: deleted ids that are still in it must
/// not shrink the result.
pub open spec fn fetch_size(limit: nat, tombstones: nat) -> nat {
    if limit + tombstones > usize::MAX {
        usize::MAX as nat
    } else {
        limit + tombstones
    }
}

/// What an unfiltered search gives: the best hits of the index whose records
/// are still there.
pub open spec fn indexed_hits(s: DbView, query: Seq<F32>, limit: nat) -> Seq<(F32, RecordView)> {
    first(
        s.index.nearest(
            query,
            fetch_size(limit, s.tombstones.len()),
            effort(s.kind),
        ).filter(live(s.records)),
        limit,
    ).map_values(|hit: (u64, F32)| (hit.1, s.records[hit.0]))
}

/// What a search gives, or why it is refused. A filtered search is always
/// exact.
pub open spec fn searched(
    s: DbView,
    query: Seq<F32>,
    limit: nat,
    filter: Seq<(Seq<char>, Seq<char>)>,
) -> Result<Seq<(F32, RecordView)>, VectorDbError> {
    match check_vector(s.dimension, query) {
        Err(e) => Err(e),
        Ok(_) => if limit == 0 {
            Ok(Seq::empty())
        } else if filter.len() == 0 {
            match check_vector(s.index.dimension, query) {
                Err(e) => Err(e),
                Ok(_) => Ok(indexed_hits(s, query, limit)),
            }
        } else {
            Ok(exact_hits(listed(s.records), query, limit, filter))
        },
    }
}

/// Whether every record fits the dimension, where one is fixed, or the first
/// refusal.
pub open spec fn vetted(dimension: Option<usize>, list: Seq<RecordView>) -> Result<
    (),
    VectorDbError,
>
    decreases list.len(),
{
    if list.len() == 0 {
        Ok(())
    } else {
        match vetted(dimension, list.drop_last()) {
            Err(e) => Err(e),
            Ok(_) => check_vector(dimension, list.last().vector),
        }
    }
}

/// Whether loaded records make up a collection.
pub open spec fn database_valid(dimension: Option<usize>, records: Map<u64, RecordView>) -> Result<
    (),
    VectorDbError,
> {
    match vetted(dimension, listed(records)) {
        Err(e) => Err(e),
        Ok(_) => if records.len() == 0 && dimension == Some(0usize) {
            Err(VectorDbError::InvalidVector("dimension must be greater than zero"))
        } else {
            Ok(())
        },
    }
}

/// The index of a loaded collection: the stored graph where there is one, and
/// otherwise one built from the records.
pub open spec fn loaded_index(
    dimension: Option<usize>,
    kind: IndexKind,
    records: Map<u64, RecordView>,
    data: Option<IndexView>,
) -> Result<IndexModel, VectorDbError> {
    match (kind, data) {
        (IndexKind::Hnsw(params), Some(data)) => match restore(dimension, data, records) {
            Err(e) => Err(e),
            Ok(fixed) => Ok(restored(fixed, params, data, records)),
        },
        _ => built(kind, dimension, entries_of(records)),
    }
}

/// A collection made of loaded parts, or why they are refused.
pub open spec fn assembled(file: FileView) -> Result<DbView, VectorDbError> {
    match database_valid(file.dimension, file.records) {
        Err(e) => Err(e),
        Ok(_) => match loaded_index(file.dimension, file.index_kind, file.records, file.index) {
            Err(e) => Err(e),
            Ok(index) => Ok(
                DbView {
                    dimension: file.dimension,
                    records: file.records,
                    kind: file.index_kind,
                    index,
                    tombstones: Set::empty(),
                    encoding: file.encoding,
                },
            ),
        },
    }
}

/// The state that a collection is saved as. The graph is stored only where it
/// holds no deleted ids.
pub open spec fn saved(s: DbView) -> FileView {
    FileView {
        dimension: s.dimension,
        index_kind: s.kind,
        encoding: s.encoding,
        records: s.records,
        index: if s.tombstones == Set::<u64>::empty() {
            s.index.snapshot()
        } else {
            None
        },
    }
}

/// A local-first collection of vectors with metadata and similarity search.
///
/// Records (the payloads) are the source of truth; the index holds only ids and
/// vectors and is rebuilt from the records when needed.
#[derive(Debug)]
pub struct VectorDb {
    dimension: Option<usize>,
    records: Records,
    index_kind: IndexKind,
    index: Index,
    /// Ids deleted since the last rebuild. Their nodes still sit in `index`
    /// (search skips them); `compact` reclaims them. Empty after any rebuild.
    tombstones: IdSet,
    /// How vectors are written to the `.lvdb` file.
    encoding: Encoding,
}

impl View for VectorDb {
    type V = DbView;

    closed spec fn view(&self) -> DbView {
        DbView {
            dimension: self.dimension,
            records: self.records@,
            kind: self.index_kind,
            index: self.index.model(),
            tombstones: self.tombstones@,
            encoding: self.encoding,
        }
    }
}

impl Default for VectorDb {
    fn default() -> (r: Self)
        ensures
            r.valid(),
            r@ == empty_db(None, IndexKind::Exact),
            consistent(r@),
    {
        VectorDb::new()
    }
}

/// A collection without records.
pub open spec fn empty_db(dimension: Option<usize>, kind: IndexKind) -> DbView {
    DbView {
        dimension,
        records: Map::empty(),
        kind,
        index: blank(kind, dimension),
        tombstones: Set::empty(),
        encoding: Encoding::Float32,
    }
}

impl VectorDb {
    /// The index is valid and of the collection's kind.
    pub closed spec fn valid(&self) -> bool {
        &&& self.index.valid()
        &&& self.index.model().kind == self.index_kind
    }

    /// A collection is of a size that memory can hold.
    pub proof fn lemma_fits(&self)
        requires
            self.valid(),
        ensures
            fits_memory(self@),
            self@.records.dom().finite(),
    {
        self.records.lemma_len();
        self.index.lemma_model();
    }

    fn empty(dimension: Option<usize>, index_kind: IndexKind) -> (r: Result<Self, VectorDbError>)
        ensures
            dimension == Some(0usize) ==> r == Err::<Self, VectorDbError>(
                VectorDbError::InvalidVector("dimension must be greater than zero"),
            ),
            dimension != Some(0usize) ==> r is Ok,
            r matches Ok(db) ==> db.valid() && db@ == empty_db(dimension, index_kind),
    {
        let index = Index::empty(index_kind, dimension)?;
        Ok(
            VectorDb {
                dimension,
                records: Records::new(),
                index_kind,
                index,
                tombstones: IdSet::new(),
                encoding: Encoding::default(),
            },
        )
    }

    /// Create an empty, exact-search collection. The dimension is fixed by the
    /// first inserted vector.
    pub fn new() -> (r: Self)
        ensures
            r.valid(),
            r@ == empty_db(None, IndexKind::Exact),
            consistent(r@),
    {
        VectorDb::with_index_kind(IndexKind::Exact)
    }

    /// Create an empty, exact-search collection fixed to `dimension`.
    pub fn with_dimension(dimension: usize) -> (r: Result<Self, VectorDbError>)
        ensures
            dimension == 0 ==> r == Err::<Self, VectorDbError>(
                VectorDbError::InvalidVector("dimension must be greater than zero"),
            ),
            dimension > 0 ==> r is Ok,
            r matches Ok(db) ==> db.valid() && db@ == empty_db(Some(dimension), IndexKind::Exact)
                && consistent(db@),
    {
        VectorDb::with_index(dimension, IndexKind::Exact)
    }

    /// Create an empty collection fixed to `dimension` with a chosen index kind.
    pub fn with_index(dimension: usize, index_kind: IndexKind) -> (r: Result<Self, VectorDbError>)
        ensures
            dimension == 0 ==> r == Err::<Self, VectorDbError>(
                VectorDbError::InvalidVector("dimension must be greater than zero"),
            ),
            dimension > 0 ==> r is Ok,
            r matches Ok(db) ==> db.valid() && db@ == empty_db(Some(dimension), index_kind)
                && consistent(db@),
    {
        proof {
            if dimension > 0 {
                lemma_empty_consistent(Some(dimension), index_kind);
            }
        }
        if dimension == 0 {
            return Err(VectorDbError::InvalidVector("dimension must be greater than zero"));
        }
        VectorDb::empty(Some(dimension), index_kind)
    }

    /// Create an empty collection with a chosen index kind and an unfixed
    /// dimension (set by the first inserted vector).
    pub fn with_index_kind(index_kind: IndexKind) -> (r: Self)
        ensures
            r.valid(),
            r@ == empty_db(None, index_kind),
            consistent(r@),
    {
        proof {
            lemma_empty_consistent(None, index_kind);
        }
        let index = match index_kind {
            IndexKind::Exact => Index::Exact(BruteForce::new()),
            IndexKind::Hnsw(params) => Index::Graph(AnnIndex::with_params(params)),
        };
        VectorDb {
            dimension: None,
            records: Records::new(),
            index_kind,
            index,
            tombstones: IdSet::new(),
            encoding: Encoding::default(),
        }
    }

    /// The index kind backing this collection's search.
    pub fn index_kind(&self) -> (r: IndexKind)
        ensures
            r == self@.kind,
    {
        self.index_kind
    }

    /// The on-disk vector encoding for this database.
    pub fn encoding(&self) -> (r: Encoding)
        ensures
            r == self@.encoding,
    {
        self.encoding
    }

    /// Choose how vectors are written to the `.lvdb` file. In-memory vectors
    /// keep full precision.
    pub fn set_encoding(&mut self, encoding: Encoding)
        ensures
            final(self)@ == (DbView { encoding, ..old(self)@ }),
            old(self).valid() ==> final(self).valid(),
            consistent(old(self)@) ==> consistent(final(self)@),
    {
        self.encoding = encoding;
        proof {
            if consistent(old(self)@) {
                assert forall|id: u64| #[trigger] self@.records.dom().contains(id) implies
                    record_fits(self@, id) by {
                    assert(record_fits(old(self)@, id));
                }
            }
        }
    }

    /// The dimension, once fixed.
    pub fn dimension(&self) -> (r: Option<usize>)
        ensures
            r == self@.dimension,
    {
        self.dimension
    }

    /// The number of records.
    pub fn len(&self) -> (r: usize)
        ensures
            r == self@.records.len(),
            self@.records.dom().finite(),
    {
        self.records.len()
    }

    pub fn is_empty(&self) -> (r: bool)
        ensures
            r == (self@.records.len() == 0),
    {
        self.records.is_empty()
    }

    /// The records, by id.
    pub fn records(&self) -> (r: &Records)
        ensures
            r@ == self@.records,
    {
        &self.records
    }

    /// Reject a vector that does not fit, and let one that does fix the
    /// dimension.
    fn validate_vector(&mut self, vector: &[F32]) -> (r: Result<(), VectorDbError>)
        ensures
            r == check_vector(old(self)@.dimension, vector@),
            r is Err ==> *final(self) == *old(self),
            r is Ok ==> final(self)@ == (DbView {
                dimension: Some(vector@.len() as usize),
                ..old(self)@
            }),
            old(self).valid() ==> final(self).valid(),
    {
        validate_against(self.dimension, vector)?;
        self.dimension = Some(vector.len());
        Ok(())
    }

    /// Rebuild the search index from the records (the source of truth). Any
    /// tombstones are dropped, since the fresh index holds only live records.
    fn rebuild_index(&mut self) -> (r: Result<(), VectorDbError>)
        requires
            old(self).valid(),
        ensures
            final(self).valid(),
            (final(self)@, r) == rebuilt(old(self)@),
    {
        let mut index = Index::empty(self.index_kind, self.dimension)?;
        let ids = self.records.ids();
        let ghost entries = entries_of(self.records@);
        let ghost start = blank(self.index_kind, self.dimension);
        proof {
            lemma_listed(self.records@);
            assert(entries.take(0) =~= Seq::empty());
        }
        let mut i: usize = 0;
        while i < ids.len()
            invariant
                i <= ids@.len(),
                *self == *old(self),
                ids@ == in_order(self.records@.dom()),
                entries == entries_of(self.records@),
                entries.len() == ids@.len(),
                start == blank(self.index_kind, self.dimension),
                self.dimension != Some(0usize),
                old(self).valid(),
                forall|n: int|
                    0 <= n < ids@.len() ==> self.records@.dom().contains(
                        #[trigger] in_order(self.records@.dom())[n],
                    ) && entries[n] == (
                        self.records@[in_order(self.records@.dom())[n]].id,
                        self.records@[in_order(self.records@.dom())[n]].vector,
                    ),
                index.valid(),
                filled(start, entries.take(i as int)) == Ok::<IndexModel, VectorDbError>(
                    index.model(),
                ),
            decreases ids@.len() - i,
        {
            proof {
                assert(self.records@.dom().contains(in_order(self.records@.dom())[i as int]));
                assert(entries.take(i + 1).drop_last() =~= entries.take(i as int));
            }
            if let Some(record) = self.records.get(ids[i]) {
                let vector = record.vector.clone();
                assert(vector@ =~= record.vector@);
                match index.insert(record.id, vector) {
                    Ok(_) => {},
                    Err(e) => {
                        proof {
                            lemma_filled_fails(start, entries, i + 1);
                        }
                        return Err(e);
                    },
                }
            }
            i = i + 1;
        }
        proof {
            assert(entries.take(i as int) =~= entries);
            lemma_filled_kind(start, entries);
        }
        self.index = index;
        self.tombstones = IdSet::new();
        Ok(())
    }

    /// Add a record under a new id.
    pub fn insert(&mut self, record: Record) -> (r: Result<(), VectorDbError>)
        requires
            old(self).valid(),
        ensures
            final(self).valid(),
            (final(self)@, r) == inserted(old(self)@, record@),
            consistent(old(self)@) ==> consistent(final(self)@),
    {
        let ghost added = record@;
        let id: u64 = record.id;
        assert(added.vector.len() == record.vector.len());
        let r = if self.records.contains(id) {
            Err(VectorDbError::DuplicateId(id))
        } else {
            match self.validate_vector(record.vector.as_slice()) {
                Err(e) => Err(e),
                Ok(_) => if self.tombstones.contains(id) {
                    // Reusing a just-deleted id: the index still holds a stale
                    // node for it, so rebuild to drop it rather than duplicate
                    // the id.
                    let _ = self.records.insert(id, record);
                    self.rebuild_index()
                } else {
                    let vector = record.vector.clone();
                    assert(vector@ =~= record.vector@);
                    match self.index.insert(id, vector) {
                        Err(e) => Err(e),
                        Ok(_) => {
                            let _ = self.records.insert(id, record);
                            Ok(())
                        },
                    }
                },
            }
        };
        proof {
            self.lemma_fits();
            if consistent(old(self)@) {
                lemma_insert(old(self)@, added);
            }
        }
        r
    }

    /// Add a record, or replace the one with the same id.
    pub fn upsert(&mut self, record: Record) -> (r: Result<(), VectorDbError>)
        requires
            old(self).valid(),
        ensures
            final(self).valid(),
            (final(self)@, r) == upserted(old(self)@, record@),
            consistent(old(self)@) ==> consistent(final(self)@),
    {
        let ghost added = record@;
        let id: u64 = record.id;
        assert(added.vector.len() == record.vector.len());
        let r = match self.validate_vector(record.vector.as_slice()) {
            Err(e) => Err(e),
            Ok(_) => {
                let vector = record.vector.clone();
                assert(vector@ =~= record.vector@);
                let was_tombstoned: bool = self.tombstones.contains(id);
                let replaces_existing: bool = self.records.insert(id, record).is_some();
                if replaces_existing || was_tombstoned {
                    // Replacing a live record, or reusing a deleted id, leaves a
                    // stale node in the index; rebuild to drop it.
                    self.rebuild_index()
                } else {
                    self.index.insert(id, vector)
                }
            },
        };
        proof {
            self.lemma_fits();
            if consistent(old(self)@) {
                lemma_upsert(old(self)@, added);
            }
        }
        r
    }

    /// The record with the given id.
    pub fn get(&self, id: u64) -> (r: Option<&Record>)
        ensures
            r is Some <==> self@.records.dom().contains(id),
            r matches Some(record) ==> record@ == self@.records[id],
    {
        self.records.get(id)
    }

    /// Take out a record. Its node stays in the index but is skipped in results,
    /// and [`compact`](VectorDb::compact) reclaims it later.
    pub fn delete(&mut self, id: u64) -> (r: Result<Record, VectorDbError>)
        ensures
            old(self).valid() ==> final(self).valid(),
            consistent(old(self)@) ==> consistent(final(self)@),
            !old(self)@.records.dom().contains(id) ==> final(self)@ == old(self)@ && r == Err::<
                Record,
                VectorDbError,
            >(VectorDbError::NotFound(id)),
            old(self)@.records.dom().contains(id) ==> {
                &&& final(self)@ == deleted(old(self)@, id)
                &&& r matches Ok(record) && record@ == old(self)@.records[id]
            },
    {
        if !self.records.contains(id) {
            return Err(VectorDbError::NotFound(id));
        }
        proof {
            if consistent(old(self)@) {
                lemma_delete(old(self)@, id);
            }
        }
        match self.records.remove(id) {
            Some(record) => {
                self.tombstones.insert(id);
                Ok(record)
            },
            None => Err(VectorDbError::NotFound(id)),
        }
    }

    /// Reclaim deleted entries by rebuilding the index without the tombstoned
    /// nodes. Returns how many tombstones were reclaimed.
    pub fn compact(&mut self) -> (r: Result<usize, VectorDbError>)
        requires
            old(self).valid(),
        ensures
            final(self).valid(),
            consistent(old(self)@) ==> consistent(final(self)@),
            old(self)@.tombstones.finite(),
            old(self)@.tombstones.len() == 0 ==> final(self)@ == old(self)@ && r == Ok::<
                usize,
                VectorDbError,
            >(0),
            old(self)@.tombstones.len() > 0 ==> {
                &&& final(self)@ == rebuilt(old(self)@).0
                &&& match rebuilt(old(self)@).1 {
                    Err(e) => r == Err::<usize, VectorDbError>(e),
                    Ok(_) => r matches Ok(n) && n == old(self)@.tombstones.len(),
                }
            },
    {
        proof {
            self.lemma_fits();
            if consistent(self@) {
                lemma_compact(self@);
            }
        }
        let reclaimed: usize = self.tombstones.len();
        if reclaimed > 0 {
            self.rebuild_index()?;
        }
        Ok(reclaimed)
    }
}

impl VectorDb {
    /// Search for the `limit` most similar records.
    pub fn search(&self, query: &[F32], limit: usize) -> (r: Result<
        Vec<SearchResult>,
        VectorDbError,
    >)
        requires
            self.valid(),
        ensures
            match searched(self@, query@, limit as nat, Seq::empty()) {
                Err(e) => r == Err::<Vec<SearchResult>, VectorDbError>(e),
                Ok(hits) => r matches Ok(results) && view_results(results@) == hits,
            },
    {
        self.search_filtered(query, limit, &Metadata::new())
    }

    /// Search with a metadata filter: only records that hold every pair of it
    /// are found.
    pub fn search_filtered(&self, query: &[F32], limit: usize, filter: &Metadata) -> (r: Result<
        Vec<SearchResult>,
        VectorDbError,
    >)
        requires
            self.valid(),
        ensures
            match searched(self@, query@, limit as nat, filter@) {
                Err(e) => r == Err::<Vec<SearchResult>, VectorDbError>(e),
                Ok(hits) => r matches Ok(results) && view_results(results@) == hits,
            },
            r matches Ok(results) ==> forall|i: int, f: int|
                0 <= i < results@.len() && 0 <= f < filter@.len() ==> (
                #[trigger] results@[i]).record.metadata@.contains(#[trigger] filter@[f]),
    {
        validate_against(self.dimension, query)?;
        if limit == 0 {
            let none: Vec<SearchResult> = Vec::new();
            assert(view_results(none@) =~= Seq::empty());
            return Ok(none);
        }
        if filter.is_empty() {
            self.search_index(query, limit)
        } else {
            Ok(self.search_exact(query, limit, filter))
        }
    }

    /// Unfiltered search routes through the configured index (exact or
    /// approximate); the ids it returns are resolved back to full records.
    fn search_index(&self, query: &[F32], limit: usize) -> (r: Result<
        Vec<SearchResult>,
        VectorDbError,
    >)
        requires
            self.valid(),
        ensures
            match check_vector(self@.index.dimension, query@) {
                Err(e) => r == Err::<Vec<SearchResult>, VectorDbError>(e),
                Ok(_) => r matches Ok(results) && view_results(results@) == indexed_hits(
                    self@,
                    query@,
                    limit as nat,
                ),
            },
    {
        let ef: usize = match self.index_kind {
            IndexKind::Hnsw(params) => params.ef_search,
            IndexKind::Exact => 0,
        };
        // Over-fetch by the tombstone count so deleted-but-not-compacted nodes
        // can't shrink the result below `limit`.
        let fetch: usize = limit.saturating_add(self.tombstones.len());
        let hits = self.index.search(query, fetch, ef)?;
        let ghost keep = live(self.records@);
        let mut kept: Vec<(u64, F32)> = Vec::new();
        let mut i: usize = 0;
        proof {
            reveal(Seq::filter);
            assert(hits@.take(0) =~= Seq::empty());
        }
        while i < hits.len()
            invariant
                i <= hits@.len(),
                keep == live(self.records@),
                kept@ == hits@.take(i as int).filter(keep),
            decreases hits@.len() - i,
        {
            proof {
                reveal(Seq::filter);
                assert(hits@.take(i + 1).drop_last() =~= hits@.take(i as int));
            }
            if self.records.contains(hits[i].0) {
                kept.push((hits[i].0, hits[i].1));
            }
            i = i + 1;
        }
        assert(hits@.take(i as int) =~= hits@);
        proof {
            assert forall|n: int| 0 <= n < kept@.len() implies self.records@.dom().contains(
                (#[trigger] kept@[n]).0,
            ) by {
                hits@.lemma_filter_pred(keep, n);
            }
        }
        kept.truncate(limit);
        assert(kept@ =~= first(hits@.filter(keep), limit as nat));
        let mut results: Vec<SearchResult> = Vec::new();
        let mut j: usize = 0;
        while j < kept.len()
            invariant
                j <= kept@.len(),
                forall|n: int|
                    0 <= n < kept@.len() ==> self.records@.dom().contains((#[trigger] kept@[n]).0),
                results@.len() == j,
                forall|n: int|
                    0 <= n < j ==> (#[trigger] results@[n])@ == (
                        kept@[n].1,
                        self.records@[kept@[n].0],
                    ),
            decreases kept@.len() - j,
        {
            assert(self.records@.dom().contains(kept@[j as int].0));
            if let Some(record) = self.records.get(kept[j].0) {
                results.push(SearchResult { score: kept[j].1, record: record.clone() });
            }
            j = j + 1;
        }
        assert(view_results(results@) =~= indexed_hits(self@, query@, limit as nat));
        Ok(results)
    }

    /// Filtered search stays exact: it scores the matching records directly.
    /// For a selective filter this beats over-fetching from an approximate index
    /// and sidesteps the filter-recall cliff.
    fn search_exact(&self, query: &[F32], limit: usize, filter: &Metadata) -> (r: Vec<SearchResult>)
        ensures
            view_results(r@) == exact_hits(
                listed(self@.records),
                query@,
                limit as nat,
                filter@,
            ),
            forall|i: int, f: int|
                0 <= i < r@.len() && 0 <= f < filter@.len() ==> (
                #[trigger] r@[i]).record.metadata@.contains(#[trigger] filter@[f]),
    {
        let ids = self.records.ids();
        let ghost list = listed(self.records@);
        let ghost keep = matching(filter@);
        let mut chosen: Vec<u64> = Vec::new();
        let mut scored: Vec<Placed> = Vec::new();
        let mut i: usize = 0;
        proof {
            lemma_listed(self.records@);
            reveal(Seq::filter);
            assert(list.take(0) =~= Seq::empty());
        }
        while i < ids.len()
            invariant
                i <= ids@.len(),
                ids@ == in_order(self.records@.dom()),
                list == listed(self.records@),
                list.len() == ids@.len(),
                keep == matching(filter@),
                forall|n: int|
                    0 <= n < list.len() ==> self.records@.dom().contains(
                        #[trigger] in_order(self.records@.dom())[n],
                    ) && list[n] == self.records@[in_order(self.records@.dom())[n]],
                chosen@.len() == list.take(i as int).filter(keep).len(),
                scored@.len() == chosen@.len(),
                forall|n: int|
                    0 <= n < chosen@.len() ==> self.records@.dom().contains(#[trigger] chosen@[n])
                        && self.records@[chosen@[n]] == list.take(i as int).filter(keep)[n],
                forall|n: int|
                    0 <= n < scored@.len() ==> #[trigger] scored@[n] == placed(
                        list.take(i as int).filter(keep),
                        query@,
                    )[n],
            decreases ids@.len() - i,
        {
            proof {
                reveal(Seq::filter);
                assert(list.take(i + 1).drop_last() =~= list.take(i as int));
                assert(self.records@.dom().contains(in_order(self.records@.dom())[i as int]));
            }
            if let Some(record) = self.records.get(ids[i]) {
                if record.metadata.satisfies(filter) {
                    let score = cosine_similarity(query, record.vector.as_slice());
                    scored.push(Placed { score, id: record.id, place: chosen.len() });
                    chosen.push(ids[i]);
                }
            }
            i = i + 1;
        }
        assert(list.take(i as int) =~= list);
        let ghost picked = list.filter(keep);
        assert(scored@ =~= placed(picked, query@));
        let mut order = rank(scored);
        proof {
            lemma_placed_ranking(picked, query@);
        }
        order.truncate(limit);
        let ghost best = first(ranking(placed(picked, query@)), limit as nat);
        assert(order@ =~= best);
        let mut results: Vec<SearchResult> = Vec::new();
        let mut j: usize = 0;
        while j < order.len()
            invariant
                j <= order@.len(),
                chosen@.len() == picked.len(),
                forall|n: int|
                    0 <= n < order@.len() ==> (#[trigger] order@[n]).place < picked.len(),
                forall|n: int|
                    0 <= n < chosen@.len() ==> self.records@.dom().contains(#[trigger] chosen@[n])
                        && self.records@[chosen@[n]] == picked[n],
                results@.len() == j,
                forall|n: int|
                    0 <= n < j ==> (#[trigger] results@[n])@ == (
                        order@[n].score,
                        picked[order@[n].place as int],
                    ),
            decreases order@.len() - j,
        {
            let at: usize = order[j].place;
            assert(order@[j as int].place < picked.len());
            assert(self.records@.dom().contains(chosen@[at as int]));
            if let Some(record) = self.records.get(chosen[at]) {
                results.push(SearchResult { score: order[j].score, record: record.clone() });
            }
            j = j + 1;
        }
        assert(view_results(results@) =~= resolved(picked, best));
        proof {
            assert forall|i: int, f: int|
                0 <= i < results@.len() && 0 <= f < filter@.len() implies (
            #[trigger] results@[i]).record.metadata@.contains(#[trigger] filter@[f]) by {
                lemma_hits_hold_filter(list, query@, limit as nat, filter@, i, f);
                assert(view_results(results@)[i] == results@[i]@);
            }
        }
        results
    }

    /// Build an approximate nearest-neighbour index from this collection.
    ///
    /// The collection keeps its own search; this returns a separate, experimental
    /// [`AnnIndex`] for faster approximate search over large collections.
    pub fn build_ann_index(&self, params: AnnParams) -> (r: Result<AnnIndex, VectorDbError>)
        ensures
            match built(IndexKind::Hnsw(params), self@.dimension, entries_of(self@.records)) {
                Err(e) => r == Err::<AnnIndex, VectorDbError>(e),
                Ok(model) => r matches Ok(index) && index.valid() && Index::Graph(index).model()
                    == model,
            },
    {
        let mut index = match self.dimension {
            Some(dimension) => AnnIndex::with_dimension(dimension, params)?,
            None => AnnIndex::with_params(params),
        };
        let ids = self.records.ids();
        let ghost entries = entries_of(self.records@);
        let ghost start = blank(IndexKind::Hnsw(params), self.dimension);
        proof {
            lemma_listed(self.records@);
            assert(entries.take(0) =~= Seq::empty());
            assert(Index::Graph(index).model() == start);
        }
        let mut i: usize = 0;
        while i < ids.len()
            invariant
                i <= ids@.len(),
                ids@ == in_order(self.records@.dom()),
                entries == entries_of(self.records@),
                entries.len() == ids@.len(),
                start == blank(IndexKind::Hnsw(params), self.dimension),
                self.dimension != Some(0usize),
                forall|n: int|
                    0 <= n < ids@.len() ==> self.records@.dom().contains(
                        #[trigger] in_order(self.records@.dom())[n],
                    ) && entries[n] == (
                        self.records@[in_order(self.records@.dom())[n]].id,
                        self.records@[in_order(self.records@.dom())[n]].vector,
                    ),
                index.valid(),
                filled(start, entries.take(i as int)) == Ok::<IndexModel, VectorDbError>(
                    Index::Graph(index).model(),
                ),
            decreases ids@.len() - i,
        {
            proof {
                assert(self.records@.dom().contains(in_order(self.records@.dom())[i as int]));
                assert(entries.take(i + 1).drop_last() =~= entries.take(i as int));
                Index::Graph(index).lemma_model();
            }
            if let Some(record) = self.records.get(ids[i]) {
                let vector = record.vector.clone();
                assert(vector@ =~= record.vector@);
                match AnnIndex::insert(&mut index, record.id, vector) {
                    Ok(_) => {},
                    Err(e) => {
                        proof {
                            lemma_filled_fails(start, entries, i + 1);
                        }
                        return Err(e);
                    },
                }
            }
            i = i + 1;
        }
        assert(entries.take(i as int) =~= entries);
        Ok(index)
    }

    /// The `.lvdb` file of this database: a compact, portable binary format.
    ///
    /// The graph is stored only when it's clean. With pending tombstones the
    /// index still references deleted ids, so it is left out and loading
    /// rebuilds it from the (live) records; `compact` first for an instant-load
    /// file.
    pub fn to_bytes(&self) -> (r: Vec<u8>)
        requires
            self.valid(),
        ensures
            r@ == file_bytes(
                saved(self@).dimension,
                saved(self@).index_kind,
                saved(self@).encoding,
                listed(saved(self@).records),
                saved(self@).index,
            ),
    {
        let index = if self.tombstones.is_empty() {
            self.index.persist()
        } else {
            None
        };
        encode(self.dimension, self.index_kind, self.encoding, &self.records, index.as_ref())
    }

    /// The database in the bytes of a `.lvdb` file.
    ///
    /// Returns [`VectorDbError::Corrupt`] for a malformed or truncated file and
    /// [`VectorDbError::UnsupportedVersion`] for a newer major format version.
    pub fn from_bytes(bytes: &[u8]) -> (r: Result<Self, VectorDbError>)
        ensures
            match parse_file(bytes@) {
                Err(e) => r == Err::<Self, VectorDbError>(e),
                Ok(file) => match assembled(file) {
                    Err(e) => r == Err::<Self, VectorDbError>(e),
                    Ok(view) => r matches Ok(db) && db.valid() && db@ == view,
                },
            },
            r matches Ok(db) ==> (db@.dimension is Some || db@.records.len() == 0 ==> consistent(
                db@,
            )),
    {
        let len: usize = bytes.len();
        proof {
            assert(bytes@.len() == len);
            if parse_file(bytes@) matches Ok(file) && assembled(file) is Ok && (
            file.dimension is Some || file.records.len() == 0) {
                lemma_load_consistent(bytes@);
            }
        }
        let (dimension, index_kind, encoding, records, index) = decode(bytes)?;
        VectorDb::from_parts(dimension, index_kind, encoding, records, index)
    }

    /// Reconstruct a database from loaded parts: validate, then restore the
    /// index — reusing a persisted graph when present, otherwise rebuilding.
    pub fn from_parts(
        dimension: Option<usize>,
        index_kind: IndexKind,
        encoding: Encoding,
        records: Records,
        index_data: Option<IndexData>,
    ) -> (r: Result<Self, VectorDbError>)
        ensures
            match assembled(
                FileView {
                    dimension,
                    index_kind,
                    encoding,
                    records: records@,
                    index: view_data(index_data),
                },
            ) {
                Err(e) => r == Err::<Self, VectorDbError>(e),
                Ok(view) => r matches Ok(db) && db.valid() && db@ == view,
            },
    {
        let mut db = VectorDb::with_index_kind(index_kind);
        db.dimension = dimension;
        db.records = records;
        db.encoding = encoding;
        db.validate_database()?;
        match (index_kind, index_data) {
            // A persisted graph is reconstructed directly — no rebuild.
            (IndexKind::Hnsw(params), Some(data)) => {
                db.index = Index::from_persisted(dimension, params, data, &db.records)?;
            },
            // Exact index, JSON, or an older file without a graph: rebuild.
            _ => {
                db.rebuild_index()?;
            },
        }
        Ok(db)
    }

    fn validate_database(&self) -> (r: Result<(), VectorDbError>)
        ensures
            r == database_valid(self@.dimension, self@.records),
    {
        let ids = self.records.ids();
        let ghost list = listed(self.records@);
        let mut i: usize = 0;
        proof {
            lemma_listed(self.records@);
            assert(list.take(0) =~= Seq::empty());
        }
        while i < ids.len()
            invariant
                i <= ids@.len(),
                ids@ == in_order(self.records@.dom()),
                list == listed(self.records@),
                list.len() == ids@.len(),
                forall|n: int|
                    0 <= n < list.len() ==> self.records@.dom().contains(
                        #[trigger] in_order(self.records@.dom())[n],
                    ) && list[n] == self.records@[in_order(self.records@.dom())[n]],
                vetted(self.dimension, list.take(i as int)) == Ok::<(), VectorDbError>(()),
            decreases ids@.len() - i,
        {
            proof {
                assert(self.records@.dom().contains(in_order(self.records@.dom())[i as int]));
                assert(list.take(i + 1).drop_last() =~= list.take(i as int));
            }
            if let Some(record) = self.records.get(ids[i]) {
                match validate_against(self.dimension, record.vector.as_slice()) {
                    Ok(_) => {},
                    Err(e) => {
                        proof {
                            lemma_vetted_fails(self.dimension, list, i + 1);
                        }
                        return Err(e);
                    },
                }
            }
            i = i + 1;
        }
        assert(list.take(i as int) =~= list);
        if let Some(d) = self.dimension {
            if d == 0 && self.records.is_empty() {
                return Err(VectorDbError::InvalidVector("dimension must be greater than zero"));
            }
        }
        Ok(())
    }

    /// A copy of this collection, with an index built anew from the records.
    pub fn clone(&self) -> (r: Self)
        requires
            self.valid(),
            rebuilt(self@).1 is Ok,
        ensures
            r.valid(),
            r@ == rebuilt(self@).0,
            consistent(self@) ==> consistent(r@),
    {
        proof {
            self.lemma_fits();
            if consistent(self@) {
                lemma_compact(self@);
            }
        }
        let mut cloned = VectorDb::with_index_kind(self.index_kind);
        cloned.dimension = self.dimension;
        cloned.records = self.records.clone();
        cloned.encoding = self.encoding;
        let done = cloned.rebuild_index();
        assert(done is Ok);
        cloned
    }
}

/// A refusal among the first records is the refusal of all of them.
proof fn lemma_vetted_fails(dimension: Option<usize>, list: Seq<RecordView>, n: int)
    requires
        0 <= n <= list.len(),
        vetted(dimension, list.take(n)) is Err,
    ensures
        vetted(dimension, list) == vetted(dimension, list.take(n)),
    decreases list.len() - n,
{
    if n == list.len() {
        assert(list.take(n) =~= list);
    } else {
        assert(list.take(n + 1).drop_last() =~= list.take(n));
        lemma_vetted_fails(dimension, list, n + 1);
    }
}

} // verus!
