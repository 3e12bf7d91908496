//! The index layer: one trait, interchangeable implementations.
//!
//! An index answers "which stored vectors are nearest this query?" — nothing
//! more. It owns only ids and geometry, never the payloads; the database keeps
//! those and resolves the ids that an index returns back into full records.
//!
//! - [`BruteForce`](brute_force::BruteForce) — exact linear scan.
//! - [`AnnIndex`](hnsw::AnnIndex) — an approximate small-world graph.

pub mod brute_force;
pub mod complete;
pub mod graph;
pub mod greedy;
pub mod growth;
pub mod hnsw;
pub mod linking;
pub mod model;

use crate::distance::similarity;
use crate::error::VectorDbError;
use crate::float::F32;
use crate::record::check_vector;
use vstd::prelude::*;

verus! {

/// A persistable snapshot of a graph index's *structure* — not its vectors,
/// which stand in the records.
#[derive(Debug, PartialEq)]
pub struct IndexData {
    /// Node index → record id (in the index's own node order).
    pub node_ids: Vec<u64>,
    /// Node index → its neighbours' node indices.
    pub neighbors: Vec<Vec<u32>>,
    /// The entry node index, if the graph is non-empty.
    pub entry: Option<u32>,
}

/// What an [`IndexData`] holds.
pub struct IndexView {
    pub node_ids: Seq<u64>,
    pub neighbors: Seq<Seq<u32>>,
    pub entry: Option<u32>,
}

impl View for IndexData {
    type V = IndexView;

    open spec fn view(&self) -> IndexView {
        IndexView {
            node_ids: self.node_ids@,
            neighbors: self.neighbors@.map_values(|list: Vec<u32>| list@),
            entry: self.entry,
        }
    }
}

/// The view of a snapshot, where there is one.
pub open spec fn view_data(data: Option<IndexData>) -> Option<IndexView> {
    match data {
        Some(data) => Some(data@),
        None => None,
    }
}

/// Every vector is one that the index accepts, and the first fixed the
/// dimension.
pub open spec fn entries_fit(dimension: Option<usize>, entries: Seq<(u64, Seq<F32>)>) -> bool {
    &&& dimension != Some(0usize)
    &&& entries.len() > 0 ==> dimension is Some
    &&& forall|i: int|
        0 <= i < entries.len() ==> check_vector(dimension, (#[trigger] entries[i]).1) is Ok
}

/// The score of every entry, in the order of the entries.
pub open spec fn scores(entries: Seq<(u64, Seq<F32>)>, query: Seq<F32>) -> Seq<(u64, F32)> {
    entries.map_values(|e: (u64, Seq<F32>)| (e.0, similarity(query, e.1)))
}

/// `hit` is the id of an entry with the score of that entry.
pub open spec fn is_scored_entry(
    entries: Seq<(u64, Seq<F32>)>,
    query: Seq<F32>,
    hit: (u64, F32),
) -> bool {
    exists|e: int|
        0 <= e < entries.len() && #[trigger] entries[e].0 == hit.0 && similarity(
            query,
            entries[e].1,
        ) == hit.1
}

/// What every index promises of its hits: no more than `k`, each an entry with
/// its own score, and no score above the one before it.
pub open spec fn hits_sound(
    entries: Seq<(u64, Seq<F32>)>,
    query: Seq<F32>,
    k: nat,
    hits: Seq<(u64, F32)>,
) -> bool {
    &&& hits.len() <= k
    &&& hits.len() <= entries.len()
    &&& forall|i: int|
        0 <= i < hits.len() ==> is_scored_entry(entries, query, #[trigger] hits[i])
    &&& forall|i: int, j: int|
        0 <= i < j < hits.len() ==> (#[trigger] hits[i]).1.total_rank() >= (
        #[trigger] hits[j]).1.total_rank()
}

/// A nearest-neighbour index over `(id, vector)` pairs.
pub trait VectorIndex: Sized {
    /// The invariant of the index.
    spec fn valid(&self) -> bool;

    /// The dimension that vectors must have, once fixed.
    spec fn fixed_dimension(&self) -> Option<usize>;

    /// What was inserted, in order.
    spec fn entries(&self) -> Seq<(u64, Seq<F32>)>;

    /// What a search for `query` gives.
    spec fn nearest(&self, query: Seq<F32>, k: nat, ef: nat) -> Seq<(u64, F32)>;

    /// The structure to store, if there is one worth storing.
    spec fn snapshot(&self) -> Option<IndexView>;

    /// Whatever the index, its entries fit its dimension and the memory, and its
    /// hits are sound.
    proof fn lemma_sound(&self, query: Seq<F32>, k: nat, ef: nat)
        requires
            self.valid(),
        ensures
            entries_fit(self.fixed_dimension(), self.entries()),
            self.entries().len() <= usize::MAX,
            hits_sound(self.entries(), query, k, self.nearest(query, k, ef)),
    ;

    /// Add a vector under `id`. Returns an error for empty, non-finite, or
    /// wrong-dimension vectors.
    fn insert(&mut self, id: u64, vector: Vec<F32>) -> (r: Result<(), VectorDbError>)
        requires
            old(self).valid(),
        ensures
            final(self).valid(),
            r == check_vector(old(self).fixed_dimension(), vector@),
            r is Err ==> *final(self) == *old(self),
            r is Ok ==> {
                &&& final(self).entries() == old(self).entries().push((id, vector@))
                &&& final(self).fixed_dimension() == Some(vector@.len() as usize)
            },
    ;

    /// Return up to `k` ids most similar to `query`, each with its score,
    /// sorted by descending score.
    ///
    /// `ef` is the search-effort hint used by graph indexes (larger = higher
    /// recall, slower); exact indexes ignore it.
    fn search(&self, query: &[F32], k: usize, ef: usize) -> (r: Result<
        Vec<(u64, F32)>,
        VectorDbError,
    >)
        requires
            self.valid(),
        ensures
            match check_vector(self.fixed_dimension(), query@) {
                Err(e) => r == Err::<Vec<(u64, F32)>, VectorDbError>(e),
                Ok(_) => r matches Ok(hits) && hits@ == self.nearest(query@, k as nat, ef as nat),
            },
    ;

    /// A snapshot of the index's graph for persistence, if it has one worth
    /// storing. Exact indexes have nothing to persist: they are simply rebuilt
    /// on load.
    fn persist(&self) -> (r: Option<IndexData>)
        requires
            self.valid(),
        ensures
            view_data(r) == self.snapshot(),
    ;

    /// Number of indexed vectors.
    fn len(&self) -> (r: usize)
        ensures
            r == self.entries().len(),
    ;

    /// Whether the index holds no vectors.
    fn is_empty(&self) -> (r: bool)
        ensures
            r == (self.entries().len() == 0),
    ;
}

} // verus!
