//! The index of a collection, of either kind.

use super::brute_force::{best, BruteForce};
use super::graph::{explore, Graph};
use super::hnsw::{
    at_least, hits_of, node_entries, node_vectors, pack_graph, restore, unpack_graph, AnnIndex,
    AnnParams,
};
use super::linking::grown;
use super::{entries_fit, IndexData, IndexView, VectorIndex};
use crate::db::IndexKind;
use crate::error::VectorDbError;
use crate::float::F32;
use crate::ranking::first;
use crate::record::{check_vector, RecordView};
use crate::records::Records;
use vstd::prelude::*;

verus! {

/// What an index holds: its kind, its dimension once fixed, what was inserted
/// and, for a graph, the links and the entry.
pub struct IndexModel {
    pub kind: IndexKind,
    pub dimension: Option<usize>,
    pub entries: Seq<(u64, Seq<F32>)>,
    pub links: Seq<Seq<usize>>,
    pub entry: Option<usize>,
}

impl IndexModel {
    pub open spec fn vectors(self) -> Seq<Seq<F32>> {
        self.entries.map_values(|e: (u64, Seq<F32>)| e.1)
    }

    pub open spec fn ids(self) -> Seq<u64> {
        self.entries.map_values(|e: (u64, Seq<F32>)| e.0)
    }

    pub open spec fn graph(self) -> Graph {
        Graph { vectors: self.vectors(), neighbors: self.links, entry: self.entry }
    }

    /// The index after a vector that it accepts has been put in.
    pub open spec fn push(self, id: u64, vector: Seq<F32>) -> IndexModel {
        let dimension = Some(vector.len() as usize);
        let entries = self.entries.push((id, vector));
        match self.kind {
            IndexKind::Exact => IndexModel { dimension, entries, ..self },
            IndexKind::Hnsw(params) => {
                let g = grown(
                    self.graph(),
                    vector,
                    params.max_neighbors as nat,
                    params.ef_construction as nat,
                );
                IndexModel { dimension, entries, links: g.neighbors, entry: g.entry, ..self }
            },
        }
    }

    /// What a search gives.
    pub open spec fn nearest(self, query: Seq<F32>, k: nat, ef: nat) -> Seq<(u64, F32)> {
        match self.kind {
            IndexKind::Exact => best(self.entries, query, k),
            IndexKind::Hnsw(_) => if k == 0 {
                Seq::empty()
            } else {
                hits_of(self.entries, first(explore(self.graph(), query, at_least(ef, k)), k))
            },
        }
    }

    /// The structure to store, if there is one worth storing.
    pub open spec fn snapshot(self) -> Option<IndexView> {
        match self.kind {
            IndexKind::Exact => None,
            IndexKind::Hnsw(_) => if self.entries.len() > u32::MAX {
                None
            } else {
                Some(pack_graph(self.ids(), self.graph()))
            },
        }
    }
}

/// An index of the given kind that nothing was put in.
pub open spec fn blank(kind: IndexKind, dimension: Option<usize>) -> IndexModel {
    IndexModel { kind, dimension, entries: Seq::empty(), links: Seq::empty(), entry: None }
}

/// An index that the given vectors were put in, in order, or the first refusal.
pub open spec fn filled(start: IndexModel, entries: Seq<(u64, Seq<F32>)>) -> Result<
    IndexModel,
    VectorDbError,
>
    decreases entries.len(),
{
    if entries.len() == 0 {
        Ok(start)
    } else {
        match filled(start, entries.drop_last()) {
            Err(e) => Err(e),
            Ok(index) => match check_vector(index.dimension, entries.last().1) {
                Err(e) => Err(e),
                Ok(_) => Ok(index.push(entries.last().0, entries.last().1)),
            },
        }
    }
}

/// An index built from scratch, or why it cannot be.
pub open spec fn built(
    kind: IndexKind,
    dimension: Option<usize>,
    entries: Seq<(u64, Seq<F32>)>,
) -> Result<IndexModel, VectorDbError> {
    if dimension == Some(0usize) {
        Err(VectorDbError::InvalidVector("dimension must be greater than zero"))
    } else {
        filled(blank(kind, dimension), entries)
    }
}

/// A refusal among the first vectors is the refusal of all of them.
pub proof fn lemma_filled_fails(start: IndexModel, entries: Seq<(u64, Seq<F32>)>, n: int)
    requires
        0 <= n <= entries.len(),
        filled(start, entries.take(n)) is Err,
    ensures
        filled(start, entries) == filled(start, entries.take(n)),
    decreases entries.len() - n,
{
    if n == entries.len() {
        assert(entries.take(n) =~= entries);
    } else {
        assert(entries.take(n + 1).drop_last() =~= entries.take(n));
        lemma_filled_fails(start, entries, n + 1);
    }
}

/// Filling an index does not change its kind.
pub proof fn lemma_filled_kind(start: IndexModel, entries: Seq<(u64, Seq<F32>)>)
    ensures
        filled(start, entries) matches Ok(index) ==> index.kind == start.kind,
    decreases entries.len(),
{
    if entries.len() > 0 {
        lemma_filled_kind(start, entries.drop_last());
    }
}

/// The index of a collection.
#[derive(Debug)]
pub enum Index {
    Exact(BruteForce),
    Graph(AnnIndex),
}

impl Index {
    /// What the index holds.
    pub open spec fn model(&self) -> IndexModel {
        match self {
            Index::Exact(index) => IndexModel {
                kind: IndexKind::Exact,
                dimension: index.width(),
                entries: index.contents(),
                links: Seq::empty(),
                entry: None,
            },
            Index::Graph(index) => IndexModel {
                kind: IndexKind::Hnsw(index.tuning()),
                dimension: index.width(),
                entries: index.contents(),
                links: index.graph().neighbors,
                entry: index.graph().entry,
            },
        }
    }

    /// The model of a graph index has its graph.
    pub proof fn lemma_model(&self)
        ensures
            *self matches Index::Graph(index) ==> self.model().graph() == index.graph() && (
            self.valid() ==> index.graph().valid()),
            self.valid() ==> entries_fit(self.model().dimension, self.model().entries),
            self.valid() ==> self.model().entries.len() <= usize::MAX,
    {
        match self {
            Index::Exact(index) => {
                if self.valid() {
                    index.lemma_sound(Seq::empty(), 0, 0);
                }
            },
            Index::Graph(index) => {
                index.lemma_graph();
                assert(self.model().graph().vectors =~= index.graph().vectors);
                if self.valid() {
                    index.lemma_sound(Seq::empty(), 0, 0);
                }
            },
        }
    }

    /// Build an empty index of the requested kind for a (possibly unknown)
    /// dimension.
    pub fn empty(kind: IndexKind, dimension: Option<usize>) -> (r: Result<Self, VectorDbError>)
        ensures
            dimension == Some(0usize) ==> r == Err::<Self, VectorDbError>(
                VectorDbError::InvalidVector("dimension must be greater than zero"),
            ),
            dimension != Some(0usize) ==> r is Ok,
            r matches Ok(index) ==> index.valid() && index.model() == blank(kind, dimension),
    {
        match kind {
            IndexKind::Exact => match dimension {
                Some(d) => Ok(Index::Exact(BruteForce::with_dimension(d)?)),
                None => Ok(Index::Exact(BruteForce::new())),
            },
            IndexKind::Hnsw(params) => match dimension {
                Some(d) => Ok(Index::Graph(AnnIndex::with_dimension(d, params)?)),
                None => Ok(Index::Graph(AnnIndex::with_params(params))),
            },
        }
    }

    /// Take up a stored graph again.
    pub fn from_persisted(
        dimension: Option<usize>,
        params: AnnParams,
        data: IndexData,
        records: &Records,
    ) -> (r: Result<Self, VectorDbError>)
        ensures
            match restore(dimension, data@, records@) {
                Err(e) => r == Err::<Self, VectorDbError>(e),
                Ok(fixed) => r matches Ok(index) && index.valid() && index.model() == restored(
                    fixed,
                    params,
                    data@,
                    records@,
                ),
            },
    {
        Ok(Index::Graph(AnnIndex::from_persisted(dimension, params, data, records)?))
    }
}

/// The index that a stored structure and the records' vectors give.
pub open spec fn restored(
    dimension: Option<usize>,
    params: AnnParams,
    data: IndexView,
    records: Map<u64, RecordView>,
) -> IndexModel {
    let g = unpack_graph(data, node_vectors(data, records));
    IndexModel {
        kind: IndexKind::Hnsw(params),
        dimension,
        entries: node_entries(data, records),
        links: g.neighbors,
        entry: g.entry,
    }
}

impl VectorIndex for Index {
    open spec fn valid(&self) -> bool {
        match self {
            Index::Exact(index) => index.valid(),
            Index::Graph(index) => index.valid(),
        }
    }

    open spec fn fixed_dimension(&self) -> Option<usize> {
        self.model().dimension
    }

    open spec fn entries(&self) -> Seq<(u64, Seq<F32>)> {
        self.model().entries
    }

    open spec fn nearest(&self, query: Seq<F32>, k: nat, ef: nat) -> Seq<(u64, F32)> {
        self.model().nearest(query, k, ef)
    }

    open spec fn snapshot(&self) -> Option<IndexView> {
        self.model().snapshot()
    }

    proof fn lemma_sound(&self, query: Seq<F32>, k: nat, ef: nat) {
        self.lemma_model();
        match self {
            Index::Exact(index) => index.lemma_sound(query, k, ef),
            Index::Graph(index) => index.lemma_sound(query, k, ef),
        }
    }

    fn insert(&mut self, id: u64, vector: Vec<F32>) -> (r: Result<(), VectorDbError>)
        ensures
            r is Ok ==> final(self).model() == old(self).model().push(id, vector@),
    {
        proof {
            self.lemma_model();
        }
        let ghost v = vector@;
        let r = match self {
            Index::Exact(index) => index.insert(id, vector),
            Index::Graph(index) => AnnIndex::insert(index, id, vector),
        };
        proof {
            self.lemma_model();
        }
        r
    }

    fn search(&self, query: &[F32], k: usize, ef: usize) -> (r: Result<
        Vec<(u64, F32)>,
        VectorDbError,
    >) {
        proof {
            self.lemma_model();
        }
        match self {
            Index::Exact(index) => index.search(query, k, ef),
            Index::Graph(index) => index.search_with_ef(query, k, ef),
        }
    }

    fn persist(&self) -> (r: Option<IndexData>) {
        proof {
            self.lemma_model();
        }
        match self {
            Index::Exact(index) => index.persist(),
            Index::Graph(index) => index.persist(),
        }
    }

    fn len(&self) -> (r: usize) {
        match self {
            Index::Exact(index) => VectorIndex::len(index),
            Index::Graph(index) => VectorIndex::len(index),
        }
    }

    fn is_empty(&self) -> (r: bool) {
        match self {
            Index::Exact(index) => VectorIndex::is_empty(index),
            Index::Graph(index) => VectorIndex::is_empty(index),
        }
    }
}

} // verus!
