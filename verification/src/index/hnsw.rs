//! Experimental approximate nearest-neighbour (ANN) index.
//!
//! A single-layer navigable small-world graph: nodes are connected to their
//! approximate nearest neighbours at insert time, and queries greedily walk the
//! graph toward the most similar vectors.
//!
//! Results are approximate: with the default parameters recall is high but not
//! guaranteed to match brute force. Raise [`AnnParams::ef_search`] to trade
//! speed for accuracy.

use super::graph::{
    below, explore, finished, lemma_explore_sound, lemma_start_sound, lemma_visit_all_sound,
    lemma_visit_all_steps, steps_left, visit_all, walk, walk_sound, walk_start, Candidate, Graph,
    Walk,
};
use super::linking::{
    closest, dedup, grown, lemma_closest, lemma_grown, lemma_link_all, lemma_select, link, link_all,
    nodes_of, other_than, proximity, select,
};
use super::{entries_fit, is_scored_entry, IndexData, IndexView, VectorIndex};
use crate::distance::{cosine_similarity, similarity};
use crate::error::VectorDbError;
use crate::float::F32;
use crate::ranking::{first, lemma_ranking, rank, rank_in, ranking, Ranked};
use crate::record::{accept_all, check_vector, lemma_accept_fails, validate_against, RecordView};
use crate::records::{IdSet, Records};
use vstd::prelude::*;

verus! {

/// Tuning parameters for an [`AnnIndex`].
#[derive(Debug, Clone, Copy, PartialEq, Eq, Structural)]
pub struct AnnParams {
    /// Maximum neighbours retained per node (`M` in HNSW terms).
    pub max_neighbors: usize,
    /// Size of the dynamic candidate list kept while inserting.
    pub ef_construction: usize,
    /// Default size of the dynamic candidate list kept while searching.
    pub ef_search: usize,
}

impl Default for AnnParams {
    fn default() -> (r: Self)
        ensures
            r.max_neighbors == 16,
            r.ef_construction == 64,
            r.ef_search == 64,
    {
        AnnParams { max_neighbors: 16, ef_construction: 64, ef_search: 64 }
    }
}

/// One indexed vector and its id.
#[derive(Debug)]
struct Node {
    id: u64,
    vector: Vec<F32>,
}

/// An in-memory approximate nearest-neighbour index over `(id, vector)` pairs.
#[derive(Debug)]
pub struct AnnIndex {
    dimension: Option<usize>,
    params: AnnParams,
    nodes: Vec<Node>,
    neighbors: Vec<Vec<usize>>,
    entry: Option<usize>,
}

/// The larger of two sizes.
pub open spec fn at_least(a: nat, b: nat) -> nat {
    if a < b {
        b
    } else {
        a
    }
}

impl AnnIndex {
    /// The graph over the inserted vectors, each a node.
    pub closed spec fn graph(&self) -> Graph {
        Graph {
            vectors: self.nodes@.map_values(|n: Node| n.vector@),
            neighbors: self.neighbors@.map_values(|list: Vec<usize>| list@),
            entry: self.entry,
        }
    }

    /// The dimension that vectors must have, once fixed.
    pub closed spec fn width(&self) -> Option<usize> {
        self.dimension
    }

    /// What was inserted, in order.
    pub closed spec fn contents(&self) -> Seq<(u64, Seq<F32>)> {
        self.nodes@.map_values(|n: Node| (n.id, n.vector@))
    }

    /// The tuning parameters.
    pub closed spec fn tuning(&self) -> AnnParams {
        self.params
    }

    /// The graph stands over the vectors of the entries.
    pub proof fn lemma_graph(&self)
        ensures
            self.graph().vectors == self.entries().map_values(|e: (u64, Seq<F32>)| e.1),
            self.valid() ==> self.graph().valid(),
    {
        assert(self.graph().vectors =~= self.entries().map_values(|e: (u64, Seq<F32>)| e.1));
    }

    /// Create an empty index with default parameters. The dimension is fixed by
    /// the first inserted vector.
    pub fn new() -> (r: Self)
        ensures
            r.valid(),
            r.fixed_dimension() is None,
            r.entries() == Seq::<(u64, Seq<F32>)>::empty(),
            r.tuning() == (AnnParams { max_neighbors: 16, ef_construction: 64, ef_search: 64 }),
    {
        AnnIndex::with_params(AnnParams::default())
    }

    /// Create an empty index with the given parameters.
    pub fn with_params(params: AnnParams) -> (r: Self)
        ensures
            r.valid(),
            r.fixed_dimension() is None,
            r.entries() == Seq::<(u64, Seq<F32>)>::empty(),
            r.graph() == (Graph {
                vectors: Seq::empty(),
                neighbors: Seq::empty(),
                entry: None,
            }),
            r.tuning() == params,
    {
        let r = AnnIndex {
            dimension: None,
            params,
            nodes: Vec::new(),
            neighbors: Vec::new(),
            entry: None,
        };
        assert(r.entries() =~= Seq::<(u64, Seq<F32>)>::empty());
        assert(r.graph().vectors =~= Seq::empty());
        assert(r.graph().neighbors =~= Seq::empty());
        r
    }

    /// Create an empty index that only accepts vectors of `dimension`.
    pub fn with_dimension(dimension: usize, params: AnnParams) -> (r: Result<Self, VectorDbError>)
        ensures
            dimension == 0 ==> r == Err::<Self, VectorDbError>(
                VectorDbError::InvalidVector("dimension must be greater than zero"),
            ),
            dimension > 0 ==> r is Ok,
            r matches Ok(index) ==> {
                &&& index.valid()
                &&& index.fixed_dimension() == Some(dimension)
                &&& index.entries() == Seq::<(u64, Seq<F32>)>::empty()
                &&& index.graph() == (Graph {
                    vectors: Seq::empty(),
                    neighbors: Seq::empty(),
                    entry: None,
                })
                &&& index.tuning() == params
            },
    {
        if dimension == 0 {
            return Err(VectorDbError::InvalidVector("dimension must be greater than zero"));
        }
        let mut r = AnnIndex::with_params(params);
        r.dimension = Some(dimension);
        assert(r.entries() =~= Seq::<(u64, Seq<F32>)>::empty());
        Ok(r)
    }

    /// The fixed vector dimension, once known.
    pub fn dimension(&self) -> (r: Option<usize>)
        ensures
            r == self.fixed_dimension(),
    {
        self.dimension
    }

    /// Number of indexed vectors.
    pub fn len(&self) -> (r: usize)
        ensures
            r == self.entries().len(),
    {
        self.nodes.len()
    }

    /// Whether the index holds no vectors.
    pub fn is_empty(&self) -> (r: bool)
        ensures
            r == (self.entries().len() == 0),
    {
        self.nodes.len() == 0
    }

    /// The tuning parameters this index was built with.
    pub fn params(&self) -> (r: AnnParams)
        ensures
            r == self.tuning(),
    {
        self.params
    }

    /// Greedy best-first walk of the graph, returning up to `ef` closest nodes
    /// sorted by descending similarity.
    fn search_layer(&self, query: &[F32], ef: usize) -> (r: Vec<Candidate>)
        requires
            self.graph().valid(),
        ensures
            r@ == explore(self.graph(), query@, ef as nat),
    {
        let ghost g = self.graph();
        let entry: usize = match self.entry {
            None => {
                let none: Vec<Candidate> = Vec::new();
                assert(none@ =~= Seq::empty());
                return none;
            },
            Some(entry) => entry,
        };
        let width: usize = if ef < 1 {
            1
        } else {
            ef
        };
        let mut visited: Vec<bool> = Vec::new();
        let mut i: usize = 0;
        while i < self.nodes.len()
            invariant
                i <= self.nodes@.len(),
                visited@.len() == i,
                forall|j: int| 0 <= j < i ==> #[trigger] visited@[j] == (j == entry),
            decreases self.nodes@.len() - i,
        {
            visited.push(i == entry);
            i = i + 1;
        }
        let start = Candidate {
            similarity: cosine_similarity(query, self.nodes[entry].vector.as_slice()),
            node: entry,
        };
        // Both lists stand best first: the next node to expand is at the front
        // of one, the first to be evicted at the back of the other.
        let mut frontier: Vec<Candidate> = vec![start];
        let mut kept: Vec<Candidate> = vec![start];
        proof {
            lemma_start_sound(g, query@, entry, width as nat);
            let s = walk_start(g, query@, entry);
            assert(visited@ =~= s.visited);
            assert(frontier@ =~= s.frontier);
            assert(kept@ =~= s.kept);
        }
        while frontier.len() > 0
            invariant
                g == self.graph(),
                g.valid(),
                width >= 1,
                walk_sound(
                    Walk { visited: visited@, frontier: frontier@, kept: kept@ },
                    g,
                    query@,
                    width as nat,
                ),
                walk(
                    Walk { visited: visited@, frontier: frontier@, kept: kept@ },
                    g,
                    query@,
                    width as nat,
                ) == explore(g, query@, ef as nat),
            ensures
                kept@ == explore(g, query@, ef as nat),
            decreases
                    steps_left(Walk { visited: visited@, frontier: frontier@, kept: kept@ }),
        {
            let ghost s = Walk { visited: visited@, frontier: frontier@, kept: kept@ };
            let current = frontier[0];
            let worst = kept[kept.len() - 1].similarity;
            if kept.len() >= width && current.similarity.lt(worst) {
                assert(finished(s, width as nat));
                break;
            }
            let _ = frontier.remove(0);
            let ghost next = Walk { frontier: s.frontier.skip(1), ..s };
            let ghost nodes = g.neighbors[current.node as int];
            proof {
                assert(frontier@ =~= next.frontier);
                assert(nodes.take(0) =~= Seq::empty());
                assert(below(nodes, g.vectors.len()));
                assert(self.neighbors@[current.node as int]@ == nodes);
            }
            let mut index: usize = 0;
            while index < self.neighbors[current.node].len()
                invariant
                    g == self.graph(),
                    current.node < self.neighbors@.len(),
                    nodes == self.neighbors@[current.node as int]@,
                    below(nodes, g.vectors.len()),
                    index <= nodes.len(),
                    width >= 1,
                    walk_sound(next, g, query@, width as nat),
                    (Walk { visited: visited@, frontier: frontier@, kept: kept@ }) == visit_all(
                        next,
                        g,
                        query@,
                        width as nat,
                        nodes.take(index as int),
                    ),
                decreases nodes.len() - index,
            {
                let neighbor: usize = self.neighbors[current.node][index];
                let ghost t = Walk { visited: visited@, frontier: frontier@, kept: kept@ };
                proof {
                    lemma_visit_all_sound(next, g, query@, width as nat, nodes.take(index as int));
                    assert(nodes.take(index + 1).drop_last() =~= nodes.take(index as int));
                }
                index = index + 1;
                if !visited[neighbor] {
                    visited.set(neighbor, true);
                    let candidate = Candidate {
                        similarity: cosine_similarity(
                            query,
                            self.nodes[neighbor].vector.as_slice(),
                        ),
                        node: neighbor,
                    };
                    let worst = kept[kept.len() - 1].similarity;
                    if kept.len() < width || worst.lt(candidate.similarity) {
                        rank_in(&mut frontier, candidate);
                        rank_in(&mut kept, candidate);
                        proof {
                            lemma_ranking(t.kept.push(candidate));
                        }
                        if kept.len() > width {
                            let _ = kept.pop();
                            assert(kept@ =~= ranking(t.kept.push(candidate)).drop_last());
                        }
                    }
                }
            }
            proof {
                assert(nodes.take(index as int) =~= nodes);
                lemma_visit_all_sound(next, g, query@, width as nat, nodes);
                lemma_visit_all_steps(next, g, query@, width as nat, nodes);
            }
        }
        kept
    }

    /// Keep only the `max_neighbors` closest neighbours of `node`.
    fn prune(&mut self, node: usize)
        requires
            old(self).graph().valid(),
            node < old(self).graph().vectors.len(),
        ensures
            final(self).nodes == old(self).nodes,
            final(self).dimension == old(self).dimension,
            final(self).params == old(self).params,
            final(self).entry == old(self).entry,
            final(self).graph().neighbors == old(self).graph().neighbors.update(
                node as int,
                closest(
                    old(self).graph().vectors,
                    old(self).graph().vectors[node as int],
                    old(self).graph().neighbors[node as int],
                    old(self).tuning().max_neighbors as nat,
                ),
            ),
    {
        let ghost g = self.graph();
        let ghost list = g.neighbors[node as int];
        let ghost base = g.vectors[node as int];
        assert(below(list, g.vectors.len()));
        let mut scored: Vec<(u64, F32)> = Vec::new();
        let mut i: usize = 0;
        while i < self.neighbors[node].len()
            invariant
                g == self.graph(),
                *self == *old(self),
                node < self.neighbors@.len(),
                node < self.nodes@.len(),
                list == self.neighbors@[node as int]@,
                base == self.nodes@[node as int].vector@,
                below(list, g.vectors.len()),
                i <= list.len(),
                scored@ == proximity(g.vectors, base, list).take(i as int),
            decreases list.len() - i,
        {
            let other: usize = self.neighbors[node][i];
            assert(list[i as int] < g.vectors.len());
            let score = cosine_similarity(
                self.nodes[node].vector.as_slice(),
                self.nodes[other].vector.as_slice(),
            );
            scored.push((other as u64, score));
            i = i + 1;
            assert(scored@ =~= proximity(g.vectors, base, list).take(i as int));
        }
        assert(scored@ =~= proximity(g.vectors, base, list));
        let order = rank(scored);
        proof {
            lemma_closest(
                g.vectors,
                base,
                list,
                self.params.max_neighbors as nat,
                g.vectors.len(),
            );
        }
        let ghost nodes = nodes_of(order@);
        let mut unique: Vec<usize> = Vec::new();
        let mut j: usize = 0;
        assert(nodes.take(0) =~= Seq::empty());
        while j < order.len()
            invariant
                j <= order@.len(),
                nodes == nodes_of(order@),
                unique@ == dedup(nodes.take(j as int)),
                forall|n: int| 0 <= n < order@.len() ==> (#[trigger] order@[n]).0 <= usize::MAX,
            decreases order@.len() - j,
        {
            proof {
                let prefix = nodes.take(j + 1);
                assert(prefix.drop_last() =~= nodes.take(j as int));
                if j > 0 {
                    assert(prefix[prefix.len() - 2] == nodes[j - 1]);
                }
            }
            if j == 0 || order[j - 1].0 != order[j].0 {
                unique.push(order[j].0 as usize);
            }
            j = j + 1;
        }
        assert(nodes.take(j as int) =~= nodes);
        unique.truncate(self.params.max_neighbors);
        assert(unique@ =~= first(dedup(nodes), self.params.max_neighbors as nat));
        self.neighbors.set(node, unique);
        assert(self.graph().neighbors =~= g.neighbors.update(node as int, unique@));
    }

    /// Insert a vector under `id`, linking it into the graph near its
    /// approximate nearest neighbours.
    pub fn insert(&mut self, id: u64, vector: Vec<F32>) -> (r: Result<(), VectorDbError>)
        requires
            old(self).valid(),
        ensures
            final(self).valid(),
            final(self).tuning() == old(self).tuning(),
            r == check_vector(old(self).fixed_dimension(), vector@),
            r is Err ==> *final(self) == *old(self),
            r is Ok ==> {
                &&& final(self).entries() == old(self).entries().push((id, vector@))
                &&& final(self).fixed_dimension() == Some(vector@.len() as usize)
                &&& final(self).graph() == grown(
                    old(self).graph(),
                    vector@,
                    old(self).tuning().max_neighbors as nat,
                    old(self).tuning().ef_construction as nat,
                )
            },
    {
        validate_against(self.dimension, vector.as_slice())?;
        let ghost g0 = self.graph();
        let ghost before = self.entries();
        let ghost v = vector@;
        let m: usize = self.params.max_neighbors;
        let ef: usize = self.params.ef_construction;
        self.dimension = Some(vector.len());
        let node: usize = self.nodes.len();
        self.nodes.push(Node { id, vector });
        let none: Vec<usize> = Vec::new();
        self.neighbors.push(none);
        let count: usize = self.nodes.len();
        let ghost vectors = g0.vectors.push(v);
        let ghost neighbors = g0.neighbors.push(Seq::empty());
        proof {
            assert(none@ =~= Seq::empty());
            lemma_grown(g0, v, m as nat, ef as nat);
            assert(self.graph().vectors =~= vectors);
            assert(self.graph().neighbors =~= neighbors);
            assert(self.entries() =~= before.push((id, v)));
            assert forall|i: int| 0 <= i < self.entries().len() implies check_vector(
                self.dimension,
                (#[trigger] self.entries()[i]).1,
            ) is Ok by {
                if i < before.len() {
                    assert(self.entries()[i] == before[i]);
                }
            }
        }
        if self.entry.is_none() {
            self.entry = Some(node);
            return Ok(());
        }
        let ghost placed = self.graph();
        proof {
            assert forall|i: int| 0 <= i < neighbors.len() implies below(
                #[trigger] neighbors[i],
                vectors.len(),
            ) by {
                if i < g0.neighbors.len() {
                    assert(below(g0.neighbors[i], g0.vectors.len()));
                }
            }
            assert(placed.valid());
        }
        let width: usize = if ef < m {
            m
        } else {
            ef
        };
        let found = self.search_layer(self.nodes[node].vector.as_slice(), width);
        let ghost found_nodes = found@.map_values(|c: Candidate| c.node);
                let mut selected: Vec<usize> = Vec::new();
        let mut i: usize = 0;
        proof {
            lemma_explore_sound(placed, v, width as nat);
            reveal(Seq::filter);
            assert(found_nodes.take(0) =~= Seq::empty());
        }
        while i < found.len()
            invariant
                i <= found@.len(),
                found_nodes == found@.map_values(|c: Candidate| c.node),
                selected@ == found_nodes.take(i as int).filter(other_than(node)),
            decreases found@.len() - i,
        {
            proof {
                reveal(Seq::filter);
                assert(found_nodes.take(i + 1).drop_last() =~= found_nodes.take(i as int));
            }
            if found[i].node != node {
                selected.push(found[i].node);
            }
            i = i + 1;
        }
        assert(found_nodes.take(i as int) =~= found_nodes);
        selected.truncate(m);
        assert(selected@ =~= select(found@, node, m as nat));
        let ghost linked = neighbors.update(node as int, selected@);
        proof {
            lemma_select(found@, node, m as nat, vectors.len());
        }
        let copy = selected.clone();
        assert(copy@ =~= selected@);
        self.neighbors.set(node, copy);
        let ghost placed_nodes = self.nodes@;
        let ghost fixed = self.dimension;
        let mut j: usize = 0;
        proof {
            assert(self.graph().neighbors =~= linked);
            assert(selected@.take(0) =~= Seq::empty());
        }
        while j < selected.len()
            invariant
                j <= selected@.len(),
                node < vectors.len(),
                vectors.len() <= usize::MAX,
                linked.len() == vectors.len(),
                below(selected@, vectors.len()),
                forall|n: int|
                    0 <= n < linked.len() ==> below(#[trigger] linked[n], vectors.len()),
                self.graph().vectors == vectors,
                self.graph().entry == placed.entry,
                placed.valid(),
                placed.vectors == vectors,
                self.nodes@ == placed_nodes,
                self.dimension == fixed,
                self.params == old(self).params,
                m == self.params.max_neighbors,
                self.graph().neighbors == link_all(
                    linked,
                    vectors,
                    node,
                    selected@.take(j as int),
                    m as nat,
                ),
            decreases selected@.len() - j,
        {
            let neighbor: usize = selected[j];
            let ghost prefix = selected@.take(j as int);
            let ghost links = link_all(linked, vectors, node, prefix, m as nat);
            proof {
                assert forall|n: int| 0 <= n < prefix.len() implies #[trigger] prefix[n]
                    < vectors.len() by {
                    assert(selected@[n] < vectors.len());
                }
                lemma_link_all(linked, vectors, node, prefix, m as nat);
                assert(selected@[j as int] < vectors.len());
                assert(selected@.take(j + 1).drop_last() =~= prefix);
            }
            self.neighbors[neighbor].push(node);
            let ghost grown_list = links[neighbor as int].push(node);
            proof {
                assert(self.graph().neighbors =~= links.update(neighbor as int, grown_list));
                assert(below(links[neighbor as int], vectors.len()));
                assert forall|n: int| 0 <= n < grown_list.len() implies #[trigger] grown_list[n]
                    < vectors.len() by {
                    if n < links[neighbor as int].len() {
                        assert(links[neighbor as int][n] < vectors.len());
                    }
                }
                assert(self.graph().valid());
            }
            if self.neighbors[neighbor].len() > m {
                self.prune(neighbor);
                assert(self.graph().neighbors =~= link(links, vectors, node, neighbor, m as nat));
            }
            assert(self.graph().neighbors =~= link(links, vectors, node, neighbor, m as nat));
            j = j + 1;
        }
        proof {
            assert(selected@.take(j as int) =~= selected@);
            assert(self.entries() =~= before.push((id, v)));
        }
        Ok(())
    }

    /// Search for the `k` most similar vectors using the default `ef_search`,
    /// returning `(id, score)` pairs sorted by descending score.
    pub fn search(&self, query: &[F32], k: usize) -> (r: Result<Vec<(u64, F32)>, VectorDbError>)
        requires
            self.valid(),
        ensures
            match check_vector(self.fixed_dimension(), query@) {
                Err(e) => r == Err::<Vec<(u64, F32)>, VectorDbError>(e),
                Ok(_) => r matches Ok(hits) && hits@ == self.nearest(
                    query@,
                    k as nat,
                    self.tuning().ef_search as nat,
                ),
            },
    {
        self.search_with_ef(query, k, self.params.ef_search)
    }

    /// Search with an explicit candidate-list size. Larger `ef` improves recall
    /// at the cost of speed; it is clamped up to at least `k`.
    pub fn search_with_ef(&self, query: &[F32], k: usize, ef: usize) -> (r: Result<
        Vec<(u64, F32)>,
        VectorDbError,
    >)
        requires
            self.valid(),
        ensures
            match check_vector(self.fixed_dimension(), query@) {
                Err(e) => r == Err::<Vec<(u64, F32)>, VectorDbError>(e),
                Ok(_) => r matches Ok(hits) && hits@ == self.nearest(query@, k as nat, ef as nat),
            },
    {
        validate_against(self.dimension, query)?;
        let mut hits: Vec<(u64, F32)> = Vec::new();
        if k == 0 || self.entry.is_none() {
            assert(hits@ =~= self.nearest(query@, k as nat, ef as nat));
            return Ok(hits);
        }
        let width: usize = if ef < k {
            k
        } else {
            ef
        };
        let mut found = self.search_layer(query, width);
        proof {
            lemma_explore_sound(self.graph(), query@, width as nat);
        }
        found.truncate(k);
        let ghost all = explore(self.graph(), query@, width as nat);
        assert(found@ =~= first(all, k as nat));
        let ghost expected = hits_of(self.entries(), found@);
        let mut i: usize = 0;
        while i < found.len()
            invariant
                i <= found@.len(),
                expected == hits_of(self.entries(), found@),
                forall|j: int|
                    0 <= j < found@.len() ==> (#[trigger] found@[j]).node < self.nodes@.len(),
                hits@ == expected.take(i as int),
            decreases found@.len() - i,
        {
            assert(found@[i as int].node < self.nodes@.len());
            hits.push((self.nodes[found[i].node].id, found[i].similarity));
            i = i + 1;
            assert(hits@ =~= expected.take(i as int));
        }
        assert(hits@ =~= expected);
        Ok(hits)
    }
}

/// What a walk found, by id.
pub open spec fn hits_of(entries: Seq<(u64, Seq<F32>)>, found: Seq<Candidate>) -> Seq<(u64, F32)> {
    found.map_values(|c: Candidate| (entries[c.node as int].0, c.similarity))
}

/// The structure of a graph, with its nodes' ids and in 32-bit indices.
pub open spec fn pack_graph(ids: Seq<u64>, g: Graph) -> IndexView {
    IndexView {
        node_ids: ids,
        neighbors: g.neighbors.map_values(
            |list: Seq<usize>| list.map_values(|n: usize| n as u32),
        ),
        entry: match g.entry {
            Some(e) => Some(e as u32),
            None => None,
        },
    }
}

/// A graph read back from its structure and its nodes' vectors.
pub open spec fn unpack_graph(data: IndexView, vectors: Seq<Seq<F32>>) -> Graph {
    Graph {
        vectors,
        neighbors: data.neighbors.map_values(
            |list: Seq<u32>| list.map_values(|n: u32| n as usize),
        ),
        entry: match data.entry {
            Some(e) => Some(e as usize),
            None => None,
        },
    }
}

/// The nodes are the records, each once.
pub open spec fn names_records(data: IndexView, ids: Set<u64>) -> bool {
    &&& data.neighbors.len() == data.node_ids.len()
    &&& data.node_ids.no_duplicates()
    &&& data.node_ids.to_set() == ids
}

/// Every link, and the entry, is a node; and there is an entry where there are
/// nodes.
pub open spec fn links_within(data: IndexView) -> bool {
    &&& forall|i: int, j: int|
        0 <= i < data.neighbors.len() && 0 <= j < data.neighbors[i].len()
            ==> #[trigger] data.neighbors[i][j] < data.node_ids.len()
    &&& match data.entry {
        Some(e) => e < data.node_ids.len(),
        None => data.node_ids.len() == 0,
    }
}

/// The vectors of the nodes.
pub open spec fn node_vectors(data: IndexView, records: Map<u64, RecordView>) -> Seq<Seq<F32>> {
    data.node_ids.map_values(|id: u64| records[id].vector)
}

/// The nodes with their vectors.
pub open spec fn node_entries(data: IndexView, records: Map<u64, RecordView>) -> Seq<
    (u64, Seq<F32>),
> {
    data.node_ids.map_values(|id: u64| (id, records[id].vector))
}

/// Why a stored structure cannot be taken up again, or the dimension of the
/// index that it gives.
pub open spec fn restore(
    dimension: Option<usize>,
    data: IndexView,
    records: Map<u64, RecordView>,
) -> Result<Option<usize>, VectorDbError> {
    if dimension == Some(0usize) {
        Err(VectorDbError::InvalidVector("dimension must be greater than zero"))
    } else if !names_records(data, records.dom()) {
        Err(VectorDbError::Corrupt("index does not match the records"))
    } else if !links_within(data) {
        Err(VectorDbError::Corrupt("index link out of range"))
    } else {
        accept_all(dimension, node_vectors(data, records))
    }
}

/// A graph of a storable size is read back as it was written.
pub proof fn lemma_pack_graph(ids: Seq<u64>, g: Graph)
    requires
        g.valid(),
        ids.len() == g.vectors.len(),
        ids.len() <= u32::MAX,
    ensures
        links_within(pack_graph(ids, g)),
        unpack_graph(pack_graph(ids, g), g.vectors) == g,
{
    let data = pack_graph(ids, g);
    let back = unpack_graph(data, g.vectors);
    assert forall|i: int, j: int|
        0 <= i < data.neighbors.len() && 0 <= j < data.neighbors[i].len() implies
        #[trigger] data.neighbors[i][j] < data.node_ids.len() by {
        assert(below(g.neighbors[i], g.vectors.len()));
        assert(g.neighbors[i][j] < g.vectors.len());
    }
    assert forall|i: int| 0 <= i < g.neighbors.len() implies back.neighbors[i]
        == g.neighbors[i] by {
        assert(below(g.neighbors[i], g.vectors.len()));
        assert(back.neighbors[i] =~= g.neighbors[i]);
    }
    assert(back.neighbors =~= g.neighbors);
}

/// A node list without repetition, inside a set of the same size, is that set.
proof fn lemma_same_size(ids: Seq<u64>, all: Set<u64>)
    requires
        all.finite(),
        ids.no_duplicates(),
        ids.len() == all.len(),
        forall|i: int| 0 <= i < ids.len() ==> all.contains(#[trigger] ids[i]),
    ensures
        ids.to_set() == all,
{
    ids.unique_seq_to_set();
    assert(ids.to_set().subset_of(all));
    vstd::set_lib::lemma_subset_equality(ids.to_set(), all);
}

/// Whether the nodes are the records, each once.
fn check_names(data: &IndexData, records: &Records) -> (r: bool)
    ensures
        r == names_records(data@, records@.dom()),
{
    let ghost ids = data@.node_ids;
    let count: usize = records.len();
    if data.neighbors.len() != data.node_ids.len() {
        return false;
    }
    if data.node_ids.len() != count {
        proof {
            if names_records(data@, records@.dom()) {
                ids.unique_seq_to_set();
            }
        }
        return false;
    }
    let mut seen = IdSet::new();
    let mut i: usize = 0;
    while i < data.node_ids.len()
        invariant
            i <= ids.len(),
            ids == data.node_ids@,
            ids == data@.node_ids,
            forall|x: u64| #[trigger]
                seen@.contains(x) <==> exists|n: int| 0 <= n < i && ids[n] == x,
            forall|n: int| 0 <= n < i ==> records@.dom().contains(#[trigger] ids[n]),
            forall|n: int, k: int| 0 <= n < k < i ==> #[trigger] ids[n] != #[trigger] ids[k],
        decreases ids.len() - i,
    {
        let id: u64 = data.node_ids[i];
        if !records.contains(id) {
            proof {
                assert(ids.to_set().contains(ids[i as int]));
            }
            return false;
        }
        if seen.contains(id) {
            return false;
        }
        seen.insert(id);
        i = i + 1;
        assert forall|x: u64| #[trigger]
            seen@.contains(x) <==> exists|n: int| 0 <= n < i && ids[n] == x by {
            if x == id {
                assert(ids[i - 1] == x);
            }
        }
    }
    proof {
        assert(ids.no_duplicates());
        lemma_same_size(ids, records@.dom());
    }
    true
}

/// Whether every link, and the entry, is a node.
fn check_links(data: &IndexData) -> (r: bool)
    ensures
        r == links_within(data@),
{
    let count: u64 = data.node_ids.len() as u64;
    let mut i: usize = 0;
    while i < data.neighbors.len()
        invariant
            count == data.node_ids@.len(),
            i <= data.neighbors@.len(),
            forall|n: int, k: int|
                0 <= n < i && 0 <= k < data@.neighbors[n].len()
                    ==> #[trigger] data@.neighbors[n][k] < count,
        decreases data.neighbors@.len() - i,
    {
        let mut j: usize = 0;
        assert(data@.neighbors[i as int] == data.neighbors@[i as int]@);
        while j < data.neighbors[i].len()
            invariant
                count == data.node_ids@.len(),
                i < data.neighbors@.len(),
                j <= data.neighbors@[i as int]@.len(),
                data@.neighbors[i as int] == data.neighbors@[i as int]@,
                forall|k: int| 0 <= k < j ==> #[trigger] data@.neighbors[i as int][k] < count,
            decreases data.neighbors@[i as int]@.len() - j,
        {
            if data.neighbors[i][j] as u64 >= count {
                assert(!(data@.neighbors[i as int][j as int] < data@.node_ids.len()));
                return false;
            }
            j = j + 1;
        }
        i = i + 1;
    }
    match data.entry {
        Some(e) => (e as u64) < count,
        None => count == 0,
    }
}

impl AnnIndex {
    /// Take up a stored graph again: its structure from `data`, its vectors
    /// from the records.
    pub fn from_persisted(
        dimension: Option<usize>,
        params: AnnParams,
        data: IndexData,
        records: &Records,
    ) -> (r: Result<Self, VectorDbError>)
        ensures
            match restore(dimension, data@, records@) {
                Err(e) => r == Err::<Self, VectorDbError>(e),
                Ok(fixed) => r matches Ok(index) && {
                    &&& index.valid()
                    &&& index.tuning() == params
                    &&& index.fixed_dimension() == fixed
                    &&& index.entries() == node_entries(data@, records@)
                    &&& index.graph() == unpack_graph(data@, node_vectors(data@, records@))
                },
            },
    {
        if let Some(d) = dimension {
            if d == 0 {
                return Err(VectorDbError::InvalidVector("dimension must be greater than zero"));
            }
        }
        if !check_names(&data, records) {
            return Err(VectorDbError::Corrupt("index does not match the records"));
        }
        if !check_links(&data) {
            return Err(VectorDbError::Corrupt("index link out of range"));
        }
        let ghost vectors = node_vectors(data@, records@);
        let ghost entries = node_entries(data@, records@);
        let mut fixed = dimension;
        let mut nodes: Vec<Node> = Vec::new();
        let mut neighbors: Vec<Vec<usize>> = Vec::new();
        let mut i: usize = 0;
        assert(vectors.take(0) =~= Seq::empty());
        while i < data.node_ids.len()
            invariant
                i <= data.node_ids@.len(),
                data.neighbors@.len() == data.node_ids@.len(),
                names_records(data@, records@.dom()),
                vectors == node_vectors(data@, records@),
                entries == node_entries(data@, records@),
                accept_all(dimension, vectors.take(i as int)) == Ok::<Option<usize>, VectorDbError>(
                    fixed,
                ),
                restore(dimension, data@, records@) == accept_all(dimension, vectors),
                dimension != Some(0usize),
                entries_fit(fixed, entries.take(i as int)),
                nodes@.len() == i,
                neighbors@.len() == i,
                forall|n: int|
                    0 <= n < i ==> (#[trigger] nodes@[n]).id == entries[n].0
                        && nodes@[n].vector@ == entries[n].1,
                forall|n: int|
                    0 <= n < i ==> (#[trigger] neighbors@[n])@ == data@.neighbors[n].map_values(
                        |x: u32| x as usize,
                    ),
            decreases data.node_ids@.len() - i,
        {
            let id: u64 = data.node_ids[i];
            proof {
                assert(data@.node_ids.to_set().contains(data@.node_ids[i as int]));
                assert(vectors.take(i + 1).drop_last() =~= vectors.take(i as int));
            }
            let record = match records.get(id) {
                Some(record) => record,
                None => {
                    return Err(VectorDbError::Corrupt("index does not match the records"));
                },
            };
            assert(record@.vector == vectors[i as int]);
            match validate_against(fixed, record.vector.as_slice()) {
                Err(e) => {
                    proof {
                        lemma_accept_fails(dimension, vectors, i + 1);
                    }
                    return Err(e);
                },
                Ok(_) => {},
            }
            let vector = record.vector.clone();
            assert(vector@ =~= record.vector@);
            let ghost before = fixed;
            fixed = Some(vector.len());
            proof {
                assert forall|n: int| 0 <= n < i + 1 implies check_vector(
                    fixed,
                    (#[trigger] entries.take(i + 1)[n]).1,
                ) is Ok by {
                    if n < i {
                        assert(check_vector(before, entries.take(i as int)[n].1) is Ok);
                    }
                }
            }
            nodes.push(Node { id, vector });
            let ghost links = data@.neighbors[i as int];
            let mut list: Vec<usize> = Vec::new();
            let mut j: usize = 0;
            while j < data.neighbors[i].len()
                invariant
                    i < data.neighbors@.len(),
                    links == data.neighbors@[i as int]@,
                    j <= links.len(),
                    list@ == links.map_values(|x: u32| x as usize).take(j as int),
                decreases links.len() - j,
            {
                list.push(data.neighbors[i][j] as usize);
                j = j + 1;
                assert(list@ =~= links.map_values(|x: u32| x as usize).take(j as int));
            }
            assert(list@ =~= links.map_values(|x: u32| x as usize));
            neighbors.push(list);
            i = i + 1;
        }
        let entry: Option<usize> = match data.entry {
            Some(e) => Some(e as usize),
            None => None,
        };
        let index = AnnIndex { dimension: fixed, params, nodes, neighbors, entry };
        proof {
            let g = index.graph();
            assert(vectors.take(i as int) =~= vectors);
            assert(entries.take(i as int) =~= entries);
            assert(index.entries() =~= entries);
            assert(g.vectors =~= vectors);
            assert(g.neighbors =~= unpack_graph(data@, vectors).neighbors);
            assert forall|n: int| 0 <= n < g.neighbors.len() implies below(
                #[trigger] g.neighbors[n],
                g.vectors.len(),
            ) by {
                assert forall|k: int| 0 <= k < g.neighbors[n].len() implies
                    #[trigger] g.neighbors[n][k] < g.vectors.len() by {
                    assert(data@.neighbors[n][k] < data@.node_ids.len());
                }
            }
        }
        Ok(index)
    }
}

impl Default for AnnIndex {
    fn default() -> (r: Self)
        ensures
            r.valid(),
            r.fixed_dimension() is None,
            r.entries() == Seq::<(u64, Seq<F32>)>::empty(),
            r.tuning() == (AnnParams { max_neighbors: 16, ef_construction: 64, ef_search: 64 }),
    {
        AnnIndex::new()
    }
}

impl Clone for AnnIndex {
    fn clone(&self) -> (r: Self)
        ensures
            r.graph() == self.graph(),
            r.entries() == self.entries(),
            r.fixed_dimension() == self.fixed_dimension(),
            r.tuning() == self.tuning(),
            self.valid() ==> r.valid(),
    {
        let mut nodes: Vec<Node> = Vec::new();
        let mut i: usize = 0;
        while i < self.nodes.len()
            invariant
                i <= self.nodes@.len(),
                nodes@.len() == i,
                forall|n: int|
                    0 <= n < i ==> (#[trigger] nodes@[n]).id == self.nodes@[n].id
                        && nodes@[n].vector@ == self.nodes@[n].vector@,
            decreases self.nodes@.len() - i,
        {
            let vector = self.nodes[i].vector.clone();
            assert(vector@ =~= self.nodes@[i as int].vector@);
            nodes.push(Node { id: self.nodes[i].id, vector });
            i = i + 1;
        }
        let mut neighbors: Vec<Vec<usize>> = Vec::new();
        let mut j: usize = 0;
        while j < self.neighbors.len()
            invariant
                j <= self.neighbors@.len(),
                neighbors@.len() == j,
                forall|n: int|
                    0 <= n < j ==> (#[trigger] neighbors@[n])@ == self.neighbors@[n]@,
            decreases self.neighbors@.len() - j,
        {
            let list = self.neighbors[j].clone();
            assert(list@ =~= self.neighbors@[j as int]@);
            neighbors.push(list);
            j = j + 1;
        }
        let r = AnnIndex {
            dimension: self.dimension,
            params: self.params,
            nodes,
            neighbors,
            entry: self.entry,
        };
        proof {
            assert(r.entries() =~= self.entries());
            assert(r.graph().vectors =~= self.graph().vectors);
            assert(r.graph().neighbors =~= self.graph().neighbors);
        }
        r
    }
}

impl VectorIndex for AnnIndex {
    open spec fn valid(&self) -> bool {
        &&& self.graph().valid()
        &&& entries_fit(self.width(), self.contents())
    }

    open spec fn fixed_dimension(&self) -> Option<usize> {
        self.width()
    }

    open spec fn entries(&self) -> Seq<(u64, Seq<F32>)> {
        self.contents()
    }

    open spec fn nearest(&self, query: Seq<F32>, k: nat, ef: nat) -> Seq<(u64, F32)> {
        if k == 0 {
            Seq::empty()
        } else {
            hits_of(self.entries(), first(explore(self.graph(), query, at_least(ef, k)), k))
        }
    }

    open spec fn snapshot(&self) -> Option<IndexView> {
        if self.entries().len() > u32::MAX {
            None
        } else {
            Some(
                pack_graph(
                    self.entries().map_values(|e: (u64, Seq<F32>)| e.0),
                    self.graph(),
                ),
            )
        }
    }

    proof fn lemma_sound(&self, query: Seq<F32>, k: nat, ef: nat) {
        assert(self.contents().len() == self.nodes.len());
        let g = self.graph();
        let width = at_least(ef, k);
        lemma_explore_sound(g, query, width);
        let found = explore(g, query, width);
        let hits = self.nearest(query, k, ef);
        if k > 0 {
            assert forall|i: int| 0 <= i < hits.len() implies is_scored_entry(
                self.entries(),
                query,
                #[trigger] hits[i],
            ) by {
                let e = found[i].node as int;
                assert(found[i] == g.candidate(query, found[i].node));
                assert(self.entries()[e].0 == hits[i].0);
                assert(self.entries()[e].1 == g.vectors[e]);
            }
            assert forall|i: int, j: int| 0 <= i < j < hits.len() implies (
            #[trigger] hits[i]).1.total_rank() >= (#[trigger] hits[j]).1.total_rank() by {
                assert(Candidate::ahead(found[i], found[j]));
            }
        }
    }

    fn insert(&mut self, id: u64, vector: Vec<F32>) -> (r: Result<(), VectorDbError>) {
        AnnIndex::insert(self, id, vector)
    }

    fn search(&self, query: &[F32], k: usize, ef: usize) -> (r: Result<
        Vec<(u64, F32)>,
        VectorDbError,
    >) {
        self.search_with_ef(query, k, ef)
    }

    fn persist(&self) -> (r: Option<IndexData>) {
        let count: usize = self.nodes.len();
        if count as u64 > u32::MAX as u64 {
            return None;
        }
        let ghost expected = pack_graph(
            self.entries().map_values(|e: (u64, Seq<F32>)| e.0),
            self.graph(),
        );
        let mut node_ids: Vec<u64> = Vec::new();
        let mut neighbors: Vec<Vec<u32>> = Vec::new();
        let mut i: usize = 0;
        while i < self.nodes.len()
            invariant
                i <= self.nodes@.len(),
                self.nodes@.len() <= u32::MAX,
                self.graph().valid(),
                node_ids@.len() == i,
                neighbors@.len() == i,
                forall|n: int| 0 <= n < i ==> #[trigger] node_ids@[n] == self.nodes@[n].id,
                forall|n: int|
                    0 <= n < i ==> (#[trigger] neighbors@[n])@
                        == self.graph().neighbors[n].map_values(|x: usize| x as u32),
            decreases self.nodes@.len() - i,
        {
            node_ids.push(self.nodes[i].id);
            let ghost links = self.graph().neighbors[i as int];
            assert(below(links, self.nodes@.len()));
            let mut list: Vec<u32> = Vec::new();
            let mut j: usize = 0;
            while j < self.neighbors[i].len()
                invariant
                    i < self.neighbors@.len(),
                    links == self.neighbors@[i as int]@,
                    below(links, self.nodes@.len()),
                    self.nodes@.len() <= u32::MAX,
                    j <= links.len(),
                    list@ == links.map_values(|x: usize| x as u32).take(j as int),
                decreases links.len() - j,
            {
                assert(links[j as int] < self.nodes@.len());
                list.push(self.neighbors[i][j] as u32);
                j = j + 1;
                assert(list@ =~= links.map_values(|x: usize| x as u32).take(j as int));
            }
            assert(list@ =~= links.map_values(|x: usize| x as u32));
            neighbors.push(list);
            i = i + 1;
        }
        let entry: Option<u32> = match self.entry {
            Some(e) => Some(e as u32),
            None => None,
        };
        let data = IndexData { node_ids, neighbors, entry };
        proof {
            assert(data@.node_ids =~= expected.node_ids);
            assert(data@.neighbors =~= expected.neighbors);
        }
        Some(data)
    }

    fn len(&self) -> (r: usize) {
        self.nodes.len()
    }

    fn is_empty(&self) -> (r: bool) {
        self.nodes.len() == 0
    }
}

} // verus!
