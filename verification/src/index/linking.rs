//! How the graph takes in a new node.

use super::graph::{below, explore, lemma_explore_sound, Candidate, Graph};
use crate::distance::similarity;
use crate::float::F32;
use crate::ranking::{first, lemma_ranking, ranking};
use vstd::prelude::*;

verus! {

/// A list with runs of equal nodes shortened to one.
pub open spec fn dedup(list: Seq<usize>) -> Seq<usize>
    decreases list.len(),
{
    if list.len() == 0 {
        list
    } else {
        let rest = dedup(list.drop_last());
        if list.len() >= 2 && list[list.len() - 2] == list.last() {
            rest
        } else {
            rest.push(list.last())
        }
    }
}

/// Each node of a list with its similarity to `base`.
pub open spec fn proximity(vectors: Seq<Seq<F32>>, base: Seq<F32>, list: Seq<usize>) -> Seq<
    (u64, F32),
> {
    list.map_values(|n: usize| (n as u64, similarity(base, vectors[n as int])))
}

/// The nodes of scored hits.
pub open spec fn nodes_of(hits: Seq<(u64, F32)>) -> Seq<usize> {
    hits.map_values(|h: (u64, F32)| h.0 as usize)
}

/// The `m` nodes of a list closest to `base`, the closest first and the earlier
/// node among equals, without repetition.
pub open spec fn closest(
    vectors: Seq<Seq<F32>>,
    base: Seq<F32>,
    list: Seq<usize>,
    m: nat,
) -> Seq<usize> {
    first(dedup(nodes_of(ranking(proximity(vectors, base, list)))), m)
}

/// The links after `other` has got one to `node`, where no more than `m` are
/// kept.
pub open spec fn link(
    neighbors: Seq<Seq<usize>>,
    vectors: Seq<Seq<F32>>,
    node: usize,
    other: usize,
    m: nat,
) -> Seq<Seq<usize>> {
    let grown = neighbors[other as int].push(node);
    neighbors.update(
        other as int,
        if grown.len() > m {
            closest(vectors, vectors[other as int], grown, m)
        } else {
            grown
        },
    )
}

/// The links after every node of `others` has got one to `node`.
pub open spec fn link_all(
    neighbors: Seq<Seq<usize>>,
    vectors: Seq<Seq<F32>>,
    node: usize,
    others: Seq<usize>,
    m: nat,
) -> Seq<Seq<usize>>
    decreases others.len(),
{
    if others.len() == 0 {
        neighbors
    } else {
        link(
            link_all(neighbors, vectors, node, others.drop_last(), m),
            vectors,
            node,
            others.last(),
            m,
        )
    }
}

/// Nodes other than `node`.
pub open spec fn other_than(node: usize) -> spec_fn(usize) -> bool {
    |n: usize| n != node
}

/// The nodes that a new node links to: the first `m` others that a walk finds.
pub open spec fn select(found: Seq<Candidate>, node: usize, m: nat) -> Seq<usize> {
    first(found.map_values(|c: Candidate| c.node).filter(other_than(node)), m)
}

/// The graph after a node with the given vector has been added: it links to the
/// closest nodes that a walk finds, and they link back.
pub open spec fn grown(g: Graph, vector: Seq<F32>, m: nat, ef: nat) -> Graph {
    let node = g.vectors.len() as usize;
    let vectors = g.vectors.push(vector);
    let neighbors = g.neighbors.push(Seq::empty());
    match g.entry {
        None => Graph { vectors, neighbors, entry: Some(node) },
        Some(entry) => {
            let placed = Graph { vectors, neighbors, entry: Some(entry) };
            let found = explore(
                placed,
                vector,
                if ef < m {
                    m
                } else {
                    ef
                },
            );
            let selected = select(found, node, m);
            Graph {
                neighbors: link_all(
                    neighbors.update(node as int, selected),
                    vectors,
                    node,
                    selected,
                    m,
                ),
                ..placed
            }
        },
    }
}

proof fn lemma_dedup_members(list: Seq<usize>, n: nat)
    requires
        below(list, n),
    ensures
        below(dedup(list), n),
    decreases list.len(),
{
    if list.len() > 0 {
        let front = list.drop_last();
        assert forall|i: int| 0 <= i < front.len() implies #[trigger] front[i] < n by {
            assert(front[i] == list[i]);
        }
        lemma_dedup_members(front, n);
        assert(list.last() == list[list.len() - 1]);
    }
}

pub proof fn lemma_closest(
    vectors: Seq<Seq<F32>>,
    base: Seq<F32>,
    list: Seq<usize>,
    m: nat,
    n: nat,
)
    requires
        below(list, n),
        n <= usize::MAX,
    ensures
        below(closest(vectors, base, list, m), n),
        closest(vectors, base, list, m).len() <= m,
        forall|i: int|
            0 <= i < ranking(proximity(vectors, base, list)).len() ==> (#[trigger] ranking(
                proximity(vectors, base, list),
            )[i]).0 < n,
{
    broadcast use vstd::seq_lib::group_to_multiset_ensures;

    let scored = proximity(vectors, base, list);
    let order = ranking(scored);
    lemma_ranking(scored);
    let nodes = nodes_of(order);
    assert forall|i: int| 0 <= i < order.len() implies (#[trigger] order[i]).0 < n by {
        assert(order.contains(order[i]));
        assert(order.to_multiset().count(order[i]) > 0);
        assert(scored.contains(order[i]));
        let k = choose|k: int| 0 <= k < scored.len() && scored[k] == order[i];
        assert(list[k] < n);
    }
    assert forall|i: int| 0 <= i < nodes.len() implies #[trigger] nodes[i] < n by {
        assert(order[i].0 < n);
    }
    lemma_dedup_members(nodes, n);
    let unique = dedup(nodes);
    assert forall|i: int| 0 <= i < first(unique, m).len() implies #[trigger] first(unique, m)[i]
        < n by {
        assert(first(unique, m)[i] == unique[i]);
    }
}

/// Linking keeps every link below the number of nodes and every list within
/// `m`.
pub proof fn lemma_link(
    neighbors: Seq<Seq<usize>>,
    vectors: Seq<Seq<F32>>,
    node: usize,
    other: usize,
    m: nat,
)
    requires
        neighbors.len() == vectors.len(),
        vectors.len() <= usize::MAX,
        node < vectors.len(),
        other < vectors.len(),
        forall|i: int| 0 <= i < neighbors.len() ==> below(#[trigger] neighbors[i], vectors.len()),
    ensures
        link(neighbors, vectors, node, other, m).len() == vectors.len(),
        forall|i: int|
            0 <= i < neighbors.len() ==> below(
                #[trigger] link(neighbors, vectors, node, other, m)[i],
                vectors.len(),
            ),
        (forall|i: int| 0 <= i < neighbors.len() ==> (#[trigger] neighbors[i]).len() <= m) ==> (
        forall|i: int|
            0 <= i < neighbors.len() ==> (#[trigger] link(
                neighbors,
                vectors,
                node,
                other,
                m,
            )[i]).len() <= m),
{
    let list = neighbors[other as int].push(node);
    assert(below(neighbors[other as int], vectors.len()));
    assert forall|i: int| 0 <= i < list.len() implies #[trigger] list[i] < vectors.len() by {
        if i < neighbors[other as int].len() {
            assert(neighbors[other as int][i] < vectors.len());
        }
    }
    lemma_closest(vectors, vectors[other as int], list, m, vectors.len());
}

pub proof fn lemma_link_all(
    neighbors: Seq<Seq<usize>>,
    vectors: Seq<Seq<F32>>,
    node: usize,
    others: Seq<usize>,
    m: nat,
)
    requires
        neighbors.len() == vectors.len(),
        vectors.len() <= usize::MAX,
        node < vectors.len(),
        below(others, vectors.len()),
        forall|i: int| 0 <= i < neighbors.len() ==> below(#[trigger] neighbors[i], vectors.len()),
    ensures
        link_all(neighbors, vectors, node, others, m).len() == vectors.len(),
        forall|i: int|
            0 <= i < neighbors.len() ==> below(
                #[trigger] link_all(neighbors, vectors, node, others, m)[i],
                vectors.len(),
            ),
        (forall|i: int| 0 <= i < neighbors.len() ==> (#[trigger] neighbors[i]).len() <= m) ==> (
        forall|i: int|
            0 <= i < neighbors.len() ==> (#[trigger] link_all(
                neighbors,
                vectors,
                node,
                others,
                m,
            )[i]).len() <= m),
    decreases others.len(),
{
    if others.len() > 0 {
        let front = others.drop_last();
        assert forall|i: int| 0 <= i < front.len() implies #[trigger] front[i] < vectors.len() by {
            assert(front[i] == others[i]);
        }
        assert(others.last() == others[others.len() - 1]);
        lemma_link_all(neighbors, vectors, node, front, m);
        lemma_link(
            link_all(neighbors, vectors, node, front, m),
            vectors,
            node,
            others.last(),
            m,
        );
    }
}

pub proof fn lemma_select(found: Seq<Candidate>, node: usize, m: nat, n: nat)
    requires
        forall|i: int| 0 <= i < found.len() ==> (#[trigger] found[i]).node < n,
    ensures
        below(select(found, node, m), n),
        select(found, node, m).len() <= m,
{
    let nodes = found.map_values(|c: Candidate| c.node);
    let others = nodes.filter(other_than(node));
    assert forall|i: int| 0 <= i < select(found, node, m).len() implies #[trigger] select(
        found,
        node,
        m,
    )[i] < n by {
        assert(select(found, node, m)[i] == others[i]);
        assert(others.contains(others[i]));
        nodes.lemma_filter_contains_rev(other_than(node), others[i]);
        let k = choose|k: int| 0 <= k < nodes.len() && nodes[k] == others[i];
        assert(found[k].node < n);
    }
}

/// A graph stays valid when it grows, and no node gets more than `m` links
/// where none had more before.
pub proof fn lemma_grown(g: Graph, vector: Seq<F32>, m: nat, ef: nat)
    requires
        g.valid(),
        g.vectors.len() < usize::MAX,
    ensures
        grown(g, vector, m, ef).valid(),
        grown(g, vector, m, ef).vectors == g.vectors.push(vector),
        g.degrees_within(m) ==> grown(g, vector, m, ef).degrees_within(m),
{
    let node = g.vectors.len() as usize;
    let vectors = g.vectors.push(vector);
    let neighbors = g.neighbors.push(Seq::empty());
    assert forall|i: int| 0 <= i < neighbors.len() implies below(
        #[trigger] neighbors[i],
        vectors.len(),
    ) by {
        if i < g.neighbors.len() {
            assert(below(g.neighbors[i], g.vectors.len()));
        }
    }
    match g.entry {
        None => {},
        Some(entry) => {
            let placed = Graph { vectors, neighbors, entry: Some(entry) };
            assert(placed.valid());
            let e = if ef < m {
                m
            } else {
                ef
            };
            lemma_explore_sound(placed, vector, e);
            let found = explore(placed, vector, e);
            lemma_select(found, node, m, vectors.len());
            let selected = select(found, node, m);
            let linked = neighbors.update(node as int, selected);
            lemma_link_all(linked, vectors, node, selected, m);
            if g.degrees_within(m) {
                assert forall|i: int| 0 <= i < linked.len() implies (#[trigger] linked[i]).len()
                    <= m by {
                    if i < g.neighbors.len() {
                        assert(linked[i] == g.neighbors[i]);
                    }
                }
            }
        },
    }
}

} // verus!
