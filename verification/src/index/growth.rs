//! Which links a graph has after it has taken in a node.

use super::complete::lemma_filter_all;
use super::graph::{
    below, explore, holds_node, is_path, lemma_count_nodes, lemma_explore_sound, reachable,
    Candidate, Graph,
};
use super::greedy::{closed_below, lemma_walk_settles_below};
use super::hnsw::AnnParams;
use super::linking::{closest, dedup, grown, link, link_all, nodes_of, proximity, select};
use crate::consistency::consistent;
use crate::db::{inserted, DbView, IndexKind};
use crate::distance::similarity;
use crate::exactness::lemma_ranking_members;
use crate::float::F32;
use crate::ranking::{first, lemma_ranking, ranking, Ranked};
use crate::record::RecordView;
use vstd::prelude::*;

verus! {

/// Where equal nodes stand side by side, nothing but repetition is lost.
proof fn lemma_dedup(list: Seq<usize>, rank: spec_fn(usize) -> int)
    requires
        forall|i: int, k: int, j: int|
            #![trigger list[i], list[k], list[j]]
            0 <= i <= k <= j < list.len() && list[i] == list[j] ==> list[k] == list[i],
        forall|i: int, j: int|
            0 <= i < j < list.len() ==> rank(#[trigger] list[i]) >= rank(#[trigger] list[j]),
    ensures
        dedup(list).no_duplicates(),
        forall|x: usize| #[trigger] dedup(list).contains(x) <==> list.contains(x),
        forall|i: int, j: int|
            0 <= i < j < dedup(list).len() ==> rank(#[trigger] dedup(list)[i]) >= rank(
                #[trigger] dedup(list)[j],
            ),
    decreases list.len(),
{
    if list.len() > 0 {
        let front = list.drop_last();
        let last = list.last();
        let n = list.len() - 1;
        assert forall|i: int, k: int, j: int|
            #![trigger front[i], front[k], front[j]]
            0 <= i <= k <= j < front.len() && front[i] == front[j] implies front[k] == front[i] by {
            assert(list[i] == front[i] && list[k] == front[k] && list[j] == front[j]);
        }
        assert forall|i: int, j: int| 0 <= i < j < front.len() implies rank(#[trigger] front[i])
            >= rank(#[trigger] front[j]) by {
            assert(list[i] == front[i] && list[j] == front[j]);
        }
        lemma_dedup(front, rank);
        let rest = dedup(front);
        assert(list[n] == last);
        assert forall|x: usize| list.contains(x) <==> front.contains(x) || x == last by {
            if list.contains(x) {
                let i = choose|i: int| 0 <= i < list.len() && list[i] == x;
                if i < n {
                    assert(front[i] == x);
                }
            }
            if front.contains(x) {
                let i = choose|i: int| 0 <= i < front.len() && front[i] == x;
                assert(list[i] == x);
            }
        }
        if list.len() >= 2 && list[list.len() - 2] == last {
            assert(front[n - 1] == last);
            assert(front.contains(last));
        } else {
            if front.contains(last) {
                let i = choose|i: int| 0 <= i < front.len() && front[i] == last;
                assert(list[i] == last);
                assert(list[n - 1] == list[i]);
            }
            let next = rest.push(last);
            assert forall|x: usize| #[trigger] next.contains(x) <==> list.contains(x) by {
                if next.contains(x) {
                    let i = choose|i: int| 0 <= i < next.len() && next[i] == x;
                    if i < rest.len() {
                        assert(rest[i] == x);
                        assert(rest.contains(x));
                    }
                }
                if rest.contains(x) {
                    let i = choose|i: int| 0 <= i < rest.len() && rest[i] == x;
                    assert(next[i] == x);
                }
                if x == last {
                    assert(next[rest.len() as int] == x);
                }
            }
            assert forall|i: int, j: int| 0 <= i < j < next.len() implies rank(#[trigger] next[i])
                >= rank(#[trigger] next[j]) by {
                assert(next[i] == rest[i]);
                if j == rest.len() {
                    assert(rest.contains(rest[i]));
                    assert(front.contains(rest[i]));
                    let k = choose|k: int| 0 <= k < front.len() && front[k] == rest[i];
                    assert(rank(list[k]) >= rank(list[n]));
                }
            }
            assert(next.no_duplicates()) by {
                assert forall|i: int, j: int|
                    0 <= i < next.len() && 0 <= j < next.len() && i != j implies next[i]
                    != next[j] by {
                    if i == rest.len() {
                        assert(rest.contains(rest[j]));
                    } else if j == rest.len() {
                        assert(rest.contains(rest[i]));
                    }
                }
            }
        }
    } else {
        assert(dedup(list) =~= Seq::<usize>::empty());
    }
}

/// How close a node is to a vector.
spec fn closeness(vectors: Seq<Seq<F32>>, base: Seq<F32>) -> spec_fn(usize) -> int {
    |n: usize| similarity(base, vectors[n as int]).total_rank()
}

/// The closest nodes of a list are nodes of it, none twice and no more than asked
/// for; and one that is left out is at most as close as each of them, and left out
/// only where there are as many as asked for.
pub proof fn lemma_closest_best(
    vectors: Seq<Seq<F32>>,
    base: Seq<F32>,
    list: Seq<usize>,
    m: nat,
    x: usize,
)
    ensures
        ({
            let kept = closest(vectors, base, list, m);
            &&& kept.len() <= m
            &&& kept.no_duplicates()
            &&& kept.contains(x) ==> list.contains(x)
            &&& list.contains(x) && !kept.contains(x) ==> kept.len() == m && forall|i: int|
                0 <= i < kept.len() ==> similarity(
                    base,
                    vectors[#[trigger] kept[i] as int],
                ).total_rank() >= similarity(base, vectors[x as int]).total_rank()
        }),
{
    let scored = proximity(vectors, base, list);
    let order = ranking(scored);
    let nodes = nodes_of(order);
    let rank = closeness(vectors, base);
    lemma_ranking(scored);
    assert forall|i: int| 0 <= i < order.len() implies #[trigger] order[i] == (
        nodes[i] as u64,
        similarity(base, vectors[nodes[i] as int]),
    ) && list.contains(nodes[i]) by {
        assert(order.contains(order[i]));
        lemma_ranking_members(scored, order[i]);
        let k = choose|k: int| 0 <= k < scored.len() && scored[k] == order[i];
        assert(scored[k] == (list[k] as u64, similarity(base, vectors[list[k] as int])));
        assert(nodes[i] == list[k]);
    }
    assert forall|i: int, j: int| 0 <= i < j < nodes.len() implies rank(#[trigger] nodes[i])
        >= rank(#[trigger] nodes[j]) by {
        assert(<(u64, F32) as Ranked>::ahead(order[i], order[j]));
    }
    assert forall|i: int, k: int, j: int|
        #![trigger nodes[i], nodes[k], nodes[j]]
        0 <= i <= k <= j < nodes.len() && nodes[i] == nodes[j] implies nodes[k] == nodes[i] by {
        if i < k && k < j {
            assert(<(u64, F32) as Ranked>::ahead(order[i], order[k]));
            assert(<(u64, F32) as Ranked>::ahead(order[k], order[j]));
            assert(order[i] == order[j]);
        }
    }
    lemma_dedup(nodes, rank);
    let all = dedup(nodes);
    let kept = closest(vectors, base, list, m);
    assert(kept == first(all, m));
    if kept.contains(x) {
        let i = choose|i: int| 0 <= i < kept.len() && kept[i] == x;
        assert(all[i] == x);
        assert(all.contains(x));
        assert(nodes.contains(x));
        let k = choose|k: int| 0 <= k < nodes.len() && nodes[k] == x;
        assert(order[k].0 == x as u64);
    }
    if list.contains(x) && !kept.contains(x) {
        let k = choose|k: int| 0 <= k < list.len() && list[k] == x;
        assert(scored.contains(scored[k]));
        lemma_ranking_members(scored, scored[k]);
        let p = choose|p: int| 0 <= p < order.len() && order[p] == scored[k];
        assert(nodes[p] == x);
        assert(nodes.contains(x));
        assert(all.contains(x));
        let j = choose|j: int| 0 <= j < all.len() && all[j] == x;
        if j < kept.len() {
            assert(kept[j] == x);
        }
        assert forall|i: int| 0 <= i < kept.len() implies similarity(
            base,
            vectors[#[trigger] kept[i] as int],
        ).total_rank() >= similarity(base, vectors[x as int]).total_rank() by {
            assert(all[i] == kept[i]);
            assert(rank(all[i]) >= rank(all[j]));
        }
    }
}

/// What linking distinct nodes back to a node does to the list of each.
proof fn lemma_linked(
    neighbors: Seq<Seq<usize>>,
    vectors: Seq<Seq<F32>>,
    node: usize,
    others: Seq<usize>,
    m: nat,
    i: int,
)
    requires
        others.no_duplicates(),
        below(others, neighbors.len()),
        0 <= i < neighbors.len() <= usize::MAX,
    ensures
        link_all(neighbors, vectors, node, others, m).len() == neighbors.len(),
        link_all(neighbors, vectors, node, others, m)[i] == if others.contains(i as usize) {
            link(neighbors, vectors, node, i as usize, m)[i]
        } else {
            neighbors[i]
        },
    decreases others.len(),
{
    if others.len() > 0 {
        let front = others.drop_last();
        let last = others.last();
        let n = others.len() - 1;
        assert(others[n] == last);
        assert(below(front, neighbors.len())) by {
            assert forall|k: int| 0 <= k < front.len() implies #[trigger] front[k]
                < neighbors.len() by {
                assert(front[k] == others[k]);
            }
        }
        lemma_linked(neighbors, vectors, node, front, m, i);
        lemma_linked(neighbors, vectors, node, front, m, last as int);
        assert(!front.contains(last)) by {
            if front.contains(last) {
                let k = choose|k: int| 0 <= k < front.len() && front[k] == last;
                assert(others[k] == others[n]);
            }
        }
        if front.contains(i as usize) {
            let k = choose|k: int| 0 <= k < front.len() && front[k] == i as usize;
            assert(others[k] == i as usize);
        }
        if others.contains(i as usize) && i != last {
            let k = choose|k: int| 0 <= k < others.len() && others[k] == i as usize;
            assert(front[k] == i as usize);
        }
    }
}

/// The graph in which a new node looks for its links: it is there, but nothing
/// leads to it yet.
spec fn unlinked(g: Graph, vector: Seq<F32>) -> Graph {
    Graph { vectors: g.vectors.push(vector), neighbors: g.neighbors.push(Seq::empty()), ..g }
}

proof fn lemma_unlinked(g: Graph, vector: Seq<F32>, x: usize)
    requires
        g.valid(),
        g.vectors.len() < usize::MAX,
        g.entry is Some,
    ensures
        unlinked(g, vector).valid(),
        closed_below(unlinked(g, vector), g.vectors.len()),
        reachable(g, g.entry->0, x) ==> reachable(unlinked(g, vector), g.entry->0, x),
{
    let t = unlinked(g, vector);
    let n = g.vectors.len();
    assert forall|i: int| 0 <= i < t.neighbors.len() implies below(
        #[trigger] t.neighbors[i],
        t.vectors.len(),
    ) by {
        if i < n {
            assert(below(g.neighbors[i], n));
        }
    }
    assert forall|i: int| 0 <= i < n implies below(#[trigger] t.neighbors[i], n) by {
        assert(t.neighbors[i] == g.neighbors[i]);
    }
    if reachable(g, g.entry->0, x) {
        let path = choose|path: Seq<usize>| is_path(g, path, g.entry->0, x);
        assert forall|i: int| 0 <= i < path.len() - 1 implies (#[trigger] path[i])
            < t.neighbors.len() && t.neighbors[path[i] as int].contains(path[i + 1]) by {
            assert(path[i] < g.neighbors.len());
            assert(t.neighbors[path[i] as int] == g.neighbors[path[i] as int]);
        }
        assert(is_path(t, path, g.entry->0, x));
    }
}

proof fn lemma_chosen_links(g: Graph, vector: Seq<F32>, m: nat, ef: nat, x: usize)
    requires
        g.valid(),
        g.vectors.len() < usize::MAX,
        g.entry is Some,
    ensures
        ({
            let n = g.vectors.len();
            let links = grown(g, vector, m, ef).neighbors[n as int];
            &&& links.len() <= m
            &&& links.no_duplicates()
            &&& below(links, n)
            &&& x < n && reachable(g, g.entry->0, x) && !links.contains(x) ==> links.len() == m
            &&& x < n && reachable(g, g.entry->0, x) && !links.contains(x) && ef > n ==> forall|
                i: int,
            |
                0 <= i < links.len() ==> similarity(
                    vector,
                    g.vectors[#[trigger] links[i] as int],
                ).total_rank() >= similarity(vector, g.vectors[x as int]).total_rank()
            &&& links == chosen_links(g, vector, m, ef)
        }),
{
    let n = g.vectors.len();
    let node = n as usize;
    let width: nat = if ef < m {
        m
    } else {
        ef
    };
    let placed = unlinked(g, vector);
    lemma_unlinked(g, vector, x);
    let found = explore(placed, vector, width);
    lemma_explore_sound(placed, vector, width);
    let all = found.map_values(|c: Candidate| c.node);
    let links = select(found, node, m);
    if width == 0 {
        assert(links =~= Seq::<usize>::empty());
    } else {
        lemma_walk_settles_below(placed, vector, width, n);
        assert forall|i: int| 0 <= i < all.len() implies #[trigger] all[i] != node by {
            assert(found[i].node < n);
        }
        lemma_filter_all(all, node);
        assert(links == first(all, m));
        assert forall|i: int| 0 <= i < links.len() implies #[trigger] links[i] < n by {
            assert(links[i] == found[i].node);
        }
        assert(links.no_duplicates()) by {
            assert forall|i: int, j: int|
                0 <= i < links.len() && 0 <= j < links.len() && i != j implies links[i]
                != links[j] by {
                assert(links[i] == found[i].node && links[j] == found[j].node);
                if i < j {
                    assert(found[i].node != found[j].node);
                } else {
                    assert(found[j].node != found[i].node);
                }
            }
        }
        if x < n && reachable(g, g.entry->0, x) && !links.contains(x) {
            if links.len() < m {
                assert(holds_node(found, x as int));
                let i = choose|i: int| 0 <= i < found.len() && (#[trigger] found[i]).node == x;
                assert(links[i] == x);
            }
            if ef > n {
                assert(holds_node(found, x as int)) by {
                    if found.len() >= width {
                        lemma_count_nodes(found, n, x as int);
                    }
                }
                let j = choose|j: int| 0 <= j < found.len() && (#[trigger] found[j]).node == x;
                if j < links.len() {
                    assert(links[j] == x);
                }
                assert forall|i: int| 0 <= i < links.len() implies similarity(
                    vector,
                    g.vectors[#[trigger] links[i] as int],
                ).total_rank() >= similarity(vector, g.vectors[x as int]).total_rank() by {
                    assert(links[i] == found[i].node);
                    assert(Candidate::ahead(found[i], found[j]));
                    assert(found[i] == placed.candidate(vector, found[i].node));
                    assert(found[j] == placed.candidate(vector, found[j].node));
                    assert(placed.vectors[links[i] as int] == g.vectors[links[i] as int]);
                    assert(placed.vectors[x as int] == g.vectors[x as int]);
                }
            }
        }
    }
    assert(!links.contains(node)) by {
        if links.contains(node) {
            let i = choose|i: int| 0 <= i < links.len() && links[i] == node;
            assert(links[i] < n);
        }
    }
    let start = placed.neighbors.update(n as int, links);
    assert(below(links, start.len())) by {
        assert forall|i: int| 0 <= i < links.len() implies #[trigger] links[i] < start.len() by {
            assert(links[i] < n);
        }
    }
    lemma_linked(start, placed.vectors, node, links, m, n as int);
    assert(grown(g, vector, m, ef).neighbors == link_all(start, placed.vectors, node, links, m));
}

/// The links that a new node gets.
spec fn chosen_links(g: Graph, vector: Seq<F32>, m: nat, ef: nat) -> Seq<usize> {
    select(
        explore(
            unlinked(g, vector),
            vector,
            if ef < m {
                m
            } else {
                ef
            },
        ),
        g.vectors.len() as usize,
        m,
    )
}

/// The links that a new node gets: to other nodes, none twice, and as many as it
/// may have, or to all that can be reached from the entry. With an effort beyond
/// the number of nodes they are the closest of those: one that can be reached and
/// that it does not link to is at most as close as each that it links to.
pub proof fn lemma_new_links(g: Graph, vector: Seq<F32>, m: nat, ef: nat, x: usize)
    requires
        g.valid(),
        g.vectors.len() < usize::MAX,
        g.entry is Some,
    ensures
        ({
            let n = g.vectors.len();
            let links = grown(g, vector, m, ef).neighbors[n as int];
            &&& links.len() <= m
            &&& links.no_duplicates()
            &&& below(links, n)
            &&& x < n && reachable(g, g.entry->0, x) && !links.contains(x) ==> links.len() == m
            &&& x < n && reachable(g, g.entry->0, x) && !links.contains(x) && ef > n ==> forall|
                i: int,
            |
                0 <= i < links.len() ==> similarity(
                    vector,
                    g.vectors[#[trigger] links[i] as int],
                ).total_rank() >= similarity(vector, g.vectors[x as int]).total_rank()
        }),
{
    lemma_chosen_links(g, vector, m, ef, x);
}

/// What becomes of the links of the other nodes. A node that the new one does not
/// link to keeps its links. One that it does link to, and that has room, gets a
/// link back and keeps the others. Where it has none, it keeps as many as it may,
/// of its old links and the one to the new node: one that it drops is at most as
/// close to it as each that it keeps.
pub proof fn lemma_old_links(
    g: Graph,
    vector: Seq<F32>,
    m: nat,
    ef: nat,
    other: usize,
    y: usize,
)
    requires
        g.valid(),
        g.vectors.len() < usize::MAX,
        g.entry is Some,
        other < g.vectors.len(),
    ensures
        ({
            let n = g.vectors.len();
            let node = n as usize;
            let t = grown(g, vector, m, ef);
            let old = g.neighbors[other as int];
            let list = t.neighbors[other as int];
            let back = t.neighbors[n as int].contains(other);
            &&& !back ==> list == old
            &&& back && old.len() < m ==> list == old.push(node)
            &&& back && old.len() >= m ==> {
                &&& list.len() <= m
                &&& list.no_duplicates()
                &&& list.contains(y) ==> old.contains(y) || y == node
                &&& (old.contains(y) || y == node) && !list.contains(y) ==> list.len() == m
                    && forall|i: int|
                    0 <= i < list.len() ==> similarity(
                        g.vectors[other as int],
                        t.vectors[#[trigger] list[i] as int],
                    ).total_rank() >= similarity(
                        g.vectors[other as int],
                        t.vectors[y as int],
                    ).total_rank()
            }
        }),
{
    let n = g.vectors.len();
    let node = n as usize;
    lemma_chosen_links(g, vector, m, ef, other);
    let placed = unlinked(g, vector);
    let links = chosen_links(g, vector, m, ef);
    let start = placed.neighbors.update(n as int, links);
    let vectors = placed.vectors;
    assert(below(links, start.len())) by {
        assert forall|i: int| 0 <= i < links.len() implies #[trigger] links[i] < start.len() by {
            assert(links[i] < n);
        }
    }
    lemma_linked(start, vectors, node, links, m, other as int);
    let old = g.neighbors[other as int];
    assert(start[other as int] == old);
    let t = grown(g, vector, m, ef);
    assert(t.neighbors == link_all(start, vectors, node, links, m));
    assert(t.vectors == vectors);
    let both = old.push(node);
    assert(vectors[other as int] == g.vectors[other as int]);
    lemma_closest_best(vectors, g.vectors[other as int], both, m, y);
    if both.contains(y) {
        let k = choose|k: int| 0 <= k < both.len() && both[k] == y;
        if k < old.len() {
            assert(old[k] == y);
        }
    }
    if old.contains(y) {
        let k = choose|k: int| 0 <= k < old.len() && old[k] == y;
        assert(both[k] == y);
    }
    if y == node {
        assert(both[old.len() as int] == y);
    }
}

/// An insertion into a collection with a graph links the new vector as the
/// parameters of the graph say: to at most `max_neighbors` others, to fewer only
/// where no more can be reached, and, where `ef_construction` is beyond the number
/// of vectors, to the closest of those.
pub proof fn lemma_insert_links(s: DbView, params: AnnParams, r: RecordView, x: usize)
    requires
        consistent(s),
        s.kind == IndexKind::Hnsw(params),
        inserted(s, r).1 is Ok,
        !s.tombstones.contains(r.id),
        0 < s.index.entries.len() < usize::MAX,
    ensures
        ({
            let t = inserted(s, r).0;
            let n = s.index.entries.len();
            let links = t.index.links[n as int];
            &&& t.index.entries == s.index.entries.push((r.id, r.vector))
            &&& t.index.entry == s.index.entry
            &&& links.len() <= params.max_neighbors
            &&& links.no_duplicates()
            &&& below(links, n)
            &&& x < n && reachable(s.index.graph(), s.index.entry->0, x) && !links.contains(x) ==> {
                &&& links.len() == params.max_neighbors
                &&& params.ef_construction > n ==> forall|i: int|
                    0 <= i < links.len() ==> similarity(
                        r.vector,
                        s.index.entries[#[trigger] links[i] as int].1,
                    ).total_rank() >= similarity(
                        r.vector,
                        s.index.entries[x as int].1,
                    ).total_rank()
            }
        }),
{
    let g = s.index.graph();
    let m = params.max_neighbors as nat;
    let ef = params.ef_construction as nat;
    lemma_new_links(g, r.vector, m, ef, x);
    let t = inserted(s, r).0;
    assert(t.index.links == grown(g, r.vector, m, ef).neighbors);
    let n = s.index.entries.len();
    let links = t.index.links[n as int];
    if x < n && reachable(g, s.index.entry->0, x) && !links.contains(x)
        && params.ef_construction > n {
        assert forall|i: int| 0 <= i < links.len() implies similarity(
            r.vector,
            s.index.entries[#[trigger] links[i] as int].1,
        ).total_rank() >= similarity(r.vector, s.index.entries[x as int].1).total_rank() by {
            assert(links[i] < n);
            assert(g.vectors[links[i] as int] == s.index.entries[links[i] as int].1);
            assert(g.vectors[x as int] == s.index.entries[x as int].1);
        }
    }
}

} // verus!
