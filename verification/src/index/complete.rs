//! Graphs in which every node links to every other, as all small graphs do: a
//! walk over one misses nothing, whatever its effort.

use super::graph::{
    all_visited, below, expand, explore, finished, holds_node, lemma_count_nodes,
    lemma_explore_sound, lemma_holds_after_rank, lemma_rank_proper, lemma_start_sound,
    lemma_visit_all_steps, lemma_visit_sound, steps_left, visit, visit_all, walk, walk_sound,
    walk_start, Candidate, Graph, Walk,
};
use super::linking::{grown, lemma_grown, link_all, other_than, select};
use crate::float::F32;
use crate::ranking::{lemma_ranking, ranked, ranking, Ranked};
use vstd::prelude::*;

verus! {

/// Every node links to every other, and to each once.
pub open spec fn complete(g: Graph) -> bool {
    forall|i: int|
        0 <= i < g.neighbors.len() ==> {
            &&& (#[trigger] g.neighbors[i]).no_duplicates()
            &&& forall|j: usize|
                j < g.neighbors.len() ==> (#[trigger] g.neighbors[i].contains(j) <==> j != i)
        }
}

/// Among the nodes below `c`, whose links stay among them, `entry` links to all
/// the others.
pub open spec fn hub(g: Graph, entry: usize, c: nat) -> bool {
    &&& entry < c <= g.vectors.len()
    &&& forall|i: int| 0 <= i < c ==> below(#[trigger] g.neighbors[i], c)
    &&& forall|j: usize|
        j < c && j != entry ==> #[trigger] g.neighbors[entry as int].contains(j)
}

/// No node below `c` has an undefined score.
pub open spec fn scores_defined(g: Graph, query: Seq<F32>, c: nat) -> bool {
    forall|n: usize| n < c ==> !(#[trigger] g.candidate(query, n)).similarity.nan()
}

/// The score of a node, as a number.
pub open spec fn node_level(g: Graph, query: Seq<F32>, n: int) -> int {
    g.candidate(query, n as usize).similarity.level()
}

/// Every node below `c` that is not among the candidates is at most as close as
/// each of them.
pub open spec fn nothing_closer(
    list: Seq<Candidate>,
    seen: Seq<bool>,
    g: Graph,
    query: Seq<F32>,
) -> bool {
    forall|n: int, i: int|
        #![trigger seen[n], list[i]]
        0 <= n < seen.len() && seen[n] && !holds_node(list, n) && 0 <= i < list.len()
            ==> node_level(g, query, n) <= list[i].similarity.level()
}

/// What holds of a walk that has seen nodes below `c` only: it has kept all of
/// them, or as many as it may and none that is closer is left out.
pub(crate) open spec fn keeps_best(s: Walk, g: Graph, query: Seq<F32>, ef: nat, c: nat) -> bool {
    &&& walk_sound(s, g, query, ef)
    &&& forall|n: int| 0 <= n < s.visited.len() && #[trigger] s.visited[n] ==> n < c
    &&& s.kept.len() < ef ==> forall|n: int|
        0 <= n < s.visited.len() && #[trigger] s.visited[n] ==> holds_node(s.kept, n)
    &&& scores_defined(g, query, c) ==> nothing_closer(s.kept, s.visited, g, query)
}

/// What comes later is at most as close.
pub(crate) proof fn lemma_ranked_levels(list: Seq<Candidate>, i: int, j: int)
    requires
        ranked(list),
        0 <= i <= j < list.len(),
    ensures
        list[i].similarity.level() >= list[j].similarity.level(),
{
    if i < j {
        assert(Candidate::ahead(list[i], list[j]));
    }
}

pub(crate) proof fn lemma_visit_best(
    s: Walk,
    g: Graph,
    query: Seq<F32>,
    ef: nat,
    c: nat,
    node: usize,
)
    requires
        keeps_best(s, g, query, ef, c),
        node < c <= g.vectors.len(),
        g.vectors.len() <= usize::MAX,
    ensures
        keeps_best(visit(s, g, query, ef, node), g, query, ef, c),
        visit(s, g, query, ef, node).visited[node as int],
        forall|n: int|
            0 <= n < s.visited.len() && s.visited[n] ==> #[trigger] visit(
                s,
                g,
                query,
                ef,
                node,
            ).visited[n],
{
    lemma_visit_sound(s, g, query, ef, node);
    if !s.visited[node as int] {
        let t = visit(s, g, query, ef, node);
        let c0 = g.candidate(query, node);
        let grown_list = ranking(s.kept.push(c0));
        let worst = s.kept.last();
        lemma_ranking(s.kept.push(c0));
        assert(t.visited == s.visited.update(node as int, true));
        if s.kept.len() < ef {
            assert(t.kept == grown_list);
            assert forall|n: int| 0 <= n < t.visited.len() && #[trigger] t.visited[n] implies
                holds_node(t.kept, n) by {
                lemma_holds_after_rank(s.kept, c0, n);
                if n != node {
                    assert(s.visited[n]);
                }
            }
        } else if F32::less(worst.similarity, c0.similarity) {
            assert(t.kept == grown_list.drop_last());
            let dropped = grown_list.last();
            lemma_rank_proper(s.kept, c0, t.visited, g, query);
            if scores_defined(g, query, c) {
                assert forall|n: int, i: int|
                    #![trigger t.visited[n], t.kept[i]]
                    0 <= n < t.visited.len() && t.visited[n] && !holds_node(t.kept, n) && 0 <= i
                        < t.kept.len() implies node_level(g, query, n)
                    <= t.kept[i].similarity.level() by {
                    assert(t.kept[i] == grown_list[i]);
                    if dropped.node == n {
                        lemma_ranked_levels(grown_list, i, grown_list.len() - 1);
                        assert(grown_list[grown_list.len() - 1] == dropped);
                    } else {
                        // Not kept before either.
                        if holds_node(grown_list, n) {
                            let k = choose|k: int|
                                0 <= k < grown_list.len() && (#[trigger] grown_list[k]).node == n;
                            assert(k < t.kept.len());
                            assert(t.kept[k].node == n);
                            assert(false);
                        }
                        lemma_holds_after_rank(s.kept, c0, n);
                        assert(n != node && s.visited[n] && !holds_node(s.kept, n));
                        assert(grown_list.contains(grown_list[i]));
                        if grown_list[i] == c0 {
                            assert(s.kept[s.kept.len() - 1] == worst);
                            assert(node_level(g, query, n)
                                <= s.kept[s.kept.len() - 1].similarity.level());
                        } else {
                            let k = choose|k: int|
                                0 <= k < s.kept.len() && s.kept[k] == grown_list[i];
                            assert(node_level(g, query, n) <= s.kept[k].similarity.level());
                        }
                    }
                }
            }
        } else if scores_defined(g, query, c) {
            assert(t.kept == s.kept);
            assert forall|n: int, i: int|
                #![trigger t.visited[n], t.kept[i]]
                0 <= n < t.visited.len() && t.visited[n] && !holds_node(t.kept, n) && 0 <= i
                    < t.kept.len() implies node_level(g, query, n)
                <= t.kept[i].similarity.level() by {
                if n == node {
                    let last = s.kept.len() - 1;
                    lemma_ranked_levels(s.kept, i, last);
                    assert(s.kept[last] == g.candidate(query, s.kept[last].node));
                    assert(s.visited[s.kept[last].node as int]);
                    assert(!g.candidate(query, s.kept[last].node).similarity.nan());
                    assert(!c0.similarity.nan());
                } else {
                    assert(s.visited[n]);
                    assert(s.kept[i] == t.kept[i]);
                }
            }
        }
    }
}

pub(crate) proof fn lemma_visit_all_best(
    s: Walk,
    g: Graph,
    query: Seq<F32>,
    ef: nat,
    c: nat,
    nodes: Seq<usize>,
)
    requires
        keeps_best(s, g, query, ef, c),
        c <= g.vectors.len() <= usize::MAX,
        below(nodes, c),
    ensures
        keeps_best(visit_all(s, g, query, ef, nodes), g, query, ef, c),
        all_visited(visit_all(s, g, query, ef, nodes).visited, nodes),
        forall|n: int|
            0 <= n < s.visited.len() && s.visited[n] ==> #[trigger] visit_all(
                s,
                g,
                query,
                ef,
                nodes,
            ).visited[n],
    decreases nodes.len(),
{
    if nodes.len() > 0 {
        let front = nodes.drop_last();
        assert forall|i: int| 0 <= i < front.len() implies #[trigger] front[i] < c by {
            assert(front[i] == nodes[i]);
        }
        lemma_visit_all_best(s, g, query, ef, c, front);
        let t = visit_all(s, g, query, ef, front);
        assert(nodes.last() == nodes[nodes.len() - 1]);
        lemma_visit_best(t, g, query, ef, c, nodes.last());
        let u = visit(t, g, query, ef, nodes.last());
        assert forall|i: int| 0 <= i < nodes.len() implies
            u.visited[#[trigger] nodes[i] as int] by {
            if i < front.len() {
                assert(front[i] == nodes[i]);
                assert(t.visited[front[i] as int]);
            }
        }
    }
}

proof fn lemma_visit_all_seen(s: Walk, g: Graph, query: Seq<F32>, ef: nat, nodes: Seq<usize>)
    requires
        below(nodes, s.visited.len()),
        all_visited(s.visited, nodes),
    ensures
        visit_all(s, g, query, ef, nodes) == s,
    decreases nodes.len(),
{
    if nodes.len() > 0 {
        let front = nodes.drop_last();
        assert forall|i: int| 0 <= i < front.len() implies #[trigger] front[i] < s.visited.len()
            && s.visited[front[i] as int] by {
            assert(front[i] == nodes[i]);
        }
        lemma_visit_all_seen(s, g, query, ef, front);
        assert(nodes.last() == nodes[nodes.len() - 1]);
    }
}

/// Once everything has been seen, a walk keeps what it has.
proof fn lemma_walk_settled(s: Walk, g: Graph, query: Seq<F32>, ef: nat, c: nat)
    requires
        walk_sound(s, g, query, ef),
        c <= g.vectors.len(),
        forall|n: int| 0 <= n < s.visited.len() ==> (#[trigger] s.visited[n] <==> n < c),
        forall|i: int| 0 <= i < c ==> below(#[trigger] g.neighbors[i], c),
    ensures
        walk(s, g, query, ef) == s.kept,
    decreases steps_left(s),
{
    if !finished(s, ef) {
        let next = Walk { frontier: s.frontier.skip(1), ..s };
        let current = s.frontier[0].node as int;
        let nodes = g.neighbors[current];
        assert(s.visited[current]);
        assert(below(nodes, c));
        assert forall|i: int| 0 <= i < nodes.len() implies #[trigger] nodes[i] < s.visited.len()
            && s.visited[nodes[i] as int] by {
            assert(nodes[i] < c);
            assert(s.visited[nodes[i] as int]);
        }
        lemma_visit_all_seen(next, g, query, ef, nodes);
        lemma_visit_all_steps(next, g, query, ef, nodes);
        lemma_walk_settled(next, g, query, ef, c);
        assert(walk(next, g, query, ef) == walk(s, g, query, ef));
    }
}

/// A walk from a node that links to all the others finds as many of them as it
/// may; where every score is defined, none that is closer is left out.
pub proof fn lemma_hub_explored(g: Graph, query: Seq<F32>, ef: nat, entry: usize, c: nat)
    requires
        g.valid(),
        g.entry == Some(entry),
        hub(g, entry, c),
    ensures
        ({
            let found = explore(g, query, ef);
            let width: nat = if ef < 1 {
                1
            } else {
                ef
            };
            &&& found.len() == if c < width {
                c
            } else {
                width
            }
            &&& forall|i: int| 0 <= i < found.len() ==> (#[trigger] found[i]).node < c
            &&& scores_defined(g, query, c) ==> nothing_closer(
                found,
                Seq::new(c, |n: int| true),
                g,
                query,
            )
        }),
{
    let width: nat = if ef < 1 {
        1
    } else {
        ef
    };
    let s = walk_start(g, query, entry);
    let next = Walk { frontier: s.frontier.skip(1), ..s };
    let nodes = g.neighbors[entry as int];
    lemma_start_sound(g, query, entry, width);
    assert(s.kept[0].node == entry);
    assert(keeps_best(next, g, query, width, c));
    assert(!finished(s, width));
    assert(below(nodes, c));
    lemma_visit_all_best(next, g, query, width, c, nodes);
    lemma_visit_all_steps(next, g, query, width, nodes);
    let t = expand(s, g, query, width);
    assert(t == visit_all(next, g, query, width, nodes));
    assert forall|n: int| 0 <= n < t.visited.len() implies (#[trigger] t.visited[n] <==> n < c) by {
        if n < c && n != entry {
            assert(nodes.contains(n as usize));
            let k = choose|k: int| 0 <= k < nodes.len() && nodes[k] == n as usize;
            assert(t.visited[nodes[k] as int]);
        }
        if n == entry {
            assert(next.visited[n]);
        }
    }
    lemma_walk_settled(t, g, query, width, c);
    let found = explore(g, query, ef);
    assert(found == t.kept);
    assert forall|i: int| 0 <= i < found.len() implies (#[trigger] found[i]).node < c by {
        assert(t.visited[found[i].node as int]);
    }
    lemma_count_nodes(found, c, 0);
    if found.len() < width {
        assert forall|n: int| 0 <= n < c implies holds_node(found, n) by {
            assert(t.visited[n]);
        }
        lemma_all_held(found, c);
    }
    if scores_defined(g, query, c) {
        let all = Seq::new(c, |n: int| true);
        assert forall|n: int, i: int|
            #![trigger all[n], found[i]]
            0 <= n < all.len() && all[n] && !holds_node(found, n) && 0 <= i
                < found.len() implies node_level(g, query, n) <= found[i].similarity.level() by {
            assert(t.visited[n]);
        }
    }
}

/// Candidates that hold every node below `c` are at least `c`.
pub(crate) proof fn lemma_all_held(list: Seq<Candidate>, c: nat)
    requires
        forall|n: int| 0 <= n < c ==> #[trigger] holds_node(list, n),
    ensures
        list.len() >= c,
{
    let nodes = list.map_values(|x: Candidate| x.node as int);
    let all = vstd::set_lib::set_int_range(0, c as int);
    vstd::set_lib::lemma_int_range(0, c as int);
    assert forall|n: int| all.contains(n) implies nodes.to_set().contains(n) by {
        assert(holds_node(list, n));
        let i = choose|i: int| 0 <= i < list.len() && (#[trigger] list[i]).node == n;
        assert(nodes[i] == n);
    }
    assert(all.subset_of(nodes.to_set()));
    vstd::seq_lib::seq_to_set_is_finite(nodes);
    vstd::set_lib::lemma_len_subset(all, nodes.to_set());
    nodes.lemma_cardinality_of_set();
}

pub(crate) proof fn lemma_filter_all(nodes: Seq<usize>, node: usize)
    requires
        forall|i: int| 0 <= i < nodes.len() ==> #[trigger] nodes[i] != node,
    ensures
        nodes.filter(other_than(node)) == nodes,
    decreases nodes.len(),
{
    reveal(Seq::filter);
    if nodes.len() > 0 {
        let front = nodes.drop_last();
        assert forall|i: int| 0 <= i < front.len() implies #[trigger] front[i] != node by {
            assert(front[i] == nodes[i]);
        }
        lemma_filter_all(front, node);
        assert(nodes.last() == nodes[nodes.len() - 1]);
        assert(front.push(nodes.last()) =~= nodes);
    } else {
        assert(nodes.filter(other_than(node)) =~= nodes);
    }
}

/// Linking where no list is full adds one link to each list, and nothing else.
proof fn lemma_link_all_plain(
    neighbors: Seq<Seq<usize>>,
    vectors: Seq<Seq<F32>>,
    node: usize,
    others: Seq<usize>,
    m: nat,
)
    requires
        others.no_duplicates(),
        below(others, neighbors.len()),
        forall|i: int|
            0 <= i < others.len() ==> neighbors[#[trigger] others[i] as int].len() < m,
    ensures
        link_all(neighbors, vectors, node, others, m).len() == neighbors.len(),
        forall|i: int|
            0 <= i < neighbors.len() && i <= usize::MAX ==> #[trigger] link_all(
                neighbors,
                vectors,
                node,
                others,
                m,
            )[i] == if others.contains(i as usize) {
                neighbors[i].push(node)
            } else {
                neighbors[i]
            },
    decreases others.len(),
{
    if others.len() > 0 {
        let front = others.drop_last();
        let last = others.last();
        assert(last == others[others.len() - 1]);
        assert forall|i: int| 0 <= i < front.len() implies #[trigger] front[i] < neighbors.len()
            && neighbors[front[i] as int].len() < m by {
            assert(front[i] == others[i]);
        }
        lemma_link_all_plain(neighbors, vectors, node, front, m);
        let before = link_all(neighbors, vectors, node, front, m);
        let after = link_all(neighbors, vectors, node, others, m);
        assert(!front.contains(last)) by {
            if front.contains(last) {
                let k = choose|k: int| 0 <= k < front.len() && front[k] == last;
                assert(others[k] == others[others.len() - 1]);
            }
        }
        assert(before[last as int] == neighbors[last as int]);
        assert forall|i: int| 0 <= i < neighbors.len() && i <= usize::MAX implies
            #[trigger] after[i] == if others.contains(i as usize) {
            neighbors[i].push(node)
        } else {
            neighbors[i]
        } by {
            assert(before[i] == if front.contains(i as usize) {
                neighbors[i].push(node)
            } else {
                neighbors[i]
            });
            if front.contains(i as usize) {
                let k = choose|k: int| 0 <= k < front.len() && front[k] == i as usize;
                assert(others[k] == i as usize);
            }
            if others.contains(i as usize) && i != last {
                let k = choose|k: int| 0 <= k < others.len() && others[k] == i as usize;
                assert(front[k] == i as usize);
            }
        }
    }
}

/// A list of distinct nodes below `n` without `i` is shorter than `n`.
proof fn lemma_short_list(list: Seq<usize>, n: nat, i: int)
    requires
        list.no_duplicates(),
        below(list, n),
        0 <= i < n <= usize::MAX,
        !list.contains(i as usize),
    ensures
        list.len() < n,
{
    let nodes = list.map_values(|x: usize| x as int);
    assert(nodes.no_duplicates());
    nodes.unique_seq_to_set();
    let all = vstd::set_lib::set_int_range(0, n as int);
    vstd::set_lib::lemma_int_range(0, n as int);
    assert forall|x: int| nodes.to_set().contains(x) implies all.remove(i).contains(x) by {
        let k = choose|k: int| 0 <= k < nodes.len() && nodes[k] == x;
        assert(list[k] < n);
        assert(list.contains(list[k]));
    }
    assert(nodes.to_set().subset_of(all.remove(i)));
    vstd::set_lib::lemma_len_subset(nodes.to_set(), all.remove(i));
}

/// A complete graph with room for one link more per node stays complete when it
/// grows.
pub proof fn lemma_complete_grown(g: Graph, vector: Seq<F32>, m: nat, ef: nat)
    requires
        g.valid(),
        complete(g),
        g.vectors.len() <= m,
        g.vectors.len() < usize::MAX,
    ensures
        complete(grown(g, vector, m, ef)),
{
    let n = g.vectors.len();
    let node = n as usize;
    let vectors = g.vectors.push(vector);
    let neighbors = g.neighbors.push(Seq::empty());
    let r = grown(g, vector, m, ef);
    lemma_grown(g, vector, m, ef);
    match g.entry {
        None => {
            assert forall|i: int| 0 <= i < r.neighbors.len() implies (
            #[trigger] r.neighbors[i]).no_duplicates() && forall|j: usize|
                j < r.neighbors.len() ==> (#[trigger] r.neighbors[i].contains(j) <==> j != i) by {
                assert(r.neighbors[i] =~= Seq::empty());
            }
        },
        Some(entry) => {
            let placed = Graph { vectors, neighbors, entry: Some(entry) };
            let width = if ef < m {
                m
            } else {
                ef
            };
            assert forall|i: int| 0 <= i < neighbors.len() implies below(
                #[trigger] neighbors[i],
                vectors.len(),
            ) by {
                if i < n {
                    assert(below(g.neighbors[i], n));
                }
            }
            assert(placed.valid());
            assert(hub(placed, entry, n)) by {
                assert forall|i: int| 0 <= i < n implies below(
                    #[trigger] placed.neighbors[i],
                    n,
                ) by {
                    assert(below(g.neighbors[i], n));
                }
                assert forall|j: usize| j < n && j != entry implies
                    #[trigger] placed.neighbors[entry as int].contains(j) by {
                    assert(g.neighbors[entry as int].contains(j));
                }
            }
            lemma_explore_sound(placed, vector, width);
            lemma_hub_explored(placed, vector, width, entry, n);
            let found = explore(placed, vector, width);
            let nodes = found.map_values(|c: Candidate| c.node);
            assert forall|i: int| 0 <= i < nodes.len() implies #[trigger] nodes[i] != node
                && nodes[i] < n by {
                assert(found[i].node < n);
            }
            lemma_filter_all(nodes, node);
            let selected = select(found, node, m);
            assert(selected == nodes);
            assert(selected.no_duplicates());
            assert forall|j: usize| j < n implies #[trigger] selected.contains(j) by {
                lemma_count_nodes(found, n, j as int);
                let k = choose|k: int| 0 <= k < found.len() && (#[trigger] found[k]).node == j;
                assert(selected[k] == j);
            }
            assert(!selected.contains(node)) by {
                if selected.contains(node) {
                    let k = choose|k: int| 0 <= k < selected.len() && selected[k] == node;
                    assert(nodes[k] != node);
                }
            }
            let linked = neighbors.update(node as int, selected);
            assert forall|i: int| 0 <= i < selected.len() implies linked[
                #[trigger] selected[i] as int
            ].len() < m by {
                let o = selected[i] as int;
                assert(nodes[i] < n);
                assert(linked[o] == g.neighbors[o]);
                assert(below(g.neighbors[o], n));
                assert(!g.neighbors[o].contains(o as usize));
                lemma_short_list(g.neighbors[o], n, o);
            }
            lemma_link_all_plain(linked, vectors, node, selected, m);
            assert forall|i: int| 0 <= i < r.neighbors.len() implies (
            #[trigger] r.neighbors[i]).no_duplicates() && forall|j: usize|
                j < r.neighbors.len() ==> (#[trigger] r.neighbors[i].contains(j) <==> j != i) by {
                if i < n {
                    let old = g.neighbors[i];
                    assert(selected.contains(i as usize));
                    assert(r.neighbors[i] == old.push(node));
                    lemma_push_link(old, n, i, node);
                } else {
                    assert(r.neighbors[i] == selected);
                    assert forall|j: usize| j < r.neighbors.len() implies (
                    #[trigger] r.neighbors[i].contains(j) <==> j != i) by {
                        if j < n {
                            assert(selected.contains(j));
                        }
                    }
                }
            }
        },
    }
}

/// The links of a node in a complete graph, and one to the next node.
proof fn lemma_push_link(old: Seq<usize>, n: nat, i: int, node: usize)
    requires
        old.no_duplicates(),
        below(old, n),
        forall|j: usize| j < n ==> (#[trigger] old.contains(j) <==> j != i),
        node == n,
        0 <= i < n,
    ensures
        old.push(node).no_duplicates(),
        forall|j: usize| j < n + 1 ==> (#[trigger] old.push(node).contains(j) <==> j != i),
{
    let next = old.push(node);
    assert forall|a: int, b: int| 0 <= a < next.len() && 0 <= b < next.len() && a != b implies
        next[a] != next[b] by {
        if a == old.len() {
            assert(old[b] < n);
        } else if b == old.len() {
            assert(old[a] < n);
        }
    }
    assert forall|j: usize| j < n + 1 implies (#[trigger] next.contains(j) <==> j != i) by {
        if next.contains(j) && j != node {
            let k = choose|k: int| 0 <= k < next.len() && next[k] == j;
            assert(old[k] == j);
            assert(old.contains(j));
        }
        if j != i {
            if j == node {
                assert(next[old.len() as int] == j);
            } else {
                assert(old.contains(j));
                let k = choose|k: int| 0 <= k < old.len() && old[k] == j;
                assert(next[k] == j);
            }
        }
    }
}

} // verus!
