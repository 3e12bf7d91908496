//! What a walk finds, whatever its effort.

use super::complete::{
    keeps_best, lemma_ranked_levels, lemma_visit_all_best, lemma_visit_best, node_level,
    nothing_closer, scores_defined,
};
use super::graph::{
    all_visited, below, expand, explore, finished, holds_node, is_path, lemma_closed_path,
    lemma_explore_sound, lemma_holds_after_rank, lemma_start_sound, lemma_visit_all_steps,
    reachable, steps_left, visit, visit_all, walk, walk_start, Candidate, Graph, Walk,
};
use crate::float::F32;
use crate::ranking::{lemma_ranking, ranking, Ranked};
use vstd::prelude::*;

verus! {

/// Each node that has been seen is queued, or all that it links to has been seen,
/// or it is not kept. The node `pending` is just being expanded.
spec fn accounted(s: Walk, g: Graph, pending: int) -> bool {
    forall|n: int|
        #![trigger s.visited[n]]
        0 <= n < s.visited.len() && s.visited[n] ==> n == pending || holds_node(s.frontier, n)
            || all_visited(s.visited, g.neighbors[n]) || !holds_node(s.kept, n)
}

/// The nodes below `c` link to nodes below `c` only.
pub open spec fn closed_below(g: Graph, c: nat) -> bool {
    c <= g.vectors.len() && forall|i: int| 0 <= i < c ==> below(#[trigger] g.neighbors[i], c)
}

/// A walk among the nodes below `c`, at any step.
spec fn in_hand(s: Walk, g: Graph, query: Seq<F32>, ef: nat, c: nat, pending: int) -> bool {
    keeps_best(s, g, query, ef, c) && accounted(s, g, pending)
}

proof fn lemma_visit_accounted(
    s: Walk,
    g: Graph,
    query: Seq<F32>,
    ef: nat,
    c: nat,
    node: usize,
    pending: int,
)
    requires
        g.valid(),
        in_hand(s, g, query, ef, c, pending),
        node < c <= g.vectors.len(),
    ensures
        in_hand(visit(s, g, query, ef, node), g, query, ef, c, pending),
{
    lemma_visit_best(s, g, query, ef, c, node);
    if !s.visited[node as int] {
        let t = visit(s, g, query, ef, node);
        let item = g.candidate(query, node);
        let grown = ranking(s.kept.push(item));
        lemma_ranking(s.kept.push(item));
        assert(!holds_node(s.kept, node as int)) by {
            if holds_node(s.kept, node as int) {
                let i = choose|i: int|
                    0 <= i < s.kept.len() && (#[trigger] s.kept[i]).node == node;
                assert(s.visited[s.kept[i].node as int]);
            }
        }
        assert forall|n: int|
            #![trigger t.visited[n]]
            0 <= n < t.visited.len() && t.visited[n] implies n == pending || holds_node(
            t.frontier,
            n,
        ) || all_visited(t.visited, g.neighbors[n]) || !holds_node(t.kept, n) by {
            lemma_holds_after_rank(s.kept, item, n);
            lemma_holds_after_rank(s.frontier, item, n);
            if holds_node(t.kept, n) && t.kept != s.kept {
                let i = choose|i: int| 0 <= i < t.kept.len() && (#[trigger] t.kept[i]).node == n;
                assert(grown[i].node == n);
                assert(holds_node(grown, n));
            }
            if n != node {
                assert(s.visited[n]);
                if all_visited(s.visited, g.neighbors[n]) {
                    assert(below(g.neighbors[n], g.vectors.len()));
                    assert(all_visited(t.visited, g.neighbors[n]));
                }
            }
        }
    }
}

proof fn lemma_visit_all_accounted(
    s: Walk,
    g: Graph,
    query: Seq<F32>,
    ef: nat,
    c: nat,
    nodes: Seq<usize>,
    pending: int,
)
    requires
        g.valid(),
        c <= g.vectors.len(),
        in_hand(s, g, query, ef, c, pending),
        below(nodes, c),
    ensures
        in_hand(visit_all(s, g, query, ef, nodes), g, query, ef, c, pending),
    decreases nodes.len(),
{
    if nodes.len() > 0 {
        let front = nodes.drop_last();
        assert(below(front, c)) by {
            assert forall|i: int| 0 <= i < front.len() implies #[trigger] front[i] < c by {
                assert(front[i] == nodes[i]);
            }
        }
        assert(nodes.last() == nodes[nodes.len() - 1]);
        lemma_visit_all_accounted(s, g, query, ef, c, front, pending);
        lemma_visit_accounted(
            visit_all(s, g, query, ef, front),
            g,
            query,
            ef,
            c,
            nodes.last(),
            pending,
        );
    }
}

/// What is known when a walk ends: all that the kept nodes link to has been seen,
/// where every score is defined; and where fewer nodes than possible are kept, all
/// that can be reached is kept.
proof fn lemma_walk_end(
    s: Walk,
    g: Graph,
    query: Seq<F32>,
    ef: nat,
    c: nat,
    entry: usize,
) -> (seen: Seq<bool>)
    requires
        g.valid(),
        closed_below(g, c),
        in_hand(s, g, query, ef, c, -1),
        entry < c,
        s.visited[entry as int],
    ensures
        ({
            let found = walk(s, g, query, ef);
            &&& seen.len() == g.vectors.len()
            &&& seen[entry as int]
            &&& forall|i: int| 0 <= i < found.len() ==> (#[trigger] found[i]).node < c
            &&& found.len() < ef ==> forall|n: int|
                #![trigger seen[n]]
                0 <= n < seen.len() && seen[n] ==> holds_node(found, n) && all_visited(
                    seen,
                    g.neighbors[n],
                )
            &&& scores_defined(g, query, c) ==> {
                &&& nothing_closer(found, seen, g, query)
                &&& forall|i: int|
                    0 <= i < found.len() ==> all_visited(
                        seen,
                        g.neighbors[(#[trigger] found[i]).node as int],
                    )
            }
        }),
    decreases steps_left(s),
{
    if finished(s, ef) {
        let found = s.kept;
        assert forall|i: int| 0 <= i < found.len() implies (#[trigger] found[i]).node < c by {
            assert(s.visited[found[i].node as int]);
        }
        if found.len() < ef {
            assert forall|n: int|
                #![trigger s.visited[n]]
                0 <= n < s.visited.len() && s.visited[n] implies holds_node(found, n)
                && all_visited(s.visited, g.neighbors[n]) by {
                assert(holds_node(s.kept, n));
            }
        }
        if scores_defined(g, query, c) {
            assert forall|i: int| 0 <= i < found.len() implies all_visited(
                s.visited,
                g.neighbors[(#[trigger] found[i]).node as int],
            ) by {
                let n = found[i].node as int;
                assert(s.visited[n]);
                assert(holds_node(s.kept, n));
                if holds_node(s.frontier, n) {
                    let j = choose|j: int|
                        0 <= j < s.frontier.len() && (#[trigger] s.frontier[j]).node == n;
                    lemma_ranked_levels(s.frontier, 0, j);
                    lemma_ranked_levels(s.kept, i, s.kept.len() - 1);
                    assert(s.frontier[j] == g.candidate(query, s.frontier[j].node));
                    assert(s.kept[i] == g.candidate(query, s.kept[i].node));
                    assert(false);
                }
            }
        }
        s.visited
    } else {
        let current = s.frontier[0].node;
        let next = Walk { frontier: s.frontier.skip(1), ..s };
        let nodes = g.neighbors[current as int];
        assert(s.visited[current as int]);
        assert(current < c);
        assert(below(nodes, c));
        assert(accounted(next, g, current as int)) by {
            assert forall|n: int|
                #![trigger next.visited[n]]
                0 <= n < next.visited.len() && next.visited[n] implies n == current || holds_node(
                next.frontier,
                n,
            ) || all_visited(next.visited, g.neighbors[n]) || !holds_node(next.kept, n) by {
                assert(s.visited[n]);
                if n != current && holds_node(s.frontier, n) {
                    let i = choose|i: int|
                        0 <= i < s.frontier.len() && (#[trigger] s.frontier[i]).node == n;
                    assert(next.frontier[i - 1].node == n);
                }
            }
        }
        assert(keeps_best(next, g, query, ef, c)) by {
            assert forall|i: int, j: int| 0 <= i < j < next.frontier.len() implies Candidate::ahead(
                #[trigger] next.frontier[i],
                #[trigger] next.frontier[j],
            ) by {
                assert(Candidate::ahead(s.frontier[i + 1], s.frontier[j + 1]));
            }
        }
        lemma_visit_all_accounted(next, g, query, ef, c, nodes, current as int);
        lemma_visit_all_best(next, g, query, ef, c, nodes);
        lemma_visit_all_steps(next, g, query, ef, nodes);
        let t = expand(s, g, query, ef);
        assert(accounted(t, g, -1));
        assert(next.visited[entry as int]);
        assert(t.visited[entry as int]);
        lemma_walk_end(t, g, query, ef, c, entry)
    }
}

/// What a walk finds that stays among the nodes below `c`, whatever its effort: as
/// many of them as it may keep, or all that can be reached; and where their scores
/// are defined, nothing that one more link leads to is closer.
pub proof fn lemma_walk_settles_below(g: Graph, query: Seq<F32>, ef: nat, c: nat)
    requires
        g.valid(),
        ef > 0,
        closed_below(g, c),
        g.entry matches Some(entry) ==> entry < c,
    ensures
        ({
            let found = explore(g, query, ef);
            &&& forall|i: int| 0 <= i < found.len() ==> (#[trigger] found[i]).node < c
            &&& found.len() < ef ==> forall|node: usize|
                node < g.vectors.len() && #[trigger] reachable(g, g.entry->0, node) ==> holds_node(
                    found,
                    node as int,
                )
            &&& scores_defined(g, query, c) ==> forall|i: int, j: int, k: int|
                #![trigger found[i], found[j], g.neighbors[found[i].node as int][k]]
                0 <= i < found.len() && 0 <= j < found.len() && 0 <= k
                    < g.neighbors[found[i].node as int].len() ==> {
                    let other = g.neighbors[found[i].node as int][k];
                    holds_node(found, other as int) || g.candidate(query, other).similarity.level()
                        <= found[j].similarity.level()
                }
        }),
{
    if let Some(entry) = g.entry {
        let s = walk_start(g, query, entry);
        let found = explore(g, query, ef);
        lemma_explore_sound(g, query, ef);
        lemma_start_sound(g, query, entry, ef);
        assert(s.kept[0].node == entry && s.frontier[0].node == entry);
        assert(holds_node(s.kept, entry as int) && holds_node(s.frontier, entry as int));
        assert(in_hand(s, g, query, ef, c, -1));
        let seen = lemma_walk_end(s, g, query, ef, c, entry);
        if found.len() < ef {
            assert forall|node: usize|
                node < g.vectors.len() && #[trigger] reachable(
                    g,
                    entry,
                    node,
                ) implies holds_node(found, node as int) by {
                let path = choose|path: Seq<usize>| is_path(g, path, entry, node);
                lemma_closed_path(g, seen, path, entry, node);
            }
        }
        if scores_defined(g, query, c) {
            assert forall|i: int, j: int, k: int|
                #![trigger found[i], found[j], g.neighbors[found[i].node as int][k]]
                0 <= i < found.len() && 0 <= j < found.len() && 0 <= k
                    < g.neighbors[found[i].node as int].len() implies {
                let other = g.neighbors[found[i].node as int][k];
                holds_node(found, other as int) || g.candidate(query, other).similarity.level()
                    <= found[j].similarity.level()
            } by {
                let list = g.neighbors[found[i].node as int];
                let other = list[k];
                assert(all_visited(seen, list));
                assert(seen[list[k] as int]);
                assert(below(list, g.vectors.len()));
                assert(list[k] < g.vectors.len());
                if !holds_node(found, other as int) {
                    assert(node_level(g, query, other as int) <= found[j].similarity.level());
                }
            }
        }
    } else {
        assert(g.vectors.len() == 0);
    }
}

/// What a walk finds, whatever its effort. It finds as many nodes as it may keep,
/// or every node that links lead to from the entry. And where no score is
/// undefined, what it finds cannot be bettered by following one more link: each
/// node that one of the found nodes links to is found too, or is at most as close
/// as every one of them.
pub proof fn lemma_walk_settles(g: Graph, query: Seq<F32>, ef: nat)
    requires
        g.valid(),
        ef > 0,
    ensures
        ({
            let found = explore(g, query, ef);
            &&& found.len() < ef ==> forall|node: usize|
                node < g.vectors.len() && #[trigger] reachable(g, g.entry->0, node) ==> holds_node(
                    found,
                    node as int,
                )
            &&& (forall|n: usize|
                n < g.vectors.len() ==> !(#[trigger] g.candidate(query, n)).similarity.nan())
                ==> forall|i: int, j: int, k: int|
                #![trigger found[i], found[j], g.neighbors[found[i].node as int][k]]
                0 <= i < found.len() && 0 <= j < found.len() && 0 <= k
                    < g.neighbors[found[i].node as int].len() ==> {
                    let other = g.neighbors[found[i].node as int][k];
                    holds_node(found, other as int) || g.candidate(query, other).similarity.level()
                        <= found[j].similarity.level()
                }
        }),
{
    lemma_walk_settles_below(g, query, ef, g.vectors.len());
}

} // verus!
