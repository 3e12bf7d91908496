//! The navigable small-world graph: what a walk over it finds, and how it grows.

use crate::distance::similarity;
use crate::float::{lemma_total_rank_injective, F32};
use crate::ranking::{lemma_ranking, ranked, ranking, Ranked};
use vstd::prelude::*;

verus! {

/// A scored node.
///
/// Ordered by cosine similarity (higher is closer), with the node index as a
/// deterministic tie-breaker so results are stable across runs.
#[derive(Debug, Clone, Copy)]
pub struct Candidate {
    pub similarity: F32,
    pub node: usize,
}

/// The closer candidate comes first, and the later node among equals.
impl Ranked for Candidate {
    open spec fn ahead(a: Candidate, b: Candidate) -> bool {
        a.similarity.total_rank() > b.similarity.total_rank() || (a.similarity.total_rank()
            == b.similarity.total_rank() && a.node >= b.node)
    }

    proof fn lemma_total() {
        assert forall|a: Candidate, b: Candidate|
            #[trigger] Self::ahead(a, b) && #[trigger] Self::ahead(b, a) implies a == b by {
            lemma_total_rank_injective(a.similarity, b.similarity);
        }
    }

    fn is_ahead(&self, other: &Candidate) -> (r: bool) {
        other.similarity.total_lt(self.similarity) || (!self.similarity.total_lt(other.similarity)
            && self.node >= other.node)
    }

    fn copied(&self) -> (r: Candidate) {
        *self
    }
}

/// A graph: the vector of each node, the nodes that each links to, and the node
/// at which a walk starts.
pub struct Graph {
    pub vectors: Seq<Seq<F32>>,
    pub neighbors: Seq<Seq<usize>>,
    pub entry: Option<usize>,
}

/// Every node of `list` is below `n`.
pub open spec fn below(list: Seq<usize>, n: nat) -> bool {
    forall|i: int| 0 <= i < list.len() ==> #[trigger] list[i] < n
}

impl Graph {
    /// Links lead to nodes, and there is an entry exactly where there are nodes.
    pub open spec fn valid(self) -> bool {
        &&& self.neighbors.len() == self.vectors.len()
        &&& self.vectors.len() <= usize::MAX
        &&& forall|i: int|
            0 <= i < self.neighbors.len() ==> below(
                #[trigger] self.neighbors[i],
                self.vectors.len(),
            )
        &&& match self.entry {
            Some(e) => e < self.vectors.len(),
            None => self.vectors.len() == 0,
        }
    }

    /// No node links to more than `m` others.
    pub open spec fn degrees_within(self, m: nat) -> bool {
        forall|i: int| 0 <= i < self.neighbors.len() ==> (#[trigger] self.neighbors[i]).len() <= m
    }

    pub open spec fn candidate(self, query: Seq<F32>, node: usize) -> Candidate {
        Candidate { similarity: similarity(query, self.vectors[node as int]), node }
    }
}

/// A walk under way: which nodes have been seen, which are still to be
/// expanded, and the closest found so far, the last two best first.
pub struct Walk {
    pub visited: Seq<bool>,
    pub frontier: Seq<Candidate>,
    pub kept: Seq<Candidate>,
}

/// How many nodes have not been seen.
pub open spec fn unvisited(visited: Seq<bool>) -> nat
    decreases visited.len(),
{
    if visited.len() == 0 {
        0
    } else {
        unvisited(visited.drop_last()) + if visited.last() {
            0nat
        } else {
            1
        }
    }
}

/// A bound on the steps still to come.
pub open spec fn steps_left(s: Walk) -> nat {
    unvisited(s.visited) + s.frontier.len()
}

/// Keeps a candidate that is among the `ef` closest so far, and queues it.
pub open spec fn keep(s: Walk, c: Candidate, ef: nat) -> Walk {
    if s.kept.len() < ef || F32::less(s.kept.last().similarity, c.similarity) {
        let grown = ranking(s.kept.push(c));
        Walk {
            visited: s.visited,
            frontier: ranking(s.frontier.push(c)),
            kept: if grown.len() > ef {
                grown.drop_last()
            } else {
                grown
            },
        }
    } else {
        s
    }
}

/// Sees a node, if it has not been seen before.
pub open spec fn visit(s: Walk, g: Graph, query: Seq<F32>, ef: nat, node: usize) -> Walk {
    if node >= s.visited.len() || s.visited[node as int] {
        s
    } else {
        keep(
            Walk { visited: s.visited.update(node as int, true), ..s },
            g.candidate(query, node),
            ef,
        )
    }
}

/// Sees the nodes of a list, in order.
pub open spec fn visit_all(s: Walk, g: Graph, query: Seq<F32>, ef: nat, nodes: Seq<usize>) -> Walk
    decreases nodes.len(),
{
    if nodes.len() == 0 {
        s
    } else {
        visit(visit_all(s, g, query, ef, nodes.drop_last()), g, query, ef, nodes.last())
    }
}

/// A walk ends when nothing is left to expand, or when `ef` nodes are kept and
/// all of them are closer than what is left.
pub open spec fn finished(s: Walk, ef: nat) -> bool {
    s.frontier.len() == 0 || (s.kept.len() >= ef && F32::less(
        s.frontier[0].similarity,
        s.kept.last().similarity,
    ))
}

/// Expands the closest queued node: sees all that it links to.
pub open spec fn expand(s: Walk, g: Graph, query: Seq<F32>, ef: nat) -> Walk {
    visit_all(
        Walk { frontier: s.frontier.skip(1), ..s },
        g,
        query,
        ef,
        g.neighbors[s.frontier[0].node as int],
    )
}

/// What a walk has kept when it ends.
pub open spec fn walk(s: Walk, g: Graph, query: Seq<F32>, ef: nat) -> Seq<Candidate>
    decreases steps_left(s),
{
    if finished(s, ef) {
        s.kept
    } else {
        proof {
            lemma_visit_all_steps(
                Walk { frontier: s.frontier.skip(1), ..s },
                g,
                query,
                ef,
                g.neighbors[s.frontier[0].node as int],
            );
        }
        walk(expand(s, g, query, ef), g, query, ef)
    }
}

/// A walk that has seen the entry only.
pub open spec fn walk_start(g: Graph, query: Seq<F32>, entry: usize) -> Walk {
    let c = g.candidate(query, entry);
    Walk {
        visited: Seq::new(g.vectors.len(), |i: int| i == entry),
        frontier: seq![c],
        kept: seq![c],
    }
}

/// What a greedy best-first walk from the entry finds: up to `ef` nodes, the
/// closest first.
pub open spec fn explore(g: Graph, query: Seq<F32>, ef: nat) -> Seq<Candidate> {
    match g.entry {
        None => Seq::empty(),
        Some(entry) => walk(
            walk_start(g, query, entry),
            g,
            query,
            if ef < 1 {
                1
            } else {
                ef
            },
        ),
    }
}

pub proof fn lemma_unvisited_update(visited: Seq<bool>, i: int)
    requires
        0 <= i < visited.len(),
        !visited[i],
    ensures
        unvisited(visited.update(i, true)) + 1 == unvisited(visited),
    decreases visited.len(),
{
    let next = visited.update(i, true);
    if i == visited.len() - 1 {
        assert(next.drop_last() =~= visited.drop_last());
    } else {
        lemma_unvisited_update(visited.drop_last(), i);
        assert(next.drop_last() =~= visited.drop_last().update(i, true));
    }
}

pub proof fn lemma_visit_all_steps(s: Walk, g: Graph, query: Seq<F32>, ef: nat, nodes: Seq<usize>)
    ensures
        steps_left(visit_all(s, g, query, ef, nodes)) <= steps_left(s),
    decreases nodes.len(),
{
    if nodes.len() > 0 {
        let before = visit_all(s, g, query, ef, nodes.drop_last());
        lemma_visit_all_steps(s, g, query, ef, nodes.drop_last());
        let node = nodes.last();
        if node < before.visited.len() && !before.visited[node as int] {
            lemma_unvisited_update(before.visited, node as int);
            lemma_ranking(before.frontier.push(g.candidate(query, node)));
        }
    }
}

/// The candidates are seen nodes with their own similarity, best first.
pub open spec fn proper(
    list: Seq<Candidate>,
    visited: Seq<bool>,
    g: Graph,
    query: Seq<F32>,
) -> bool {
    &&& ranked(list)
    &&& forall|i: int|
        #![trigger list[i]]
        0 <= i < list.len() ==> list[i].node < visited.len() && visited[list[i].node as int]
            && list[i] == g.candidate(query, list[i].node)
}

/// No node occurs twice.
pub open spec fn distinct_nodes(list: Seq<Candidate>) -> bool {
    forall|i: int, j: int|
        0 <= i < j < list.len() ==> (#[trigger] list[i]).node != (#[trigger] list[j]).node
}

/// What holds of a walk at every step.
pub open spec fn walk_sound(s: Walk, g: Graph, query: Seq<F32>, ef: nat) -> bool {
    &&& s.visited.len() == g.vectors.len()
    &&& proper(s.frontier, s.visited, g, query)
    &&& proper(s.kept, s.visited, g, query)
    &&& distinct_nodes(s.kept)
    &&& 1 <= s.kept.len() <= ef
}

/// Ranking one more candidate among others keeps them proper.
pub proof fn lemma_rank_proper(
    list: Seq<Candidate>,
    c: Candidate,
    visited: Seq<bool>,
    g: Graph,
    query: Seq<F32>,
)
    requires
        proper(list, visited, g, query),
        c.node < visited.len(),
        visited[c.node as int],
        c == g.candidate(query, c.node),
    ensures
        proper(ranking(list.push(c)), visited, g, query),
        ranking(list.push(c)).len() == list.len() + 1,
        forall|x: Candidate| #[trigger]
            ranking(list.push(c)).contains(x) <==> list.contains(x) || x == c,
{
    broadcast use vstd::seq_lib::group_to_multiset_ensures;

    let grown = list.push(c);
    let r = ranking(grown);
    lemma_ranking(grown);
    assert forall|x: Candidate| #[trigger] r.contains(x) <==> list.contains(x) || x == c by {
        assert(r.contains(x) <==> r.to_multiset().count(x) > 0);
        assert(grown.contains(x) <==> grown.to_multiset().count(x) > 0);
        if list.contains(x) {
            let k = choose|k: int| 0 <= k < list.len() && list[k] == x;
            assert(grown[k] == x);
        }
        if x == c {
            assert(grown[list.len() as int] == c);
        }
        if grown.contains(x) && x != c {
            let k = choose|k: int| 0 <= k < grown.len() && grown[k] == x;
            assert(list[k] == x);
        }
    }
    assert forall|i: int| 0 <= i < r.len() implies (#[trigger] r[i]).node < visited.len()
        && visited[r[i].node as int] && r[i] == g.candidate(query, r[i].node) by {
        assert(r.contains(r[i]));
        if r[i] != c {
            let k = choose|k: int| 0 <= k < list.len() && list[k] == r[i];
            assert(list[k] == r[i]);
        }
    }
}

/// Ranking a candidate of a new node keeps the nodes distinct.
proof fn lemma_rank_distinct(list: Seq<Candidate>, c: Candidate)
    requires
        distinct_nodes(list),
        forall|i: int| 0 <= i < list.len() ==> (#[trigger] list[i]).node != c.node,
    ensures
        distinct_nodes(ranking(list.push(c))),
{
    broadcast use vstd::seq_lib::group_to_multiset_ensures;

    let grown = list.push(c);
    let r = ranking(grown);
    lemma_ranking(grown);
    assert(grown.no_duplicates());
    grown.lemma_multiset_has_no_duplicates();
    r.lemma_multiset_has_no_duplicates_conv();
    assert forall|i: int, j: int| 0 <= i < j < r.len() implies (#[trigger] r[i]).node != (
    #[trigger] r[j]).node by {
        assert(r[i] != r[j]);
        assert(r.contains(r[i]) && r.contains(r[j]));
        assert(r.to_multiset().count(r[i]) > 0 && r.to_multiset().count(r[j]) > 0);
        assert(grown.contains(r[i]) && grown.contains(r[j]));
        let a = choose|a: int| 0 <= a < grown.len() && grown[a] == r[i];
        let b = choose|b: int| 0 <= b < grown.len() && grown[b] == r[j];
        assert(a != b);
        if a < list.len() && b < list.len() {
            assert(list[a].node != list[b].node);
        }
    }
}

pub proof fn lemma_visit_sound(s: Walk, g: Graph, query: Seq<F32>, ef: nat, node: usize)
    requires
        walk_sound(s, g, query, ef),
    ensures
        walk_sound(visit(s, g, query, ef, node), g, query, ef),
{
    if node < s.visited.len() && !s.visited[node as int] {
        let visited = s.visited.update(node as int, true);
        let c = g.candidate(query, node);
        assert(proper(s.frontier, visited, g, query));
        assert(proper(s.kept, visited, g, query));
        lemma_rank_proper(s.frontier, c, visited, g, query);
        lemma_rank_proper(s.kept, c, visited, g, query);
        assert forall|i: int| 0 <= i < s.kept.len() implies (#[trigger] s.kept[i]).node
            != c.node by {
            assert(s.visited[s.kept[i].node as int]);
        }
        lemma_rank_distinct(s.kept, c);
        let grown = ranking(s.kept.push(c));
        assert(proper(grown.drop_last(), visited, g, query));
    }
}

pub proof fn lemma_visit_all_sound(s: Walk, g: Graph, query: Seq<F32>, ef: nat, nodes: Seq<usize>)
    requires
        walk_sound(s, g, query, ef),
    ensures
        walk_sound(visit_all(s, g, query, ef, nodes), g, query, ef),
    decreases nodes.len(),
{
    if nodes.len() > 0 {
        lemma_visit_all_sound(s, g, query, ef, nodes.drop_last());
        lemma_visit_sound(
            visit_all(s, g, query, ef, nodes.drop_last()),
            g,
            query,
            ef,
            nodes.last(),
        );
    }
}

pub proof fn lemma_start_sound(g: Graph, query: Seq<F32>, entry: usize, ef: nat)
    requires
        entry < g.vectors.len(),
        ef >= 1,
    ensures
        walk_sound(walk_start(g, query, entry), g, query, ef),
{
}

proof fn lemma_walk_sound(s: Walk, g: Graph, query: Seq<F32>, ef: nat)
    requires
        walk_sound(s, g, query, ef),
    ensures
        1 <= walk(s, g, query, ef).len() <= ef,
        ranked(walk(s, g, query, ef)),
        distinct_nodes(walk(s, g, query, ef)),
        forall|i: int|
            #![trigger walk(s, g, query, ef)[i]]
            0 <= i < walk(s, g, query, ef).len() ==> walk(s, g, query, ef)[i].node
                < g.vectors.len() && walk(s, g, query, ef)[i] == g.candidate(
                query,
                walk(s, g, query, ef)[i].node,
            ),
    decreases steps_left(s),
{
    if !finished(s, ef) {
        let next = Walk { frontier: s.frontier.skip(1), ..s };
        let nodes = g.neighbors[s.frontier[0].node as int];
        lemma_visit_all_steps(next, g, query, ef, nodes);
        lemma_visit_all_sound(next, g, query, ef, nodes);
        lemma_walk_sound(expand(s, g, query, ef), g, query, ef);
    }
}

/// Whatever the graph, a walk finds at most `ef` nodes, no node twice, each with
/// its own similarity, the closest first; and it finds something where there is
/// anything.
pub proof fn lemma_explore_sound(g: Graph, query: Seq<F32>, ef: nat)
    requires
        g.valid(),
    ensures
        explore(g, query, ef).len() <= if ef < 1 {
            1
        } else {
            ef
        },
        g.vectors.len() > 0 ==> explore(g, query, ef).len() > 0,
        explore(g, query, ef).len() <= g.vectors.len(),
        ranked(explore(g, query, ef)),
        distinct_nodes(explore(g, query, ef)),
        forall|i: int|
            #![trigger explore(g, query, ef)[i]]
            0 <= i < explore(g, query, ef).len() ==> explore(g, query, ef)[i].node
                < g.vectors.len() && explore(g, query, ef)[i] == g.candidate(
                query,
                explore(g, query, ef)[i].node,
            ),
{
    if g.entry is Some {
        let e = if ef < 1 {
            1
        } else {
            ef
        };
        lemma_start_sound(g, query, g.entry->0, e);
        lemma_walk_sound(walk_start(g, query, g.entry->0), g, query, e);
        let found = explore(g, query, ef);
        let nodes = found.map_values(|c: Candidate| c.node as int);
        assert(nodes.no_duplicates());
        nodes.unique_seq_to_set();
        let all = vstd::set_lib::set_int_range(0, g.vectors.len() as int);
        vstd::set_lib::lemma_int_range(0, g.vectors.len() as int);
        assert(nodes.to_set().subset_of(all));
        vstd::set_lib::lemma_len_subset(nodes.to_set(), all);
    }
}

/// `path` follows links from `from` to `to`.
pub open spec fn is_path(g: Graph, path: Seq<usize>, from: usize, to: usize) -> bool {
    &&& path.len() > 0
    &&& path[0] == from
    &&& path.last() == to
    &&& forall|i: int|
        0 <= i < path.len() - 1 ==> (#[trigger] path[i]) < g.neighbors.len()
            && g.neighbors[path[i] as int].contains(path[i + 1])
}

/// Links lead from `from` to `to`.
pub open spec fn reachable(g: Graph, from: usize, to: usize) -> bool {
    exists|path: Seq<usize>| is_path(g, path, from, to)
}

/// The node is among the candidates.
pub open spec fn holds_node(list: Seq<Candidate>, node: int) -> bool {
    exists|i: int| 0 <= i < list.len() && (#[trigger] list[i]).node == node
}

/// All the nodes of a list have been seen.
pub open spec fn all_visited(visited: Seq<bool>, nodes: Seq<usize>) -> bool {
    forall|i: int| 0 <= i < nodes.len() ==> visited[#[trigger] nodes[i] as int]
}

/// What holds of a walk that never has to drop a node: what it has seen it has
/// kept, can be reached, and is either queued or expanded. The node `pending`
/// is just being expanded.
spec fn thorough(s: Walk, g: Graph, entry: usize, pending: int) -> bool {
    &&& s.visited[entry as int]
    &&& forall|n: int|
        #![trigger s.visited[n]]
        0 <= n < s.visited.len() && s.visited[n] ==> {
            &&& holds_node(s.kept, n)
            &&& reachable(g, entry, n as usize)
            &&& n == pending || holds_node(s.frontier, n) || all_visited(s.visited, g.neighbors[n])
        }
}

proof fn lemma_reachable_step(g: Graph, entry: usize, from: usize, to: usize)
    requires
        reachable(g, entry, from),
        from < g.neighbors.len(),
        g.neighbors[from as int].contains(to),
    ensures
        reachable(g, entry, to),
{
    let path = choose|path: Seq<usize>| is_path(g, path, entry, from);
    let longer = path.push(to);
    assert forall|i: int| 0 <= i < longer.len() - 1 implies (#[trigger] longer[i])
        < g.neighbors.len() && g.neighbors[longer[i] as int].contains(longer[i + 1]) by {
        if i < path.len() - 1 {
            assert(longer[i] == path[i] && longer[i + 1] == path[i + 1]);
        }
    }
    assert(is_path(g, longer, entry, to));
}

/// Distinct nodes below `n` are at most `n`; as many as `n` are all of them, and
/// those that leave out a node are fewer.
pub proof fn lemma_count_nodes(list: Seq<Candidate>, n: nat, out: int)
    requires
        distinct_nodes(list),
        forall|i: int| 0 <= i < list.len() ==> (#[trigger] list[i]).node < n,
        0 <= out < n,
    ensures
        list.len() <= n,
        !holds_node(list, out) ==> list.len() < n,
{
    let nodes = list.map_values(|c: Candidate| c.node as int);
    assert(nodes.no_duplicates());
    nodes.unique_seq_to_set();
    let all = vstd::set_lib::set_int_range(0, n as int);
    vstd::set_lib::lemma_int_range(0, n as int);
    assert(nodes.to_set().subset_of(all));
    vstd::set_lib::lemma_len_subset(nodes.to_set(), all);
    if !holds_node(list, out) {
        assert(!nodes.contains(out)) by {
            if nodes.contains(out) {
                let i = choose|i: int| 0 <= i < nodes.len() && nodes[i] == out;
                assert(list[i].node == out);
            }
        }
        assert(nodes.to_set().subset_of(all.remove(out)));
        vstd::set_lib::lemma_len_subset(nodes.to_set(), all.remove(out));
    }
}

pub proof fn lemma_holds_after_rank(list: Seq<Candidate>, c: Candidate, n: int)
    ensures
        holds_node(ranking(list.push(c)), n) <==> holds_node(list, n) || c.node == n,
{
    broadcast use vstd::seq_lib::group_to_multiset_ensures;

    let grown = list.push(c);
    let r = ranking(grown);
    lemma_ranking(grown);
    if holds_node(r, n) {
        let i = choose|i: int| 0 <= i < r.len() && (#[trigger] r[i]).node == n;
        assert(r.contains(r[i]));
        assert(r.to_multiset().count(r[i]) > 0);
        assert(grown.contains(r[i]));
        let k = choose|k: int| 0 <= k < grown.len() && grown[k] == r[i];
        if k < list.len() {
            assert(list[k].node == n);
        }
    }
    if holds_node(list, n) || c.node == n {
        let k = if holds_node(list, n) {
            choose|k: int| 0 <= k < list.len() && (#[trigger] list[k]).node == n
        } else {
            list.len() as int
        };
        assert(grown[k].node == n);
        assert(grown.contains(grown[k]));
        assert(grown.to_multiset().count(grown[k]) > 0);
        assert(r.contains(grown[k]));
        let i = choose|i: int| 0 <= i < r.len() && r[i] == grown[k];
        assert(r[i].node == n);
    }
}

proof fn lemma_visit_thorough(
    s: Walk,
    g: Graph,
    query: Seq<F32>,
    ef: nat,
    node: usize,
    entry: usize,
    pending: int,
)
    requires
        g.valid(),
        ef >= g.vectors.len(),
        walk_sound(s, g, query, ef),
        thorough(s, g, entry, pending),
        entry < g.vectors.len(),
        node < g.vectors.len(),
        reachable(g, entry, node),
    ensures
        thorough(visit(s, g, query, ef, node), g, entry, pending),
        visit(s, g, query, ef, node).visited[node as int],
        forall|n: int|
            0 <= n < s.visited.len() && s.visited[n] ==> #[trigger] visit(
                s,
                g,
                query,
                ef,
                node,
            ).visited[n],
{
    if !s.visited[node as int] {
        let c = g.candidate(query, node);
        let t = visit(s, g, query, ef, node);
        assert(!holds_node(s.kept, node as int)) by {
            if holds_node(s.kept, node as int) {
                let i = choose|i: int|
                    0 <= i < s.kept.len() && (#[trigger] s.kept[i]).node == node;
                assert(s.visited[s.kept[i].node as int]);
            }
        }
        lemma_count_nodes(s.kept, g.vectors.len(), node as int);
        lemma_ranking(s.kept.push(c));
        assert(t.kept == ranking(s.kept.push(c)));
        assert(t.frontier == ranking(s.frontier.push(c)));
        assert forall|n: int|
            #![trigger t.visited[n]]
            0 <= n < t.visited.len() && t.visited[n] implies {
            &&& holds_node(t.kept, n)
            &&& reachable(g, entry, n as usize)
            &&& n == pending || holds_node(t.frontier, n) || all_visited(t.visited, g.neighbors[n])
        } by {
            lemma_holds_after_rank(s.kept, c, n);
            lemma_holds_after_rank(s.frontier, c, n);
            if n != node {
                assert(s.visited[n]);
                if all_visited(s.visited, g.neighbors[n]) {
                    assert(below(g.neighbors[n], g.vectors.len()));
                    assert(all_visited(t.visited, g.neighbors[n]));
                }
            }
        }
    }
}

proof fn lemma_visit_all_thorough(
    s: Walk,
    g: Graph,
    query: Seq<F32>,
    ef: nat,
    nodes: Seq<usize>,
    entry: usize,
    pending: int,
)
    requires
        g.valid(),
        ef >= g.vectors.len(),
        walk_sound(s, g, query, ef),
        thorough(s, g, entry, pending),
        entry < g.vectors.len(),
        below(nodes, g.vectors.len()),
        forall|i: int| 0 <= i < nodes.len() ==> reachable(g, entry, #[trigger] nodes[i]),
    ensures
        thorough(visit_all(s, g, query, ef, nodes), g, entry, pending),
        all_visited(visit_all(s, g, query, ef, nodes).visited, nodes),
    decreases nodes.len(),
{
    if nodes.len() > 0 {
        let front = nodes.drop_last();
        assert forall|i: int| 0 <= i < front.len() implies reachable(
            g,
            entry,
            #[trigger] front[i],
        ) by {
            assert(front[i] == nodes[i]);
        }
        assert(below(front, g.vectors.len())) by {
            assert forall|i: int| 0 <= i < front.len() implies #[trigger] front[i]
                < g.vectors.len() by {
                assert(front[i] == nodes[i]);
            }
        }
        lemma_visit_all_thorough(s, g, query, ef, front, entry, pending);
        lemma_visit_all_sound(s, g, query, ef, front);
        let t = visit_all(s, g, query, ef, front);
        let last = nodes.last();
        assert(last == nodes[nodes.len() - 1]);
        lemma_visit_thorough(t, g, query, ef, last, entry, pending);
        let u = visit(t, g, query, ef, last);
        assert forall|i: int| 0 <= i < nodes.len() implies
            u.visited[#[trigger] nodes[i] as int] by {
            if i < front.len() {
                assert(front[i] == nodes[i]);
                assert(t.visited[front[i] as int]);
            }
        }
    }
}

/// What is closed under links and holds the entry holds all that can be
/// reached.
pub(crate) proof fn lemma_closed_path(
    g: Graph,
    visited: Seq<bool>,
    path: Seq<usize>,
    from: usize,
    to: usize,
)
    requires
        g.valid(),
        visited.len() == g.vectors.len(),
        is_path(g, path, from, to),
        from < visited.len(),
        visited[from as int],
        forall|n: int|
            #![trigger visited[n]]
            0 <= n < visited.len() && visited[n] ==> all_visited(visited, g.neighbors[n]),
    ensures
        to < visited.len(),
        visited[to as int],
    decreases path.len(),
{
    if path.len() > 1 {
        let front = path.drop_last();
        let prev = front.last();
        assert forall|i: int| 0 <= i < front.len() - 1 implies (#[trigger] front[i])
            < g.neighbors.len() && g.neighbors[front[i] as int].contains(front[i + 1]) by {
            assert(path[i] == front[i] && path[i + 1] == front[i + 1]);
        }
        assert(is_path(g, front, from, prev));
        lemma_closed_path(g, visited, front, from, prev);
        assert(path[path.len() - 2] == prev);
        assert(g.neighbors[prev as int].contains(to));
        let k = choose|k: int|
            0 <= k < g.neighbors[prev as int].len() && g.neighbors[prev as int][k] == to;
        assert(visited[prev as int]);
        assert(below(g.neighbors[prev as int], g.vectors.len()));
        assert(g.neighbors[prev as int][k] < g.vectors.len());
    }
}

proof fn lemma_walk_thorough(s: Walk, g: Graph, query: Seq<F32>, ef: nat, entry: usize, node: usize)
    requires
        g.valid(),
        ef >= g.vectors.len(),
        walk_sound(s, g, query, ef),
        thorough(s, g, entry, -1),
        entry < g.vectors.len(),
        node < g.vectors.len(),
    ensures
        holds_node(walk(s, g, query, ef), node as int) <==> reachable(g, entry, node),
    decreases steps_left(s),
{
    if finished(s, ef) {
        if holds_node(s.kept, node as int) {
            let i = choose|i: int| 0 <= i < s.kept.len() && (#[trigger] s.kept[i]).node == node;
            assert(s.visited[s.kept[i].node as int]);
        }
        if reachable(g, entry, node) {
            if s.frontier.len() == 0 {
                let path = choose|path: Seq<usize>| is_path(g, path, entry, node);
                lemma_closed_path(g, s.visited, path, entry, node);
            } else {
                lemma_count_nodes(s.kept, g.vectors.len(), node as int);
            }
        }
    } else {
        let current = s.frontier[0].node;
        let next = Walk { frontier: s.frontier.skip(1), ..s };
        let nodes = g.neighbors[current as int];
        assert(s.visited[current as int]);
        assert(thorough(next, g, entry, current as int)) by {
            assert forall|n: int|
                #![trigger next.visited[n]]
                0 <= n < next.visited.len() && next.visited[n] implies {
                &&& holds_node(next.kept, n)
                &&& reachable(g, entry, n as usize)
                &&& n == current || holds_node(next.frontier, n) || all_visited(
                    next.visited,
                    g.neighbors[n],
                )
            } by {
                assert(s.visited[n]);
                if n != current && holds_node(s.frontier, n) {
                    let i = choose|i: int|
                        0 <= i < s.frontier.len() && (#[trigger] s.frontier[i]).node == n;
                    assert(next.frontier[i - 1].node == n);
                }
            }
        }
        assert(below(nodes, g.vectors.len()));
        assert forall|i: int| 0 <= i < nodes.len() implies reachable(
            g,
            entry,
            #[trigger] nodes[i],
        ) by {
            assert(nodes.contains(nodes[i]));
            lemma_reachable_step(g, entry, current, nodes[i]);
        }
        lemma_visit_all_thorough(next, g, query, ef, nodes, entry, current as int);
        lemma_visit_all_sound(next, g, query, ef, nodes);
        lemma_visit_all_steps(next, g, query, ef, nodes);
        let t = expand(s, g, query, ef);
        assert(thorough(t, g, entry, -1)) by {
            assert forall|n: int|
                #![trigger t.visited[n]]
                0 <= n < t.visited.len() && t.visited[n] implies {
                &&& holds_node(t.kept, n)
                &&& reachable(g, entry, n as usize)
                &&& holds_node(t.frontier, n) || all_visited(t.visited, g.neighbors[n])
            } by {}
        }
        lemma_walk_thorough(t, g, query, ef, entry, node);
    }
}

/// A walk that may keep as many nodes as there are finds exactly the nodes that
/// links lead to from the entry: on a connected graph it misses nothing.
pub proof fn lemma_explore_exhaustive(g: Graph, query: Seq<F32>, ef: nat, node: usize)
    requires
        g.valid(),
        ef >= g.vectors.len(),
        node < g.vectors.len(),
    ensures
        g.entry matches Some(entry) && (holds_node(explore(g, query, ef), node as int)
            <==> reachable(g, entry, node)),
{
    let entry = g.entry->0;
    let s = walk_start(g, query, entry);
    lemma_start_sound(g, query, entry, ef);
    assert(is_path(g, seq![entry], entry, entry));
    assert(s.frontier[0].node == entry && s.kept[0].node == entry);
    assert(thorough(s, g, entry, -1));
    lemma_walk_thorough(s, g, query, ef, entry, node);
}

/// A walk that may keep as many nodes as there are is exact on a connected
/// graph: among its `k` first nodes, or at most as close as every one of them,
/// is each node of the graph.
pub proof fn lemma_explore_exact(g: Graph, query: Seq<F32>, ef: nat, k: int, node: usize, i: int)
    requires
        g.valid(),
        ef >= g.vectors.len(),
        node < g.vectors.len(),
        g.entry matches Some(entry) && reachable(g, entry, node),
        0 <= i < k <= explore(g, query, ef).len(),
    ensures
        holds_node(explore(g, query, ef).take(k), node as int) || explore(
            g,
            query,
            ef,
        )[i].similarity.total_rank() >= g.candidate(query, node).similarity.total_rank(),
{
    lemma_explore_sound(g, query, ef);
    lemma_explore_exhaustive(g, query, ef, node);
    let found = explore(g, query, ef);
    let j = choose|j: int| 0 <= j < found.len() && (#[trigger] found[j]).node == node;
    if j < k {
        assert(found.take(k)[j].node == node);
    } else {
        assert(Candidate::ahead(found[i], found[j]));
    }
}

} // verus!
