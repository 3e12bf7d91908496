//! Which records a search gives: the best of those that hold what is asked for.

use crate::consistency::{consistent, fits_memory, lemma_compact, record_fits};
use crate::db::{effort, fetch_size, indexed_hits, live, rebuilt, searched, DbView, IndexKind};
use crate::distance::similarity;
use crate::error::VectorDbError;
use crate::exactness::{
    distinct_ids, distinct_records, lemma_deletions_do_not_shrink, lemma_exact_hits_sound,
    lemma_filter_hits, lemma_filter_no_duplicates, lemma_listed_distinct, lemma_nearest_sound,
    lemma_no_filter, lemma_overfetch, lemma_ranking_distinct, lemma_ranking_members,
    lemma_search_exact, lemma_search_sound, lemma_top_levels,
};
use crate::float::{lemma_total_rank_injective, F32};
use crate::index::complete::lemma_all_held;
use crate::index::graph::{
    explore, holds_node, lemma_explore_exhaustive, lemma_explore_sound, reachable, Candidate,
};
use crate::index::greedy::lemma_walk_settles;
use crate::index::hnsw::{at_least, hits_of, AnnParams};
use crate::index::model::IndexModel;
use crate::index::{is_scored_entry, scores};
use crate::query::{exact_hits, lemma_placed_ranking, matching, placed, Placed};
use crate::ranking::{first, lemma_ranking, ranking, Ranked};
use crate::record::{
    all_finite, check_vector, keys_ascending, lemma_accepts, lemma_match_is_membership,
    lemma_pairs_found, RecordView,
};
use crate::records::{in_order, lemma_in_order, listed};
use crate::storage::format::lemma_listed;
use vstd::prelude::*;

verus! {

/// An exact search of a list gives records of the list with their own scores, no
/// more than asked for. Each holds every pair of the filter, that value under
/// that key. The higher score comes first, and the lower id among equal scores. A
/// record of the list that holds every pair is among the hits, unless there are
/// as many as asked for and all of them come before it; one that lacks a pair
/// never is.
pub proof fn lemma_best_of_list(
    list: Seq<RecordView>,
    query: Seq<F32>,
    limit: nat,
    filter: Seq<(Seq<char>, Seq<char>)>,
    r: RecordView,
)
    requires
        list.len() <= usize::MAX,
        distinct_records(list),
    ensures
        ({
            let hits = exact_hits(list, query, limit, filter);
            let score = similarity(query, r.vector);
            let listed = exists|i: int| 0 <= i < hits.len() && (#[trigger] hits[i]).1 == r;
            &&& hits.len() <= limit
            &&& forall|i: int|
                0 <= i < hits.len() ==> list.contains((#[trigger] hits[i]).1) && hits[i].0
                    == similarity(query, hits[i].1.vector)
            &&& forall|i: int, f: int|
                0 <= i < hits.len() && 0 <= f < filter.len() ==> (
                #[trigger] hits[i]).1.metadata.contains(#[trigger] filter[f])
            &&& forall|i: int, j: int|
                0 <= i < j < hits.len() ==> {
                    let (a, b) = ((#[trigger] hits[i]), (#[trigger] hits[j]));
                    &&& a.1.id != b.1.id
                    &&& a.0.total_rank() > b.0.total_rank() || (a.0.total_rank()
                        == b.0.total_rank() && a.1.id < b.1.id)
                }
            &&& list.contains(r) && (keys_ascending(r.metadata) || filter.len() == 0) && !listed
                && (forall|f: int|
                0 <= f < filter.len() ==> r.metadata.contains(#[trigger] filter[f])) ==> {
                &&& hits.len() == limit
                &&& forall|i: int|
                    0 <= i < hits.len() ==> (#[trigger] hits[i]).0.total_rank()
                        > score.total_rank() || (hits[i].0.total_rank() == score.total_rank()
                        && hits[i].1.id < r.id)
            }
            &&& listed ==> forall|f: int|
                0 <= f < filter.len() ==> r.metadata.contains(#[trigger] filter[f])
        }),
{
    let keep = matching(filter);
    let chosen = list.filter(keep);
    let few = placed(chosen, query);
    let order = ranking(few);
    let hits = exact_hits(list, query, limit, filter);
    let score = similarity(query, r.vector);
    list.lemma_filter_len(keep);
    lemma_placed_ranking(chosen, query);
    lemma_ranking(few);
    assert(few.no_duplicates()) by {
        assert forall|i: int, j: int|
            0 <= i < few.len() && 0 <= j < few.len() && i != j implies few[i] != few[j] by {
            assert(few[i].place == i && few[j].place == j);
        }
    }
    lemma_ranking_distinct(few);
    assert(list.no_duplicates());
    lemma_filter_no_duplicates(list, keep);
    assert forall|i: int| 0 <= i < chosen.len() implies list.contains(#[trigger] chosen[i])
        && keep(chosen[i]) by {
        assert(chosen.contains(chosen[i]));
        list.lemma_filter_contains_rev(keep, chosen[i]);
        list.lemma_filter_pred(keep, i);
    }
    assert forall|i: int, j: int| 0 <= i < chosen.len() && 0 <= j < chosen.len() && i != j implies (
    #[trigger] chosen[i]).id != (#[trigger] chosen[j]).id by {
        assert(chosen[i] != chosen[j]);
        let a = choose|a: int| 0 <= a < list.len() && list[a] == chosen[i];
        let b = choose|b: int| 0 <= b < list.len() && list[b] == chosen[j];
        assert(list.contains(chosen[i]) && list.contains(chosen[j]));
        if a < b {
            assert(list[a].id != list[b].id);
        } else if b < a {
            assert(list[b].id != list[a].id);
        }
    }
    assert forall|i: int| 0 <= i < hits.len() implies (#[trigger] hits[i]).1
        == chosen[order[i].place as int] && hits[i].0 == order[i].score && order[i]
        == few[order[i].place as int] && order[i].place < chosen.len() by {
        assert(order[i] == few[order[i].place as int]);
    }
    assert forall|i: int, f: int| 0 <= i < hits.len() && 0 <= f < filter.len() implies (
    #[trigger] hits[i]).1.metadata.contains(#[trigger] filter[f]) by {
        let c = chosen[order[i].place as int];
        assert(keep(c));
        lemma_pairs_found(c.metadata, filter, f);
    }
    assert forall|i: int, j: int| 0 <= i < j < hits.len() implies {
        let (a, b) = ((#[trigger] hits[i]), (#[trigger] hits[j]));
        &&& a.1.id != b.1.id
        &&& a.0.total_rank() > b.0.total_rank() || (a.0.total_rank() == b.0.total_rank() && a.1.id
            < b.1.id)
    } by {
        assert(Placed::ahead(order[i], order[j]));
        assert(order[i] != order[j]);
        assert(chosen[order[i].place as int].id != chosen[order[j].place as int].id);
    }
    let listed = exists|i: int| 0 <= i < hits.len() && (#[trigger] hits[i]).1 == r;
    if list.contains(r) && (keys_ascending(r.metadata) || filter.len() == 0) && !listed && (forall|
        f: int,
    |
        0 <= f < filter.len() ==> r.metadata.contains(#[trigger] filter[f])) {
        if filter.len() > 0 {
            lemma_match_is_membership(r.metadata, filter);
        }
        assert(keep(r));
        let a = choose|a: int| 0 <= a < list.len() && list[a] == r;
        list.lemma_filter_contains(keep, a);
        let k = choose|k: int| 0 <= k < chosen.len() && chosen[k] == r;
        assert(few.contains(few[k]));
        lemma_ranking_members(few, few[k]);
        let j = choose|j: int| 0 <= j < order.len() && order[j] == few[k];
        if j < hits.len() {
            assert(hits[j].1 == r);
        }
        assert forall|i: int| 0 <= i < hits.len() implies (#[trigger] hits[i]).0.total_rank()
            > score.total_rank() || (hits[i].0.total_rank() == score.total_rank() && hits[i].1.id
            < r.id) by {
            assert(Placed::ahead(order[i], order[j]));
            assert(hits[i].1 != r);
            assert(chosen[order[i].place as int].id != chosen[k].id);
        }
    }
    if listed {
        let i = choose|i: int| 0 <= i < hits.len() && (#[trigger] hits[i]).1 == r;
        assert forall|f: int| 0 <= f < filter.len() implies r.metadata.contains(
            #[trigger] filter[f],
        ) by {
            assert(hits[i].1.metadata.contains(filter[f]));
        }
    }
}

/// The hits are the best of the records: as many as there are up to the limit,
/// none twice, each with its own score, the scores never rising, and no record
/// that is left out scores higher than one that is given.
pub open spec fn top_hits(
    records: Map<u64, RecordView>,
    query: Seq<F32>,
    limit: nat,
    hits: Seq<(F32, RecordView)>,
) -> bool {
    &&& hits.len() == if limit < records.len() {
        limit
    } else {
        records.len()
    }
    &&& forall|i: int|
        0 <= i < hits.len() ==> {
            let r = (#[trigger] hits[i]).1;
            records.dom().contains(r.id) && records[r.id] == r && hits[i].0 == similarity(
                query,
                r.vector,
            )
        }
    &&& forall|i: int, j: int|
        0 <= i < j < hits.len() ==> (#[trigger] hits[i]).1.id != (#[trigger] hits[j]).1.id
            && hits[i].0.total_rank() >= hits[j].0.total_rank()
    &&& forall|id: u64, k: int|
        #![trigger records[id], hits[k]]
        records.dom().contains(id) && 0 <= k < hits.len() && (forall|i: int|
            0 <= i < hits.len() ==> (#[trigger] hits[i]).1.id != id) ==> similarity(
            query,
            records[id].vector,
        ).total_rank() <= hits[k].0.total_rank()
}

/// The place of the score of a record; below every score where there is none.
spec fn score_rank(records: Map<u64, RecordView>, query: Seq<F32>) -> spec_fn(int) -> int {
    |x: int|
        if 0 <= x <= u64::MAX && records.dom().contains(x as u64) {
            similarity(query, records[x as u64].vector).total_rank()
        } else {
            -0x1_0000_0000
        }
}

spec fn ids_of(hits: Seq<(F32, RecordView)>) -> Seq<int> {
    Seq::new(hits.len(), |i: int| hits[i].1.id as int)
}

proof fn lemma_top_ids(
    records: Map<u64, RecordView>,
    query: Seq<F32>,
    limit: nat,
    hits: Seq<(F32, RecordView)>,
)
    requires
        top_hits(records, query, limit, hits),
    ensures
        ({
            let a = ids_of(hits);
            let f = score_rank(records, query);
            &&& a.no_duplicates()
            &&& forall|j: int| 0 <= j < a.len() ==> 0 <= #[trigger] a[j] < 0x1_0000_0000_0000_0000
            &&& forall|j: int, k: int|
                0 <= j <= k < a.len() ==> f(#[trigger] a[j]) >= f(#[trigger] a[k])
            &&& forall|x: int, k: int|
                #![trigger f(x), a[k]]
                0 <= x < 0x1_0000_0000_0000_0000 && !a.contains(x) && 0 <= k < a.len() ==> f(x)
                    <= f(a[k])
            &&& forall|j: int| 0 <= j < a.len() ==> f(#[trigger] a[j]) == hits[j].0.total_rank()
        }),
{
    let a = ids_of(hits);
    let f = score_rank(records, query);
    assert forall|j: int| 0 <= j < a.len() implies f(#[trigger] a[j])
        == hits[j].0.total_rank() by {
        let r = hits[j].1;
        assert(a[j] == r.id && a[j] as u64 == r.id);
    }
    assert forall|j: int, k: int| 0 <= j <= k < a.len() implies f(#[trigger] a[j]) >= f(
        #[trigger] a[k],
    ) by {
        if j < k {
            assert(hits[j].0.total_rank() >= hits[k].0.total_rank());
        }
    }
    assert(a.no_duplicates()) by {
        assert forall|i: int, j: int| 0 <= i < a.len() && 0 <= j < a.len() && i != j implies a[i]
            != a[j] by {
            if i < j {
                assert(hits[i].1.id != hits[j].1.id);
            } else {
                assert(hits[j].1.id != hits[i].1.id);
            }
        }
    }
    assert forall|x: int, k: int|
        #![trigger f(x), a[k]]
        0 <= x < 0x1_0000_0000_0000_0000 && !a.contains(x) && 0 <= k < a.len() implies f(x) <= f(
        a[k],
    ) by {
        let id = x as u64;
        if records.dom().contains(id) {
            assert forall|i: int| 0 <= i < hits.len() implies (#[trigger] hits[i]).1.id != id by {
                assert(a[i] == hits[i].1.id);
            }
            let _ = records[id];
            let _ = hits[k];
        }
    }
}

/// The best of the same records have the same scores, in the same order.
pub proof fn lemma_top_scores(
    records: Map<u64, RecordView>,
    query: Seq<F32>,
    limit: nat,
    x: Seq<(F32, RecordView)>,
    y: Seq<(F32, RecordView)>,
    i: int,
)
    requires
        top_hits(records, query, limit, x),
        top_hits(records, query, limit, y),
        0 <= i < x.len(),
    ensures
        x.len() == y.len(),
        x[i].0 == y[i].0,
{
    let (a, b) = (ids_of(x), ids_of(y));
    let f = score_rank(records, query);
    let n: int = 0x1_0000_0000_0000_0000;
    lemma_top_ids(records, query, limit, x);
    lemma_top_ids(records, query, limit, y);
    lemma_top_levels(f, n, a, b, i);
    lemma_top_levels(f, n, b, a, i);
    assert(f(a[i]) == x[i].0.total_rank() && f(b[i]) == y[i].0.total_rank());
    lemma_total_rank_injective(x[i].0, y[i].0);
}

/// A search that is exact gives the best of the records.
proof fn lemma_exact_top(s: DbView, query: Seq<F32>, limit: nat)
    requires
        consistent(s),
        fits_memory(s),
    ensures
        top_hits(
            s.records,
            query,
            limit,
            exact_hits(listed(s.records), query, limit, Seq::empty()),
        ),
{
    let none = Seq::<(Seq<char>, Seq<char>)>::empty();
    let list = listed(s.records);
    let ids = in_order(s.records.dom());
    let hits = exact_hits(list, query, limit, none);
    lemma_listed_distinct(s);
    lemma_listed(s.records);
    lemma_in_order(s.records.dom());
    lemma_exact_hits_sound(list, query, limit, none);
    lemma_no_filter(list, none);
    assert forall|i: int| 0 <= i < hits.len() implies {
        let r = (#[trigger] hits[i]).1;
        s.records.dom().contains(r.id) && s.records[r.id] == r && hits[i].0 == similarity(
            query,
            r.vector,
        )
    } by {
        let r = hits[i].1;
        assert(list.contains(r));
        let k = choose|k: int| 0 <= k < list.len() && list[k] == r;
        assert(s.records.dom().contains(ids[k]));
        assert(record_fits(s, ids[k]));
    }
    assert forall|i: int, j: int| 0 <= i < j < hits.len() implies (#[trigger] hits[i]).1.id != (
    #[trigger] hits[j]).1.id && hits[i].0.total_rank() >= hits[j].0.total_rank() by {
        lemma_best_of_list(list, query, limit, none, hits[i].1);
    }
    assert forall|id: u64, k: int|
        #![trigger s.records[id], hits[k]]
        s.records.dom().contains(id) && 0 <= k < hits.len() && (forall|i: int|
            0 <= i < hits.len() ==> (#[trigger] hits[i]).1.id != id) implies similarity(
        query,
        s.records[id].vector,
    ).total_rank() <= hits[k].0.total_rank() by {
        let r = s.records[id];
        assert(record_fits(s, id));
        assert(ids.to_set().contains(id));
        let n = choose|n: int| 0 <= n < ids.len() && ids[n] == id;
        assert(list[n] == r);
        lemma_best_of_list(list, query, limit, none, r);
        assert forall|i: int| 0 <= i < hits.len() implies (#[trigger] hits[i]).1 != r by {
            assert(hits[i].1.id != id);
        }
    }
}

/// A walk that may keep as many nodes as there are, over a graph whose nodes can
/// all be reached, finds each entry once, with its own score, the best first.
proof fn lemma_wide_walk(m: IndexModel, query: Seq<F32>, ef: nat)
    requires
        m.graph().valid(),
        m.ids().no_duplicates(),
        ef >= m.entries.len(),
        m.entries.len() <= usize::MAX,
        forall|node: usize|
            node < m.entries.len() ==> #[trigger] reachable(m.graph(), m.entry->0, node),
    ensures
        ({
            let hits = hits_of(m.entries, explore(m.graph(), query, ef));
            &&& hits.len() == m.entries.len()
            &&& distinct_ids(hits)
            &&& forall|i: int, j: int|
                0 <= i < j < hits.len() ==> (#[trigger] hits[i]).1.total_rank() >= (
                #[trigger] hits[j]).1.total_rank()
            &&& forall|i: int|
                0 <= i < hits.len() ==> is_scored_entry(m.entries, query, #[trigger] hits[i])
            &&& forall|e: int|
                0 <= e < m.entries.len() ==> hits.contains(
                    ((#[trigger] m.entries[e]).0, similarity(query, m.entries[e].1)),
                )
        }),
{
    let g = m.graph();
    let n = m.entries.len();
    let found = explore(g, query, ef);
    let hits = hits_of(m.entries, found);
    lemma_explore_sound(g, query, ef);
    assert forall|i: int| 0 <= i < hits.len() implies #[trigger] hits[i] == (
        m.entries[found[i].node as int].0,
        similarity(query, m.entries[found[i].node as int].1),
    ) && found[i].node < n by {
        assert(found[i] == g.candidate(query, found[i].node));
        assert(g.vectors[found[i].node as int] == m.entries[found[i].node as int].1);
    }
    assert forall|i: int| 0 <= i < hits.len() implies is_scored_entry(
        m.entries,
        query,
        #[trigger] hits[i],
    ) by {
        let e = found[i].node as int;
        assert(m.entries[e].0 == hits[i].0);
    }
    assert forall|i: int, j: int| 0 <= i < j < hits.len() implies (
    #[trigger] hits[i]).1.total_rank() >= (#[trigger] hits[j]).1.total_rank() && hits[i].0
        != hits[j].0 by {
        assert(Candidate::ahead(found[i], found[j]));
        assert(found[i].node != found[j].node);
        assert(m.ids()[found[i].node as int] != m.ids()[found[j].node as int]);
    }
    // Every node is found.
    let nodes = found.map_values(|c: Candidate| c.node as int);
    let all = vstd::set_lib::set_int_range(0, n as int);
    vstd::set_lib::lemma_int_range(0, n as int);
    assert forall|k: int| all.contains(k) implies nodes.to_set().contains(k) by {
        lemma_explore_exhaustive(g, query, ef, k as usize);
        assert(reachable(g, m.entry->0, k as usize));
        let i = choose|i: int| 0 <= i < found.len() && (#[trigger] found[i]).node == k;
        assert(nodes[i] == k);
    }
    assert(all.subset_of(nodes.to_set()));
    nodes.unique_seq_to_set();
    vstd::set_lib::lemma_len_subset(all, nodes.to_set());
    assert forall|e: int| 0 <= e < n implies hits.contains(
        ((#[trigger] m.entries[e]).0, similarity(query, m.entries[e].1)),
    ) by {
        assert(all.contains(e));
        assert(nodes.to_set().contains(e));
        let i = choose|i: int| 0 <= i < nodes.len() && nodes[i] == e;
        assert(found[i].node == e);
        assert(hits[i] == (m.entries[e].0, similarity(query, m.entries[e].1)));
    }
}

/// An approximate search whose effort is at least the number of vectors, over a
/// graph whose nodes can all be reached, gives the best of the entries: as many
/// as there are up to `k`, the scores never rising, and none that is left out
/// scores higher.
pub proof fn lemma_wide_nearest(m: IndexModel, query: Seq<F32>, k: nat, ef: nat, e: int, i: int)
    requires
        m.kind is Hnsw,
        m.graph().valid(),
        m.ids().no_duplicates(),
        ef >= m.entries.len(),
        m.entries.len() <= usize::MAX,
        forall|node: usize|
            node < m.entries.len() ==> #[trigger] reachable(m.graph(), m.entry->0, node),
    ensures
        ({
            let hits = m.nearest(query, k, ef);
            &&& hits.len() == if k < m.entries.len() {
                k
            } else {
                m.entries.len()
            }
            &&& forall|a: int, b: int|
                0 <= a < b < hits.len() ==> (#[trigger] hits[a]).0 != (#[trigger] hits[b]).0
                    && hits[a].1.total_rank() >= hits[b].1.total_rank()
            &&& forall|a: int|
                0 <= a < hits.len() ==> is_scored_entry(m.entries, query, #[trigger] hits[a])
            &&& 0 <= e < m.entries.len() && 0 <= i < hits.len() ==> hits.contains(
                (m.entries[e].0, similarity(query, m.entries[e].1)),
            ) || similarity(query, m.entries[e].1).total_rank() <= hits[i].1.total_rank()
        }),
{
    let width = at_least(ef, k);
    lemma_wide_walk(m, query, width);
    let all = hits_of(m.entries, explore(m.graph(), query, width));
    let hits = m.nearest(query, k, ef);
    assert(hits =~= first(all, k));
    assert forall|a: int, b: int| 0 <= a < b < hits.len() implies (#[trigger] hits[a]).0 != (
    #[trigger] hits[b]).0 && hits[a].1.total_rank() >= hits[b].1.total_rank() by {
        assert(all[a].0 != all[b].0);
    }
    assert forall|a: int| 0 <= a < hits.len() implies is_scored_entry(
        m.entries,
        query,
        #[trigger] hits[a],
    ) by {
        assert(hits[a] == all[a]);
    }
    if 0 <= e < m.entries.len() && 0 <= i < hits.len() {
        let h = (m.entries[e].0, similarity(query, m.entries[e].1));
        assert(all.contains(h));
        let j = choose|j: int| 0 <= j < all.len() && all[j] == h;
        if j < hits.len() {
            assert(hits[j] == h);
        } else {
            assert(all[i].1.total_rank() >= all[j].1.total_rank());
        }
    }
}

proof fn lemma_kept_count(records: Map<u64, RecordView>, kept: Seq<(u64, F32)>)
    requires
        records.dom().finite(),
        distinct_ids(kept),
        forall|i: int| 0 <= i < kept.len() ==> records.dom().contains((#[trigger] kept[i]).0),
        forall|id: u64| #[trigger]
            records.dom().contains(id) ==> exists|i: int|
                0 <= i < kept.len() && (#[trigger] kept[i]).0 == id,
    ensures
        kept.len() == records.len(),
{
    let ids = kept.map_values(|h: (u64, F32)| h.0);
    assert(ids.no_duplicates()) by {
        assert forall|i: int, j: int|
            0 <= i < ids.len() && 0 <= j < ids.len() && i != j implies ids[i] != ids[j] by {
            if i < j {
                assert(kept[i].0 != kept[j].0);
            } else {
                assert(kept[j].0 != kept[i].0);
            }
        }
    }
    assert forall|id: u64| records.dom().contains(id) implies ids.to_set().contains(id) by {
        let i = choose|i: int| 0 <= i < kept.len() && (#[trigger] kept[i]).0 == id;
        assert(ids[i] == id);
    }
    assert forall|id: u64| ids.to_set().contains(id) implies records.dom().contains(id) by {
        let i = choose|i: int| 0 <= i < ids.len() && ids[i] == id;
        assert(kept[i].0 == id);
    }
    assert(ids.to_set() =~= records.dom());
    ids.unique_seq_to_set();
}

proof fn lemma_indexed_top(s: DbView, params: AnnParams, query: Seq<F32>, limit: nat)
    requires
        consistent(s),
        fits_memory(s),
        s.kind == IndexKind::Hnsw(params),
        params.ef_search >= s.index.entries.len(),
        forall|node: usize|
            node < s.index.entries.len() ==> #[trigger] reachable(
                s.index.graph(),
                s.index.entry->0,
                node,
            ),
        check_vector(s.dimension, query) is Ok,
    ensures
        searched(s, query, limit, Seq::empty()) matches Ok(hits) && top_hits(
            s.records,
            query,
            limit,
            hits,
        ),
{
    let none = Seq::<(Seq<char>, Seq<char>)>::empty();
    let hits = searched(s, query, limit, none)->Ok_0;
    if limit > 0 {
        let m = s.index;
        let keep = live(s.records);
        let fetch = fetch_size(limit, s.tombstones.len());
        let width = at_least(params.ef_search as nat, fetch);
        let all = hits_of(m.entries, explore(m.graph(), query, width));
        lemma_wide_walk(m, query, width);
        assert forall|i: int| 0 <= i < all.len() && !keep(#[trigger] all[i]) implies
            s.tombstones.contains(all[i].0) by {
            assert(is_scored_entry(m.entries, query, all[i]));
            let e = choose|e: int|
                0 <= e < m.entries.len() && #[trigger] m.entries[e].0 == all[i].0 && similarity(
                    query,
                    m.entries[e].1,
                ) == all[i].1;
            assert(m.ids()[e] == all[i].0);
            assert(m.ids().to_set().contains(m.ids()[e]));
        }
        lemma_overfetch(all, keep, limit, fetch, s.tombstones);
        lemma_filter_hits(all, keep);
        let kept = all.filter(keep);
        assert(m.nearest(query, fetch, params.ef_search as nat) =~= first(all, fetch));
        assert(hits =~= first(kept, limit).map_values(
            |hit: (u64, F32)| (hit.1, s.records[hit.0]),
        ));
        lemma_search_sound(s, query, limit);
        assert(hits == indexed_hits(s, query, limit));
        assert forall|i: int| 0 <= i < hits.len() implies (#[trigger] hits[i]).1.id
            == kept[i].0 by {
            all.lemma_filter_pred(keep, i);
            assert(record_fits(s, kept[i].0));
        }
        // Each record is among the live hits.
        assert forall|id: u64| #[trigger] s.records.dom().contains(id) implies kept.contains(
            (id, similarity(query, s.records[id].vector)),
        ) by {
            let h = (id, similarity(query, s.records[id].vector));
            assert(s.records.dom().union(s.tombstones).contains(id));
            assert(m.ids().to_set().contains(id));
            let e = choose|e: int| 0 <= e < m.ids().len() && m.ids()[e] == id;
            assert(m.entries[e].0 == id);
            assert(all.contains(h));
            let n = choose|n: int| 0 <= n < all.len() && all[n] == h;
            all.lemma_filter_contains(keep, n);
        }
        lemma_kept_count(s.records, kept);
        assert forall|id: u64, k: int|
            #![trigger s.records[id], hits[k]]
            s.records.dom().contains(id) && 0 <= k < hits.len() && (forall|i: int|
                0 <= i < hits.len() ==> (#[trigger] hits[i]).1.id != id) implies similarity(
            query,
            s.records[id].vector,
        ).total_rank() <= hits[k].0.total_rank() by {
            let h = (id, similarity(query, s.records[id].vector));
            assert(kept.contains(h));
            let j = choose|j: int| 0 <= j < kept.len() && kept[j] == h;
            if j < hits.len() {
                assert(hits[j].1.id == id);
            }
            assert(kept[k].1.total_rank() >= kept[j].1.total_rank());
        }
    }
}

/// The search effort is what it is for. In a collection with a graph, let
/// `ef_search` be at least the number of vectors in the graph, and let all nodes
/// be reachable. An unfiltered search is then as good as an exact one over the
/// records that are left: it gives the best of them, with the same scores in the
/// same order.
pub proof fn lemma_wide_search(s: DbView, params: AnnParams, query: Seq<F32>, limit: nat)
    requires
        consistent(s),
        fits_memory(s),
        s.kind == IndexKind::Hnsw(params),
        params.ef_search >= s.index.entries.len(),
        forall|node: usize|
            node < s.index.entries.len() ==> #[trigger] reachable(
                s.index.graph(),
                s.index.entry->0,
                node,
            ),
        check_vector(s.dimension, query) is Ok,
    ensures
        searched(s, query, limit, Seq::empty()) matches Ok(hits) && {
            let exact = exact_hits(listed(s.records), query, limit, Seq::empty());
            &&& top_hits(s.records, query, limit, hits)
            &&& hits.len() == exact.len()
            &&& forall|i: int| 0 <= i < hits.len() ==> (#[trigger] hits[i]).0 == exact[i].0
        },
{
    let none = Seq::<(Seq<char>, Seq<char>)>::empty();
    let hits = searched(s, query, limit, none)->Ok_0;
    let exact = exact_hits(listed(s.records), query, limit, none);
    lemma_exact_top(s, query, limit);
    lemma_indexed_top(s, params, query, limit);
    assert forall|i: int| 0 <= i < hits.len() implies (#[trigger] hits[i]).0 == exact[i].0 by {
        lemma_top_scores(s.records, query, limit, hits, exact, i);
    }
}

/// What a search gives where it is exact: in a collection with an exact index,
/// and wherever there is a filter. The hits are records of the collection with
/// their own scores, no more than asked for, the higher score first and the lower
/// id among equal scores. For each pair of the filter, that very pair is among
/// the metadata of every hit. A record whose metadata has all the pairs is a hit,
/// unless there are as many as asked for and all of them come before it; and a
/// record that lacks one of the pairs is never a hit.
pub proof fn lemma_search_selects(
    s: DbView,
    query: Seq<F32>,
    limit: nat,
    filter: Seq<(Seq<char>, Seq<char>)>,
    id: u64,
)
    requires
        consistent(s),
        fits_memory(s),
        s.kind == IndexKind::Exact || filter.len() > 0,
        check_vector(s.dimension, query) is Ok,
        s.records.dom().contains(id),
        filter.len() > 0 ==> keys_ascending(s.records[id].metadata),
    ensures
        searched(s, query, limit, filter) matches Ok(hits) && {
            let r = s.records[id];
            let score = similarity(query, r.vector);
            let given = exists|i: int| 0 <= i < hits.len() && (#[trigger] hits[i]).1.id == id;
            let asked = forall|f: int|
                0 <= f < filter.len() ==> r.metadata.contains(#[trigger] filter[f]);
            &&& hits.len() <= limit
            &&& forall|i: int|
                0 <= i < hits.len() ==> {
                    let found = (#[trigger] hits[i]).1;
                    &&& s.records.dom().contains(found.id)
                    &&& s.records[found.id] == found
                    &&& hits[i].0 == similarity(query, found.vector)
                }
            &&& forall|i: int, f: int|
                0 <= i < hits.len() && 0 <= f < filter.len() ==> (
                #[trigger] hits[i]).1.metadata.contains(#[trigger] filter[f])
            &&& forall|i: int, j: int|
                0 <= i < j < hits.len() ==> {
                    let (a, b) = ((#[trigger] hits[i]), (#[trigger] hits[j]));
                    &&& a.1.id != b.1.id
                    &&& a.0.total_rank() > b.0.total_rank() || (a.0.total_rank()
                        == b.0.total_rank() && a.1.id < b.1.id)
                }
            &&& asked && !given ==> hits.len() == limit && forall|i: int|
                0 <= i < hits.len() ==> (#[trigger] hits[i]).0.total_rank() > score.total_rank()
                    || (hits[i].0.total_rank() == score.total_rank() && hits[i].1.id < id)
            &&& !asked ==> !given
        },
{
    let list = listed(s.records);
    let ids = in_order(s.records.dom());
    let r = s.records[id];
    lemma_listed_distinct(s);
    lemma_listed(s.records);
    lemma_in_order(s.records.dom());
    lemma_search_exact(s, query, limit, filter);
    let hits = exact_hits(list, query, limit, filter);
    lemma_best_of_list(list, query, limit, filter, r);
    assert(record_fits(s, id));
    assert(ids.to_set().contains(id));
    let n = choose|n: int| 0 <= n < ids.len() && ids[n] == id;
    assert(list[n] == r);
    assert forall|i: int| 0 <= i < hits.len() implies {
        let found = (#[trigger] hits[i]).1;
        s.records.dom().contains(found.id) && s.records[found.id] == found
    } by {
        let found = hits[i].1;
        assert(list.contains(found));
        let k = choose|k: int| 0 <= k < list.len() && list[k] == found;
        assert(s.records.dom().contains(ids[k]));
        assert(record_fits(s, ids[k]));
    }
    let given = exists|i: int| 0 <= i < hits.len() && (#[trigger] hits[i]).1.id == id;
    let listed = exists|i: int| 0 <= i < hits.len() && (#[trigger] hits[i]).1 == r;
    if given {
        let i = choose|i: int| 0 <= i < hits.len() && (#[trigger] hits[i]).1.id == id;
        assert(hits[i].1 == r);
    }
    if listed {
        let i = choose|i: int| 0 <= i < hits.len() && (#[trigger] hits[i]).1 == r;
        assert(hits[i].1.id == id);
    }
}

/// Every hit of a search holds each pair of the filter, that value under that
/// key.
pub proof fn lemma_hits_hold_filter(
    list: Seq<RecordView>,
    query: Seq<F32>,
    limit: nat,
    filter: Seq<(Seq<char>, Seq<char>)>,
    i: int,
    f: int,
)
    requires
        list.len() <= usize::MAX,
        0 <= i < exact_hits(list, query, limit, filter).len(),
        0 <= f < filter.len(),
    ensures
        exact_hits(list, query, limit, filter)[i].1.metadata.contains(filter[f]),
{
    lemma_exact_hits_sound(list, query, limit, filter);
    lemma_pairs_found(exact_hits(list, query, limit, filter)[i].1.metadata, filter, f);
}

/// A search of an exact index gives the best of the entries: as many as there are
/// up to `k`, the higher score first and the lower id among equal scores, and none
/// that is left out comes before one that is given.
pub proof fn lemma_exact_nearest(m: IndexModel, query: Seq<F32>, k: nat, ef: nat, e: int, i: int)
    requires
        m.kind is Exact,
    ensures
        ({
            let hits = m.nearest(query, k, ef);
            &&& hits.len() == if k < m.entries.len() {
                k
            } else {
                m.entries.len()
            }
            &&& forall|a: int, b: int|
                0 <= a < b < hits.len() ==> {
                    let (p, q) = ((#[trigger] hits[a]), (#[trigger] hits[b]));
                    p.1.total_rank() > q.1.total_rank() || (p.1.total_rank() == q.1.total_rank()
                        && p.0 <= q.0)
                }
            &&& forall|a: int|
                0 <= a < hits.len() ==> is_scored_entry(m.entries, query, #[trigger] hits[a])
            &&& 0 <= e < m.entries.len() && 0 <= i < hits.len() ==> {
                let (id, score) = (m.entries[e].0, similarity(query, m.entries[e].1));
                hits.contains((id, score)) || hits[i].1.total_rank() > score.total_rank() || (
                hits[i].1.total_rank() == score.total_rank() && hits[i].0 <= id)
            }
        }),
{
    let plain = scores(m.entries, query);
    let all = ranking(plain);
    let hits = m.nearest(query, k, ef);
    lemma_ranking(plain);
    assert(hits == first(all, k));
    assert forall|a: int, b: int| 0 <= a < b < hits.len() implies {
        let (p, q) = ((#[trigger] hits[a]), (#[trigger] hits[b]));
        p.1.total_rank() > q.1.total_rank() || (p.1.total_rank() == q.1.total_rank() && p.0 <= q.0)
    } by {
        assert(<(u64, F32) as Ranked>::ahead(all[a], all[b]));
    }
    assert forall|a: int| 0 <= a < hits.len() implies is_scored_entry(
        m.entries,
        query,
        #[trigger] hits[a],
    ) by {
        assert(all.contains(all[a]));
        lemma_ranking_members(plain, all[a]);
        let n = choose|n: int| 0 <= n < plain.len() && plain[n] == all[a];
        assert(m.entries[n].0 == hits[a].0);
    }
    if 0 <= e < m.entries.len() && 0 <= i < hits.len() {
        assert(plain.contains(plain[e]));
        lemma_ranking_members(plain, plain[e]);
        let j = choose|j: int| 0 <= j < all.len() && all[j] == plain[e];
        if j < hits.len() {
            assert(hits[j] == plain[e]);
        } else {
            assert(<(u64, F32) as Ranked>::ahead(all[i], all[j]));
        }
    }
}

/// A search of a consistent collection is refused exactly where the query is empty,
/// has a component that is no finite number, or is of another dimension than the
/// one that is fixed; a search for nothing finds nothing.
pub proof fn lemma_search_refused(
    s: DbView,
    query: Seq<F32>,
    limit: nat,
    filter: Seq<(Seq<char>, Seq<char>)>,
)
    requires
        consistent(s),
        query.len() <= usize::MAX,
    ensures
        searched(s, query, limit, filter) is Err <==> {
            ||| query.len() == 0
            ||| exists|i: int| 0 <= i < query.len() && (#[trigger] query[i]).code() >= 0x7f80_0000
            ||| s.dimension matches Some(d) && d != query.len()
        },
        searched(s, query, 0, filter) matches Ok(hits) ==> hits.len() == 0,
        query.len() > 0 && all_finite(query) ==> match s.dimension {
            Some(d) => d != query.len() ==> searched(s, query, limit, filter) == Err::<
                Seq<(F32, RecordView)>,
                VectorDbError,
            >(VectorDbError::DimensionMismatch { expected: d, actual: query.len() as usize }),
            None => true,
        },
{
    lemma_accepts(s.dimension, query);
}

/// Reclaiming the places of deleted records changes no search that is exact.
pub proof fn lemma_compact_search(
    s: DbView,
    query: Seq<F32>,
    limit: nat,
    filter: Seq<(Seq<char>, Seq<char>)>,
)
    requires
        consistent(s),
        fits_memory(s),
        s.kind == IndexKind::Exact || filter.len() > 0,
        check_vector(s.dimension, query) is Ok,
    ensures
        rebuilt(s).1 is Ok,
        searched(rebuilt(s).0, query, limit, filter) == searched(s, query, limit, filter),
{
    lemma_compact(s);
    lemma_search_exact(s, query, limit, filter);
    lemma_search_exact(rebuilt(s).0, query, limit, filter);
}

/// What an unfiltered search of a collection with a graph looks at. Where
/// `ef_search` is enough for the limit and the deleted ids, the hits are the first
/// `limit` of what a walk that keeps exactly `ef_search` nodes finds, the deleted
/// ones left out; and that walk finds so many nodes, or all that can be reached.
pub proof fn lemma_search_walks(s: DbView, params: AnnParams, query: Seq<F32>, limit: nat)
    requires
        consistent(s),
        fits_memory(s),
        s.kind == IndexKind::Hnsw(params),
        0 < limit,
        limit + s.tombstones.len() <= params.ef_search,
        check_vector(s.dimension, query) is Ok,
    ensures
        ({
            let found = explore(s.index.graph(), query, params.ef_search as nat);
            let kept = hits_of(s.index.entries, found).filter(
                |hit: (u64, F32)| s.records.dom().contains(hit.0),
            );
            &&& searched(s, query, limit, Seq::empty()) matches Ok(hits) && {
                &&& hits.len() == if limit < kept.len() {
                    limit
                } else {
                    kept.len()
                }
                &&& forall|i: int|
                    0 <= i < hits.len() ==> (#[trigger] hits[i]) == (
                        kept[i].1,
                        s.records[kept[i].0],
                    )
            }
            &&& found.len() == params.ef_search || forall|node: usize|
                node < s.index.entries.len() && #[trigger] reachable(
                    s.index.graph(),
                    s.index.entry->0,
                    node,
                ) ==> holds_node(found, node as int)
        }),
{
    let m = s.index;
    let g = m.graph();
    let ef = params.ef_search as nat;
    let keep = live(s.records);
    let found = explore(g, query, ef);
    let all = hits_of(m.entries, found);
    let fetch = fetch_size(limit, s.tombstones.len());
    assert(fetch == limit + s.tombstones.len());
    assert(all.filter(|hit: (u64, F32)| s.records.dom().contains(hit.0)) == all.filter(keep)) by {
        assert(keep =~= |hit: (u64, F32)| s.records.dom().contains(hit.0));
    }
    lemma_walk_settles(g, query, ef);
    lemma_explore_sound(g, query, ef);
    // What the walk finds is what a search for as many finds.
    assert(m.nearest(query, ef, ef) =~= all) by {
        assert(first(found, ef) == found);
    }
    lemma_nearest_sound(s, query, ef, ef);
    assert forall|i: int| 0 <= i < all.len() && !keep(#[trigger] all[i]) implies
        s.tombstones.contains(all[i].0) by {
        assert(is_scored_entry(m.entries, query, all[i]));
        let e = choose|e: int|
            0 <= e < m.entries.len() && #[trigger] m.entries[e].0 == all[i].0 && similarity(
                query,
                m.entries[e].1,
            ) == all[i].1;
        assert(m.ids()[e] == all[i].0);
        assert(m.ids().to_set().contains(m.ids()[e]));
    }
    lemma_overfetch(all, keep, limit, fetch, s.tombstones);
    assert(m.nearest(query, fetch, ef) =~= first(all, fetch));
}

/// Where all nodes of a graph can be reached, an unfiltered search gives as many
/// records as there are up to the limit, whatever its effort and however many
/// deleted ids are still in the graph.
pub proof fn lemma_search_count(s: DbView, query: Seq<F32>, limit: nat)
    requires
        consistent(s),
        fits_memory(s),
        s.kind is Hnsw,
        forall|node: usize|
            node < s.index.entries.len() ==> #[trigger] reachable(
                s.index.graph(),
                s.index.entry->0,
                node,
            ),
        check_vector(s.dimension, query) is Ok,
    ensures
        searched(s, query, limit, Seq::empty()) matches Ok(hits) && hits.len() == if limit
            < s.records.len() {
            limit
        } else {
            s.records.len()
        },
{
    if limit > 0 {
        let m = s.index;
        let g = m.graph();
        let n = m.entries.len();
        let fetch = fetch_size(limit, s.tombstones.len());
        let width = at_least(effort(s.kind), fetch);
        let found = explore(g, query, width);
        let hits = indexed_hits(s, query, limit);
        lemma_walk_settles(g, query, width);
        lemma_explore_sound(g, query, width);
        if found.len() < width {
            assert forall|k: int| 0 <= k < n implies holds_node(found, k) by {
                assert(reachable(g, m.entry->0, k as usize));
            }
            lemma_all_held(found, n);
        }
        lemma_deletions_do_not_shrink(s, query, limit);
        lemma_search_sound(s, query, limit);
        m.ids().unique_seq_to_set();
        vstd::set_lib::lemma_set_disjoint_lens(s.records.dom(), s.tombstones);
        assert(n == s.records.len() + s.tombstones.len());
        // No more than there are.
        let ids = hits.map_values(|h: (F32, RecordView)| h.1.id);
        assert(ids.no_duplicates()) by {
            assert forall|i: int, j: int|
                0 <= i < ids.len() && 0 <= j < ids.len() && i != j implies ids[i] != ids[j] by {
                if i < j {
                    assert(hits[i].1.id != hits[j].1.id);
                } else {
                    assert(hits[j].1.id != hits[i].1.id);
                }
            }
        }
        ids.unique_seq_to_set();
        assert(ids.to_set().subset_of(s.records.dom())) by {
            assert forall|id: u64| ids.to_set().contains(id) implies s.records.dom().contains(
                id,
            ) by {
                let i = choose|i: int| 0 <= i < ids.len() && ids[i] == id;
                assert(hits[i].1.id == id);
            }
        }
        vstd::set_lib::lemma_len_subset(ids.to_set(), s.records.dom());
    }
}

} // verus!
