//! What searches promise: exactness, soundness, and that deletions never shrink
//! a result.

use crate::consistency::{
    consistent, fits_memory, holding, lemma_compact, lemma_degrees_bounded, lemma_upsert,
    record_fits,
};
use crate::db::{
    effort, fetch_size, indexed_hits, live, rebuilt, searched, upserted, DbView, IndexKind,
};
use crate::distance::similarity;
use crate::error::VectorDbError;
use crate::float::F32;
use crate::index::brute_force::{best, lemma_best};
use crate::index::complete::{
    complete, hub, lemma_complete_grown, lemma_hub_explored, node_level, scores_defined,
};
use crate::index::graph::{
    below, explore, holds_node, lemma_explore_exhaustive, lemma_explore_sound, reachable, Candidate,
    Graph,
};
use crate::index::hnsw::{at_least, hits_of, AnnParams};
use crate::index::linking::{grown, lemma_grown};
use crate::index::model::{blank, filled, IndexModel};
use crate::index::{is_scored_entry, scores};
use crate::query::{exact_hits, lemma_placed_ranking, matching, placed, resolved, Placed};
use crate::ranking::{first, lemma_ranking, ranked, ranking, Ranked};
use crate::record::{check_vector, pairs_match, RecordView};
use crate::records::{in_order, lemma_in_order, listed};
use crate::storage::format::lemma_listed;
use vstd::prelude::*;

verus! {

/// Picking from ranked items leaves them ranked.
proof fn lemma_filter_ranked<T: Ranked>(items: Seq<T>, keep: spec_fn(T) -> bool)
    requires
        ranked(items),
    ensures
        ranked(items.filter(keep)),
    decreases items.len(),
{
    reveal(Seq::filter);
    if items.len() > 0 {
        let front = items.drop_last();
        assert forall|i: int, j: int| 0 <= i < j < front.len() implies T::ahead(
            #[trigger] front[i],
            #[trigger] front[j],
        ) by {
            assert(T::ahead(items[i], items[j]));
        }
        lemma_filter_ranked(front, keep);
        let f = front.filter(keep);
        if keep(items.last()) {
            let g = f.push(items.last());
            assert forall|i: int, j: int| 0 <= i < j < g.len() implies T::ahead(
                #[trigger] g[i],
                #[trigger] g[j],
            ) by {
                if j == f.len() {
                    assert(f.contains(f[i]));
                    front.lemma_filter_contains_rev(keep, f[i]);
                    let k = choose|k: int| 0 <= k < front.len() && front[k] == f[i];
                    assert(T::ahead(items[k], items[items.len() - 1]));
                } else {
                    assert(T::ahead(f[i], f[j]));
                }
            }
        }
    }
}

/// Two rankings of the same items, each once, are the same.
proof fn lemma_ranked_unique<T: Ranked>(a: Seq<T>, b: Seq<T>)
    requires
        ranked(a),
        ranked(b),
        a.no_duplicates(),
        b.no_duplicates(),
        forall|x: T| #[trigger] a.contains(x) <==> b.contains(x),
    ensures
        a == b,
{
    broadcast use vstd::seq_lib::group_to_multiset_ensures;

    a.lemma_multiset_has_no_duplicates();
    b.lemma_multiset_has_no_duplicates();
    assert forall|x: T| a.to_multiset().count(x) == b.to_multiset().count(x) by {
        assert(a.contains(x) <==> a.to_multiset().count(x) > 0);
        assert(b.contains(x) <==> b.to_multiset().count(x) > 0);
        if a.contains(x) {
            assert(a.to_multiset().contains(x));
            assert(b.to_multiset().contains(x));
        }
    }
    assert(a.to_multiset() =~= b.to_multiset());
    lemma_ranking(a);
    lemma_ranking(b);
}

/// Items and their ranking have the same members.
pub(crate) proof fn lemma_ranking_members<T: Ranked>(items: Seq<T>, x: T)
    ensures
        ranking(items).contains(x) <==> items.contains(x),
{
    broadcast use vstd::seq_lib::group_to_multiset_ensures;

    lemma_ranking(items);
    assert(ranking(items).contains(x) <==> ranking(items).to_multiset().count(x) > 0);
    assert(items.contains(x) <==> items.to_multiset().count(x) > 0);
}

/// Ranking items that occur once leaves them once.
pub(crate) proof fn lemma_ranking_distinct<T: Ranked>(items: Seq<T>)
    requires
        items.no_duplicates(),
    ensures
        ranking(items).no_duplicates(),
{
    lemma_ranking(items);
    items.lemma_multiset_has_no_duplicates();
    ranking(items).lemma_multiset_has_no_duplicates_conv();
}

/// No id occurs twice.
pub(crate) open spec fn distinct_ids(hits: Seq<(u64, F32)>) -> bool {
    forall|i: int, j: int|
        0 <= i < j < hits.len() ==> (#[trigger] hits[i]).0 != (#[trigger] hits[j]).0
}

proof fn lemma_ranking_distinct_ids(hits: Seq<(u64, F32)>)
    requires
        distinct_ids(hits),
    ensures
        distinct_ids(ranking(hits)),
{
    let r = ranking(hits);
    assert(hits.no_duplicates());
    lemma_ranking_distinct(hits);
    assert forall|i: int, j: int| 0 <= i < j < r.len() implies (#[trigger] r[i]).0 != (
    #[trigger] r[j]).0 by {
        assert(r.contains(r[i]) && r.contains(r[j]));
        lemma_ranking_members(hits, r[i]);
        lemma_ranking_members(hits, r[j]);
        let a = choose|a: int| 0 <= a < hits.len() && hits[a] == r[i];
        let b = choose|b: int| 0 <= b < hits.len() && hits[b] == r[j];
        assert(r[i] != r[j]);
        assert(a != b);
        if a < b {
            assert(hits[a].0 != hits[b].0);
        } else {
            assert(hits[b].0 != hits[a].0);
        }
    }
}

/// The ids that a filter drops.
spec fn dropped_ids(hits: Seq<(u64, F32)>, keep: spec_fn((u64, F32)) -> bool) -> Set<u64>
    decreases hits.len(),
{
    if hits.len() == 0 {
        Set::empty()
    } else if keep(hits.last()) {
        dropped_ids(hits.drop_last(), keep)
    } else {
        dropped_ids(hits.drop_last(), keep).insert(hits.last().0)
    }
}

proof fn lemma_dropped_ids(hits: Seq<(u64, F32)>, keep: spec_fn((u64, F32)) -> bool)
    requires
        distinct_ids(hits),
    ensures
        dropped_ids(hits, keep).finite(),
        hits.filter(keep).len() + dropped_ids(hits, keep).len() == hits.len(),
        forall|id: u64| #[trigger]
            dropped_ids(hits, keep).contains(id) ==> exists|i: int|
                0 <= i < hits.len() && (#[trigger] hits[i]).0 == id && !keep(hits[i]),
    decreases hits.len(),
{
    reveal(Seq::filter);
    if hits.len() > 0 {
        let front = hits.drop_last();
        assert forall|i: int, j: int| 0 <= i < j < front.len() implies (#[trigger] front[i]).0 != (
        #[trigger] front[j]).0 by {
            assert(hits[i].0 != hits[j].0);
        }
        lemma_dropped_ids(front, keep);
        let last = hits.last();
        let d = dropped_ids(front, keep);
        if d.contains(last.0) {
            let i = choose|i: int|
                0 <= i < front.len() && (#[trigger] front[i]).0 == last.0 && !keep(front[i]);
            assert(hits[i].0 != hits[hits.len() - 1].0);
        }
        assert forall|id: u64| #[trigger] dropped_ids(hits, keep).contains(id) implies exists|
            i: int,
        |
            0 <= i < hits.len() && (#[trigger] hits[i]).0 == id && !keep(hits[i]) by {
            if d.contains(id) {
                let i = choose|i: int|
                    0 <= i < front.len() && (#[trigger] front[i]).0 == id && !keep(front[i]);
                assert(hits[i] == front[i]);
            } else {
                assert(hits[hits.len() - 1].0 == id);
            }
        }
    }
}

/// Fetching as many hits more as can be dropped is enough.
pub(crate) proof fn lemma_overfetch(
    hits: Seq<(u64, F32)>,
    keep: spec_fn((u64, F32)) -> bool,
    limit: nat,
    fetch: nat,
    dead: Set<u64>,
)
    requires
        distinct_ids(hits),
        dead.finite(),
        forall|i: int|
            0 <= i < hits.len() && !keep(#[trigger] hits[i]) ==> dead.contains(hits[i].0),
        fetch >= limit + dead.len() || fetch >= hits.len(),
    ensures
        first(first(hits, fetch).filter(keep), limit) == first(hits.filter(keep), limit),
{
    if fetch < hits.len() {
        let a = hits.take(fetch as int);
        let b = hits.skip(fetch as int);
        assert(a + b =~= hits);
        Seq::filter_distributes_over_add(a, b, keep);
        assert forall|i: int, j: int| 0 <= i < j < a.len() implies (#[trigger] a[i]).0 != (
        #[trigger] a[j]).0 by {
            assert(hits[i].0 != hits[j].0);
        }
        lemma_dropped_ids(a, keep);
        let d = dropped_ids(a, keep);
        assert forall|id: u64| d.contains(id) implies dead.contains(id) by {
            let i = choose|i: int| 0 <= i < a.len() && (#[trigger] a[i]).0 == id && !keep(a[i]);
            assert(hits[i] == a[i]);
        }
        assert(d.subset_of(dead));
        vstd::set_lib::lemma_len_subset(d, dead);
        assert(a.filter(keep).len() >= limit);
        assert(first(a.filter(keep), limit) =~= first(hits.filter(keep), limit));
    }
}

/// The hit that a record makes.
spec fn hit_of() -> spec_fn(Placed) -> (u64, F32) {
    |p: Placed| (p.id, p.score)
}

/// The live hits of an exact index are the records, ranked.
proof fn lemma_live_hits(s: DbView, query: Seq<F32>)
    requires
        consistent(s),
        s.records.len() <= usize::MAX,
    ensures
        ranking(scores(s.index.entries, query)).filter(live(s.records)) == ranking(
            placed(listed(s.records), query),
        ).map_values(hit_of()),
        distinct_ids(ranking(scores(s.index.entries, query))),
{
    let entries = s.index.entries;
    let plain = scores(entries, query);
    let all = ranking(plain);
    let keep = live(s.records);
    let list = listed(s.records);
    let ids = in_order(s.records.dom());
    let q = placed(list, query);
    let order = ranking(q);
    let x = all.filter(keep);
    let y = order.map_values(hit_of());
    lemma_listed(s.records);
    lemma_in_order(s.records.dom());
    lemma_placed_ranking(list, query);
    assert(distinct_ids(plain)) by {
        assert forall|i: int, j: int| 0 <= i < j < plain.len() implies (#[trigger] plain[i]).0 != (
        #[trigger] plain[j]).0 by {
            assert(s.index.ids()[i] != s.index.ids()[j]);
        }
    }
    lemma_ranking_distinct_ids(plain);
    lemma_ranking(plain);
    lemma_filter_ranked(all, keep);
    assert(all.no_duplicates());
    // The places of the list hold different ids.
    assert forall|i: int| 0 <= i < list.len() implies (#[trigger] list[i]).id == ids[i] by {
        assert(s.records.dom().contains(ids[i]));
        assert(record_fits(s, ids[i]));
    }
    assert(q.no_duplicates()) by {
        assert forall|i: int, j: int| 0 <= i < q.len() && 0 <= j < q.len() && i != j implies q[i]
            != q[j] by {
            assert(q[i].place == i && q[j].place == j);
        }
    }
    lemma_ranking_distinct(q);
    lemma_ranking(q);
    assert forall|i: int, j: int| 0 <= i < j < y.len() implies <(u64, F32) as Ranked>::ahead(
        #[trigger] y[i],
        #[trigger] y[j],
    ) by {
        assert(Placed::ahead(order[i], order[j]));
    }
    assert forall|i: int, j: int| 0 <= i < y.len() && 0 <= j < y.len() && i != j implies y[i]
        != y[j] by {
        let (a, b) = (order[i], order[j]);
        assert(a != b);
        assert(a == q[a.place as int] && b == q[b.place as int]);
        assert(list[a.place as int].id == ids[a.place as int]);
        assert(list[b.place as int].id == ids[b.place as int]);
    }
    assert(y.no_duplicates());
    assert(x.no_duplicates()) by {
        lemma_filter_no_duplicates(all, keep);
    }
    assert forall|h: (u64, F32)| #[trigger] x.contains(h) <==> y.contains(h) by {
        if x.contains(h) {
            all.lemma_filter_contains_rev(keep, h);
            let w = choose|w: int| 0 <= w < x.len() && x[w] == h;
            all.lemma_filter_pred(keep, w);
            assert(keep(h));
            lemma_ranking_members(plain, h);
            let e = choose|e: int| 0 <= e < plain.len() && plain[e] == h;
            assert(entries[e].0 == h.0);
            assert(entries[e].1 == s.records[h.0].vector);
            assert(ids.to_set().contains(h.0));
            let i = choose|i: int| 0 <= i < ids.len() && ids[i] == h.0;
            assert(list[i].id == h.0);
            assert(q[i].id == h.0 && q[i].score == h.1);
            assert(q.contains(q[i]));
            lemma_ranking_members(q, q[i]);
            let k = choose|k: int| 0 <= k < order.len() && order[k] == q[i];
            assert(y[k] == h);
        }
        if y.contains(h) {
            let k = choose|k: int| 0 <= k < y.len() && y[k] == h;
            let p = order[k];
            let i = p.place as int;
            assert(p == q[i]);
            assert(list[i].id == ids[i]);
            let id = ids[i];
            assert(s.records.dom().contains(id));
            assert(h.0 == id && h.1 == similarity(query, s.records[id].vector));
            assert(s.records.dom().union(s.tombstones).contains(id));
            assert(s.index.ids().to_set().contains(id));
            let e = choose|e: int| 0 <= e < s.index.ids().len() && s.index.ids()[e] == id;
            assert(entries[e].0 == id);
            assert(plain[e] == h);
            assert(plain.contains(h));
            lemma_ranking_members(plain, h);
            let n = choose|n: int| 0 <= n < all.len() && all[n] == h;
            all.lemma_filter_contains(keep, n);
        }
    }
    lemma_ranked_unique(x, y);
}

pub(crate) proof fn lemma_filter_no_duplicates<T>(items: Seq<T>, keep: spec_fn(T) -> bool)
    requires
        items.no_duplicates(),
    ensures
        items.filter(keep).no_duplicates(),
    decreases items.len(),
{
    reveal(Seq::filter);
    if items.len() > 0 {
        let front = items.drop_last();
        assert(front.no_duplicates());
        lemma_filter_no_duplicates(front, keep);
        let f = front.filter(keep);
        if keep(items.last()) {
            let g = f.push(items.last());
            assert forall|i: int, j: int| 0 <= i < g.len() && 0 <= j < g.len() && i != j implies
                g[i] != g[j] by {
                let n = if i < j {
                    i
                } else {
                    j
                };
                if i == f.len() || j == f.len() {
                    assert(f.contains(f[n]));
                    front.lemma_filter_contains_rev(keep, f[n]);
                    let k = choose|k: int| 0 <= k < front.len() && front[k] == f[n];
                    assert(items[k] != items[items.len() - 1]);
                }
            }
        }
    }
}

/// An empty filter picks everything.
pub(crate) proof fn lemma_no_filter(list: Seq<RecordView>, filter: Seq<(Seq<char>, Seq<char>)>)
    requires
        filter.len() == 0,
    ensures
        list.filter(matching(filter)) == list,
    decreases list.len(),
{
    reveal(Seq::filter);
    if list.len() > 0 {
        lemma_no_filter(list.drop_last(), filter);
        assert(pairs_match(list.last().metadata, filter));
        assert(list.drop_last().push(list.last()) =~= list);
    } else {
        assert(list =~= Seq::empty());
    }
}

/// A collection with an exact index finds exactly the `limit` best of its
/// records, in order, however many deleted vectors its index still holds.
pub proof fn lemma_exact_search(s: DbView, query: Seq<F32>, limit: nat)
    requires
        consistent(s),
        s.kind == IndexKind::Exact,
        check_vector(s.dimension, query) is Ok,
        s.records.len() <= usize::MAX,
        s.index.entries.len() <= usize::MAX,
    ensures
        searched(s, query, limit, Seq::empty()) == Ok::<Seq<(F32, RecordView)>, VectorDbError>(
            exact_hits(listed(s.records), query, limit, Seq::empty()),
        ),
{
    let none = Seq::<(Seq<char>, Seq<char>)>::empty();
    let list = listed(s.records);
    let order = ranking(placed(list, query));
    lemma_no_filter(list, none);
    lemma_listed(s.records);
    lemma_placed_ranking(list, query);
    if limit == 0 {
        assert(exact_hits(list, query, 0, none) =~= Seq::empty());
    } else {
        let keep = live(s.records);
        let all = ranking(scores(s.index.entries, query));
        let fetch = fetch_size(limit, s.tombstones.len());
        lemma_live_hits(s, query);
        lemma_ranking(scores(s.index.entries, query));
        assert forall|i: int| 0 <= i < all.len() && !keep(#[trigger] all[i]) implies
            s.tombstones.contains(all[i].0) by {
            assert(all.contains(all[i]));
            lemma_ranking_members(scores(s.index.entries, query), all[i]);
            let plain = scores(s.index.entries, query);
            let e = choose|e: int| 0 <= e < plain.len() && plain[e] == all[i];
            assert(s.index.ids()[e] == all[i].0);
            assert(s.index.ids().contains(all[i].0));
            assert(s.index.ids().to_set().contains(all[i].0));
        }
        lemma_overfetch(all, keep, limit, fetch, s.tombstones);
        let hits = first(all, fetch);
        assert(s.index.nearest(query, fetch, effort(s.kind)) == hits);
        let kept = first(all.filter(keep), limit);
        let found = indexed_hits(s, query, limit);
        let expected = resolved(list, first(order, limit));
        let ids = in_order(s.records.dom());
        assert(found.len() == expected.len());
        assert forall|i: int| 0 <= i < found.len() implies found[i] == expected[i] by {
            let p = order[i];
            let h = kept[i];
            assert(h == (hit_of())(p));
            assert(p == placed(list, query)[p.place as int]);
            assert(s.records.dom().contains(ids[p.place as int]));
            assert(record_fits(s, ids[p.place as int]));
        }
        assert(found =~= expected);
    }
}

/// Every search that filters, and every search of an exact or mapped
/// collection, gives records of the list that match the filter, each with its
/// own score, the scores never rising, and as many as there are up to the
/// limit.
pub proof fn lemma_exact_hits_sound(
    list: Seq<RecordView>,
    query: Seq<F32>,
    limit: nat,
    filter: Seq<(Seq<char>, Seq<char>)>,
)
    requires
        list.len() <= usize::MAX,
    ensures
        ({
            let hits = exact_hits(list, query, limit, filter);
            let matches = list.filter(matching(filter)).len();
            &&& hits.len() == if limit < matches {
                limit
            } else {
                matches
            }
            &&& forall|i: int|
                0 <= i < hits.len() ==> {
                    &&& list.contains((#[trigger] hits[i]).1)
                    &&& pairs_match(hits[i].1.metadata, filter)
                    &&& hits[i].0 == similarity(query, hits[i].1.vector)
                }
            &&& forall|i: int, j: int|
                0 <= i < j < hits.len() ==> (#[trigger] hits[i]).0.total_rank() >= (
                #[trigger] hits[j]).0.total_rank()
        }),
{
    let keep = matching(filter);
    let chosen = list.filter(keep);
    list.lemma_filter_len(keep);
    lemma_placed_ranking(chosen, query);
    let order = ranking(placed(chosen, query));
    lemma_ranking(placed(chosen, query));
    let hits = exact_hits(list, query, limit, filter);
    assert forall|i: int| 0 <= i < hits.len() implies {
        &&& list.contains((#[trigger] hits[i]).1)
        &&& pairs_match(hits[i].1.metadata, filter)
        &&& hits[i].0 == similarity(query, hits[i].1.vector)
    } by {
        let p = order[i];
        let k = p.place as int;
        assert(p == placed(chosen, query)[k]);
        assert(hits[i].1 == chosen[k]);
        assert(chosen.contains(chosen[k]));
        list.lemma_filter_contains_rev(keep, chosen[k]);
        list.lemma_filter_pred(keep, k);
    }
    assert forall|i: int, j: int| 0 <= i < j < hits.len() implies (
    #[trigger] hits[i]).0.total_rank() >= (#[trigger] hits[j]).0.total_rank() by {
        assert(Placed::ahead(order[i], order[j]));
    }
}

/// The hits of the index of a consistent collection are entries with their own
/// scores, no id twice, and the scores never rise.
pub(crate) proof fn lemma_nearest_sound(s: DbView, query: Seq<F32>, k: nat, ef: nat)
    requires
        consistent(s),
    ensures
        ({
            let hits = s.index.nearest(query, k, ef);
            &&& distinct_ids(hits)
            &&& forall|i: int|
                0 <= i < hits.len() ==> is_scored_entry(
                    s.index.entries,
                    query,
                    #[trigger] hits[i],
                )
            &&& forall|i: int, j: int|
                0 <= i < j < hits.len() ==> (#[trigger] hits[i]).1.total_rank() >= (
                #[trigger] hits[j]).1.total_rank()
        }),
{
    let m = s.index;
    let hits = m.nearest(query, k, ef);
    match m.kind {
        IndexKind::Exact => {
            lemma_best(m.entries, query, k);
            let plain = scores(m.entries, query);
            let all = ranking(plain);
            assert forall|i: int, j: int| 0 <= i < j < plain.len() implies (
            #[trigger] plain[i]).0 != (#[trigger] plain[j]).0 by {
                assert(m.ids()[i] != m.ids()[j]);
            }
            lemma_ranking_distinct_ids(plain);
            assert forall|i: int, j: int| 0 <= i < j < hits.len() implies (
            #[trigger] hits[i]).0 != (#[trigger] hits[j]).0 by {
                assert(all[i].0 != all[j].0);
            }
        },
        IndexKind::Hnsw(_) => {
            let g = m.graph();
            let width = at_least(ef, k);
            lemma_explore_sound(g, query, width);
            let found = explore(g, query, width);
            if k > 0 {
                assert forall|i: int| 0 <= i < hits.len() implies is_scored_entry(
                    m.entries,
                    query,
                    #[trigger] hits[i],
                ) by {
                    let e = found[i].node as int;
                    assert(found[i] == g.candidate(query, found[i].node));
                    assert(m.entries[e].0 == hits[i].0);
                    assert(m.entries[e].1 == g.vectors[e]);
                }
                assert forall|i: int, j: int| 0 <= i < j < hits.len() implies (
                #[trigger] hits[i]).1.total_rank() >= (#[trigger] hits[j]).1.total_rank()
                    && hits[i].0 != hits[j].0 by {
                    assert(Candidate::ahead(found[i], found[j]));
                    assert(found[i].node != found[j].node);
                    assert(found[i].node < g.vectors.len() && found[j].node < g.vectors.len());
                    assert(m.ids()[found[i].node as int] != m.ids()[found[j].node as int]);
                }
            }
        },
    }
}

/// What picking hits leaves of their order.
pub(crate) proof fn lemma_filter_hits(hits: Seq<(u64, F32)>, keep: spec_fn((u64, F32)) -> bool)
    requires
        distinct_ids(hits),
        forall|i: int, j: int|
            0 <= i < j < hits.len() ==> (#[trigger] hits[i]).1.total_rank() >= (
            #[trigger] hits[j]).1.total_rank(),
    ensures
        distinct_ids(hits.filter(keep)),
        forall|i: int, j: int|
            0 <= i < j < hits.filter(keep).len() ==> (#[trigger] hits.filter(
                keep,
            )[i]).1.total_rank() >= (#[trigger] hits.filter(keep)[j]).1.total_rank(),
    decreases hits.len(),
{
    reveal(Seq::filter);
    if hits.len() > 0 {
        let front = hits.drop_last();
        assert forall|i: int, j: int| 0 <= i < j < front.len() implies (#[trigger] front[i]).0 != (
        #[trigger] front[j]).0 && front[i].1.total_rank() >= front[j].1.total_rank() by {
            assert(hits[i].0 != hits[j].0);
        }
        lemma_filter_hits(front, keep);
        let f = front.filter(keep);
        if keep(hits.last()) {
            let g = f.push(hits.last());
            assert forall|i: int, j: int| 0 <= i < j < g.len() implies (#[trigger] g[i]).0 != (
            #[trigger] g[j]).0 && g[i].1.total_rank() >= g[j].1.total_rank() by {
                if j == f.len() {
                    assert(f.contains(f[i]));
                    front.lemma_filter_contains_rev(keep, f[i]);
                    let k = choose|k: int| 0 <= k < front.len() && front[k] == f[i];
                    assert(hits[k] == front[k]);
                    assert(hits[k].0 != hits[hits.len() - 1].0);
                    assert(hits[k].1.total_rank() >= hits[hits.len() - 1].1.total_rank());
                } else {
                    assert(f[i].0 != f[j].0);
                }
            }
        }
    }
}

/// Whatever the kind of index, an unfiltered search of a consistent collection
/// gives live records only, none twice, each with its own score, the scores
/// never rising, and no more than asked for.
pub proof fn lemma_search_sound(s: DbView, query: Seq<F32>, limit: nat)
    requires
        consistent(s),
    ensures
        ({
            let hits = indexed_hits(s, query, limit);
            &&& hits.len() <= limit
            &&& forall|i: int|
                0 <= i < hits.len() ==> {
                    let r = (#[trigger] hits[i]).1;
                    &&& s.records.dom().contains(r.id)
                    &&& s.records[r.id] == r
                    &&& hits[i].0 == similarity(query, r.vector)
                }
            &&& forall|i: int, j: int|
                0 <= i < j < hits.len() ==> (#[trigger] hits[i]).1.id != (#[trigger] hits[j]).1.id
                    && hits[i].0.total_rank() >= hits[j].0.total_rank()
        }),
{
    let keep = live(s.records);
    let fetch = fetch_size(limit, s.tombstones.len());
    let all = s.index.nearest(query, fetch, effort(s.kind));
    lemma_nearest_sound(s, query, fetch, effort(s.kind));
    lemma_filter_hits(all, keep);
    let kept = all.filter(keep);
    let hits = indexed_hits(s, query, limit);
    assert forall|i: int| 0 <= i < hits.len() implies {
        let r = (#[trigger] hits[i]).1;
        &&& s.records.dom().contains(r.id)
        &&& s.records[r.id] == r
        &&& hits[i].0 == similarity(query, r.vector)
        &&& r.id == kept[i].0
    } by {
        let h = kept[i];
        all.lemma_filter_pred(keep, i);
        assert(kept.contains(h));
        all.lemma_filter_contains_rev(keep, h);
        let n = choose|n: int| 0 <= n < all.len() && all[n] == h;
        assert(is_scored_entry(s.index.entries, query, all[n]));
        assert(s.records.dom().contains(h.0));
        assert(record_fits(s, h.0));
    }
    assert forall|i: int, j: int| 0 <= i < j < hits.len() implies (#[trigger] hits[i]).1.id != (
    #[trigger] hits[j]).1.id && hits[i].0.total_rank() >= hits[j].0.total_rank() by {
        assert(kept[i].0 != kept[j].0);
        assert(hits[i].1.id == kept[i].0 && hits[j].1.id == kept[j].0);
    }
}

/// Deleted ids that the index still holds never crowd out live records: a
/// search comes up to its limit, or gives all that the index found but for the
/// deleted ids.
pub proof fn lemma_deletions_do_not_shrink(s: DbView, query: Seq<F32>, limit: nat)
    requires
        consistent(s),
    ensures
        ({
            let found = s.index.nearest(
                query,
                fetch_size(limit, s.tombstones.len()),
                effort(s.kind),
            );
            indexed_hits(s, query, limit).len() == limit || indexed_hits(s, query, limit).len()
                + s.tombstones.len() >= found.len()
        }),
{
    let keep = live(s.records);
    let fetch = fetch_size(limit, s.tombstones.len());
    let all = s.index.nearest(query, fetch, effort(s.kind));
    lemma_nearest_sound(s, query, fetch, effort(s.kind));
    lemma_dropped_ids(all, keep);
    let d = dropped_ids(all, keep);
    assert forall|id: u64| d.contains(id) implies s.tombstones.contains(id) by {
        let i = choose|i: int| 0 <= i < all.len() && (#[trigger] all[i]).0 == id && !keep(all[i]);
        assert(is_scored_entry(s.index.entries, query, all[i]));
        let e = choose|e: int|
            0 <= e < s.index.entries.len() && #[trigger] s.index.entries[e].0 == all[i].0
                && similarity(query, s.index.entries[e].1) == all[i].1;
        assert(s.index.ids()[e] == id);
        assert(s.index.ids().to_set().contains(s.index.ids()[e]));
    }
    assert(d.subset_of(s.tombstones));
    vstd::set_lib::lemma_len_subset(d, s.tombstones);
}

/// On a connected graph, and with an effort that spans it, an approximate search
/// comes up to its limit or gives every live record.
pub proof fn lemma_graph_search_complete(s: DbView, query: Seq<F32>, limit: nat)
    requires
        consistent(s),
        s.kind matches IndexKind::Hnsw(params) && params.ef_search >= s.index.entries.len(),
        limit > 0,
        s.index.entries.len() <= usize::MAX,
        forall|node: usize|
            node < s.index.entries.len() ==> #[trigger] reachable(
                s.index.graph(),
                s.index.entry->0,
                node,
            ),
    ensures
        indexed_hits(s, query, limit).len() == limit || indexed_hits(s, query, limit).len()
            >= s.records.len(),
{
    let g = s.index.graph();
    let n = s.index.entries.len();
    let fetch = fetch_size(limit, s.tombstones.len());
    let width = at_least(effort(s.kind), fetch);
    let found = explore(g, query, width);
    lemma_explore_sound(g, query, width);
    // Every node is found.
    let nodes = found.map_values(|c: Candidate| c.node as int);
    let all = vstd::set_lib::set_int_range(0, n as int);
    vstd::set_lib::lemma_int_range(0, n as int);
    assert forall|k: int| all.contains(k) implies nodes.to_set().contains(k) by {
        lemma_explore_exhaustive(g, query, width, k as usize);
        let i = choose|i: int| 0 <= i < found.len() && (#[trigger] found[i]).node == k;
        assert(nodes[i] == k);
    }
    assert(all.subset_of(nodes.to_set()));
    nodes.unique_seq_to_set();
    vstd::set_lib::lemma_len_subset(all, nodes.to_set());
    assert(found.len() == n);
    // All of them, or as many as are asked for with the deleted ids.
    lemma_deletions_do_not_shrink(s, query, limit);
    let hits = s.index.nearest(query, fetch, effort(s.kind));
    s.index.ids().unique_seq_to_set();
    vstd::set_lib::lemma_set_disjoint_lens(s.records.dom(), s.tombstones);
    assert(n == s.records.len() + s.tombstones.len());
}

/// Mapping two arrangements of the same items gives two arrangements of the same
/// images.
proof fn lemma_map_multiset<A, B>(a: Seq<A>, b: Seq<A>, f: spec_fn(A) -> B)
    requires
        a.to_multiset() == b.to_multiset(),
    ensures
        a.map_values(f).to_multiset() == b.map_values(f).to_multiset(),
    decreases a.len(),
{
    broadcast use vstd::seq_lib::group_to_multiset_ensures;

    assert(a.len() == a.to_multiset().len());
    assert(b.len() == b.to_multiset().len());
    if a.len() == 0 {
        assert(a.map_values(f) =~= b.map_values(f));
    } else {
        let x = a.last();
        let front = a.drop_last();
        assert(front.push(x) =~= a);
        assert(a.contains(x)) by {
            assert(a[a.len() - 1] == x);
        }
        assert(b.contains(x)) by {
            assert(a.to_multiset().count(x) > 0);
        }
        let j = choose|j: int| 0 <= j < b.len() && b[j] == x;
        let rest = b.remove(j);
        assert(rest.to_multiset() =~= front.to_multiset());
        lemma_map_multiset(front, rest, f);
        assert(a.map_values(f) =~= front.map_values(f).push(f(x)));
        assert(rest.map_values(f) =~= b.map_values(f).remove(j));
        let m = b.map_values(f);
        assert(m.contains(f(x))) by {
            assert(m[j] == f(x));
        }
        assert(m.to_multiset().count(f(x)) > 0);
        assert(m.to_multiset() =~= m.remove(j).to_multiset().insert(f(x)));
    }
}

/// The lists hold the same number of the highest levels, in falling order: no
/// level of the first is above that of the second at the same place.
pub(crate) proof fn lemma_top_levels(
    f: spec_fn(int) -> int,
    n: int,
    a: Seq<int>,
    b: Seq<int>,
    i: int,
)
    requires
        a.len() == b.len(),
        a.no_duplicates(),
        forall|j: int| 0 <= j < a.len() ==> 0 <= #[trigger] a[j] < n,
        forall|j: int, k: int| 0 <= j <= k < a.len() ==> f(#[trigger] a[j]) >= f(#[trigger] a[k]),
        forall|j: int, k: int| 0 <= j <= k < b.len() ==> f(#[trigger] b[j]) >= f(#[trigger] b[k]),
        forall|x: int, k: int|
            #![trigger f(x), b[k]]
            0 <= x < n && !b.contains(x) && 0 <= k < b.len() ==> f(x) <= f(b[k]),
        0 <= i < a.len(),
    ensures
        f(a[i]) <= f(b[i]),
{
    if f(a[i]) > f(b[i]) {
        let p = a.take(i + 1);
        let q = b.take(i);
        assert forall|x: int| p.to_set().contains(x) implies q.to_set().contains(x) by {
            let j = choose|j: int| 0 <= j < p.len() && p[j] == x;
            assert(a[j] == x);
            assert(f(a[j]) >= f(a[i]));
            if !b.contains(x) {
                assert(f(x) <= f(b[i]));
            }
            let k = choose|k: int| 0 <= k < b.len() && b[k] == x;
            if k >= i {
                assert(f(b[i]) >= f(b[k]));
            }
            assert(q[k] == x);
        }
        assert(p.no_duplicates());
        p.unique_seq_to_set();
        vstd::seq_lib::seq_to_set_is_finite(q);
        assert(p.to_set().subset_of(q.to_set()));
        vstd::set_lib::lemma_len_subset(p.to_set(), q.to_set());
        q.lemma_cardinality_of_set();
    }
}

/// Filling an exact index and filling a graph take the same vectors and fix the
/// same dimension.
proof fn lemma_filled_alike(
    params: AnnParams,
    dimension: Option<usize>,
    entries: Seq<(u64, Seq<F32>)>,
)
    ensures
        match filled(blank(IndexKind::Hnsw(params), dimension), entries) {
            Err(e) => filled(blank(IndexKind::Exact, dimension), entries) == Err::<
                IndexModel,
                VectorDbError,
            >(e),
            Ok(m) => filled(blank(IndexKind::Exact, dimension), entries) matches Ok(b) && {
                &&& b.dimension == m.dimension
                &&& b.entries == m.entries
                &&& b.entries == entries
                &&& b.kind == IndexKind::Exact
                &&& m.kind == IndexKind::Hnsw(params)
            },
        },
    decreases entries.len(),
{
    if entries.len() > 0 {
        lemma_filled_alike(params, dimension, entries.drop_last());
        assert(entries.drop_last().push(entries.last()) =~= entries);
    } else {
        assert(entries =~= Seq::empty());
    }
}

/// A graph of at most `max_neighbors + 1` vectors is complete.
pub proof fn lemma_small_graph_complete(
    params: AnnParams,
    dimension: Option<usize>,
    entries: Seq<(u64, Seq<F32>)>,
)
    requires
        dimension != Some(0usize),
        entries.len() <= params.max_neighbors + 1,
        entries.len() <= usize::MAX,
        forall|i: int| 0 <= i < entries.len() ==> (#[trigger] entries[i]).1.len() <= usize::MAX,
    ensures
        filled(blank(IndexKind::Hnsw(params), dimension), entries) matches Ok(m) ==> complete(
            m.graph(),
        ),
    decreases entries.len(),
{
    if entries.len() > 0 {
        let front = entries.drop_last();
        let last = entries.last();
        assert forall|i: int| 0 <= i < front.len() implies (#[trigger] front[i]).1.len()
            <= usize::MAX by {
            assert(front[i] == entries[i]);
        }
        lemma_small_graph_complete(params, dimension, front);
        lemma_degrees_bounded(params, dimension, front);
        if let Ok(m) = filled(blank(IndexKind::Hnsw(params), dimension), front) {
            lemma_complete_grown(
                m.graph(),
                last.1,
                params.max_neighbors as nat,
                params.ef_construction as nat,
            );
            let next = m.push(last.0, last.1);
            assert(next.vectors() =~= m.vectors().push(last.1));
            lemma_grown(
                m.graph(),
                last.1,
                params.max_neighbors as nat,
                params.ef_construction as nat,
            );
            assert(next.graph() == grown(
                m.graph(),
                last.1,
                params.max_neighbors as nat,
                params.ef_construction as nat,
            ));
        }
    }
}

/// Entries with their scores and places.
spec fn placed_entries(entries: Seq<(u64, Seq<F32>)>, query: Seq<F32>) -> Seq<Placed> {
    Seq::new(
        entries.len(),
        |i: int|
            Placed {
                score: similarity(query, entries[i].1),
                id: entries[i].0,
                place: i as usize,
            },
    )
}

/// The best entries, by place: distinct, their scores falling, and none that is
/// left out scores higher.
proof fn lemma_best_places(entries: Seq<(u64, Seq<F32>)>, query: Seq<F32>, k: nat)
    requires
        entries.len() <= usize::MAX,
    ensures
        ({
            let exact = best(entries, query, k);
            let order = ranking(placed_entries(entries, query));
            let places = first(order, k).map_values(|p: Placed| p.place as int);
            &&& order.len() == entries.len()
            &&& places.len() == exact.len()
            &&& places.no_duplicates()
            &&& forall|i: int|
                0 <= i < places.len() ==> 0 <= #[trigger] places[i] < entries.len() && exact[i] == (
                    entries[places[i]].0,
                    similarity(query, entries[places[i]].1),
                )
            &&& forall|i: int, j: int|
                0 <= i <= j < places.len() ==> similarity(
                    query,
                    entries[#[trigger] places[i]].1,
                ).level() >= similarity(query, entries[#[trigger] places[j]].1).level()
            &&& forall|x: int, i: int|
                #![trigger entries[x], places[i]]
                0 <= x < entries.len() && !places.contains(x) && 0 <= i < places.len()
                    ==> similarity(query, entries[x].1).level() <= similarity(
                    query,
                    entries[places[i]].1,
                ).level()
        }),
{
    let w = placed_entries(entries, query);
    let order = ranking(w);
    let plain = scores(entries, query);
    let exact = best(entries, query, k);
    let places = first(order, k).map_values(|p: Placed| p.place as int);
    lemma_ranking(w);
    lemma_ranking(plain);
    assert(w.no_duplicates()) by {
        assert forall|i: int, j: int| 0 <= i < w.len() && 0 <= j < w.len() && i != j implies w[i]
            != w[j] by {
            assert(w[i].place == i && w[j].place == j);
        }
    }
    lemma_ranking_distinct(w);
    // The ranking of the hits is that of the places.
    let f = hit_of();
    assert(w.map_values(f) =~= plain);
    lemma_map_multiset(order, w, f);
    let mapped = order.map_values(f);
    assert forall|i: int, j: int| 0 <= i < j < mapped.len() implies <(u64, F32) as Ranked>::ahead(
        #[trigger] mapped[i],
        #[trigger] mapped[j],
    ) by {
        assert(Placed::ahead(order[i], order[j]));
    }
    assert(mapped == ranking(plain));
    assert forall|i: int| 0 <= i < order.len() implies (#[trigger] order[i]).place < w.len()
        && order[i] == w[order[i].place as int] by {
        assert(order.contains(order[i]));
        lemma_ranking_members(w, order[i]);
        let e = choose|e: int| 0 <= e < w.len() && w[e] == order[i];
        assert(w[e].place == e);
    }
    assert forall|i: int| 0 <= i < places.len() implies 0 <= #[trigger] places[i] < entries.len()
        && exact[i] == (entries[places[i]].0, similarity(query, entries[places[i]].1)) by {
        assert(order[i] == w[order[i].place as int]);
        assert(exact[i] == mapped[i]);
    }
    assert(places.no_duplicates()) by {
        assert forall|i: int, j: int|
            0 <= i < places.len() && 0 <= j < places.len() && i != j implies places[i]
            != places[j] by {
            assert(order[i] != order[j]);
            assert(order[i] == w[order[i].place as int] && order[j] == w[order[j].place as int]);
        }
    }
    assert forall|i: int, j: int| 0 <= i <= j < places.len() implies similarity(
        query,
        entries[#[trigger] places[i]].1,
    ).level() >= similarity(query, entries[#[trigger] places[j]].1).level() by {
        assert(order[i] == w[order[i].place as int] && order[j] == w[order[j].place as int]);
        if i < j {
            assert(Placed::ahead(order[i], order[j]));
        }
    }
    assert forall|x: int, i: int|
        #![trigger entries[x], places[i]]
        0 <= x < entries.len() && !places.contains(x) && 0 <= i < places.len() implies similarity(
        query,
        entries[x].1,
    ).level() <= similarity(query, entries[places[i]].1).level() by {
        assert(w.contains(w[x]));
        lemma_ranking_members(w, w[x]);
        let j = choose|j: int| 0 <= j < order.len() && order[j] == w[x];
        if j < places.len() {
            assert(places[j] == x);
        }
        assert(Placed::ahead(order[i], order[j]));
        assert(order[i] == w[order[i].place as int]);
    }
}

/// The hits of a walk over a graph.
pub open spec fn walked_hits(
    g: Graph,
    entries: Seq<(u64, Seq<F32>)>,
    query: Seq<F32>,
    k: nat,
    ef: nat,
) -> Seq<(u64, F32)> {
    if k == 0 {
        Seq::empty()
    } else {
        hits_of(entries, first(explore(g, query, at_least(ef, k)), k))
    }
}

/// The hits are as many as the best `k` entries, with the same scores in the same
/// order; and they are the same, where all scores differ.
pub open spec fn agrees_with_best(
    found: Seq<(u64, F32)>,
    entries: Seq<(u64, Seq<F32>)>,
    query: Seq<F32>,
    k: nat,
) -> bool {
    let exact = best(entries, query, k);
    &&& found.len() == exact.len()
    &&& found.len() == if k < entries.len() {
        k
    } else {
        entries.len()
    }
    &&& forall|i: int|
        0 <= i < found.len() ==> F32::same_number((#[trigger] found[i]).1, exact[i].1)
    &&& (forall|a: int, b: int|
        0 <= a < b < entries.len() ==> !F32::same_number(
            similarity(query, (#[trigger] entries[a]).1),
            similarity(query, (#[trigger] entries[b]).1),
        )) ==> found == exact
}

/// On a complete graph approximate search is exact, whatever its effort, where no
/// score is undefined.
pub proof fn lemma_complete_graph_exact(
    g: Graph,
    entries: Seq<(u64, Seq<F32>)>,
    query: Seq<F32>,
    k: nat,
    ef: nat,
)
    requires
        g.valid(),
        complete(g),
        g.vectors == entries.map_values(|e: (u64, Seq<F32>)| e.1),
        forall|i: int|
            0 <= i < entries.len() ==> !similarity(query, (#[trigger] entries[i]).1).nan(),
    ensures
        agrees_with_best(walked_hits(g, entries, query, k, ef), entries, query, k),
{
    let n = entries.len();
    lemma_best_places(entries, query, k);
    lemma_best(entries, query, k);
    let exact = best(entries, query, k);
    let found = walked_hits(g, entries, query, k, ef);
    if n == 0 {
        assert(found =~= exact);
    } else if k == 0 {
        assert(found =~= exact);
    } else {
        let width = at_least(ef, k);
        let entry = g.entry->0;
        assert(hub(g, entry, n)) by {
            assert forall|i: int| 0 <= i < n implies below(#[trigger] g.neighbors[i], n) by {}
            assert forall|j: usize| j < n && j != entry implies
                #[trigger] g.neighbors[entry as int].contains(j) by {}
        }
        assert(scores_defined(g, query, n)) by {
            assert forall|x: usize| x < n implies !(
            #[trigger] g.candidate(query, x)).similarity.nan() by {
                assert(g.vectors[x as int] == entries[x as int].1);
            }
        }
        lemma_hub_explored(g, query, width, entry, n);
        lemma_explore_sound(g, query, width);
        let walked = explore(g, query, width);
        let top = first(walked, k);
        let nodes = top.map_values(|c: Candidate| c.node as int);
        let order = ranking(placed_entries(entries, query));
        let places = first(order, k).map_values(|p: Placed| p.place as int);
        let f = |x: int| similarity(query, entries[x].1).level();
        assert forall|i: int| 0 <= i < nodes.len() implies 0 <= #[trigger] nodes[i] < n && found[i]
            == (entries[nodes[i]].0, similarity(query, entries[nodes[i]].1)) by {
            assert(walked[i] == g.candidate(query, walked[i].node));
            assert(g.vectors[nodes[i]] == entries[nodes[i]].1);
        }
        assert(nodes.no_duplicates()) by {
            assert forall|i: int, j: int|
                0 <= i < nodes.len() && 0 <= j < nodes.len() && i != j implies nodes[i]
                != nodes[j] by {
                if i < j {
                    assert(walked[i].node != walked[j].node);
                } else {
                    assert(walked[j].node != walked[i].node);
                }
            }
        }
        assert forall|i: int, j: int| 0 <= i <= j < nodes.len() implies f(#[trigger] nodes[i])
            >= f(#[trigger] nodes[j]) by {
            assert(found[i].1 == walked[i].similarity && found[j].1 == walked[j].similarity);
            if i < j {
                assert(Candidate::ahead(walked[i], walked[j]));
            }
        }
        assert forall|x: int, i: int|
            #![trigger f(x), nodes[i]]
            0 <= x < n && !nodes.contains(x) && 0 <= i < nodes.len() implies f(x)
            <= f(nodes[i]) by {
            assert(found[i].1 == walked[i].similarity);
            assert(g.vectors[x] == entries[x].1);
            if holds_node(walked, x) {
                let j = choose|j: int| 0 <= j < walked.len() && (#[trigger] walked[j]).node == x;
                if j < nodes.len() {
                    assert(nodes[j] == x);
                }
                assert(Candidate::ahead(walked[i], walked[j]));
                assert(walked[j] == g.candidate(query, walked[j].node));
            } else {
                let all = Seq::new(n, |y: int| true);
                assert(all[x]);
                assert(node_level(g, query, x) <= walked[i].similarity.level());
            }
        }
        assert forall|i: int, j: int| 0 <= i <= j < places.len() implies f(#[trigger] places[i])
            >= f(#[trigger] places[j]) by {}
        assert forall|x: int, i: int|
            #![trigger f(x), places[i]]
            0 <= x < n && !places.contains(x) && 0 <= i < places.len() implies f(x)
            <= f(places[i]) by {
            let _ = entries[x];
        }
        assert(nodes.len() == places.len());
        assert forall|i: int| 0 <= i < found.len() implies F32::same_number(
            (#[trigger] found[i]).1,
            exact[i].1,
        ) && f(nodes[i]) == f(places[i]) by {
            lemma_top_levels(f, n as int, nodes, places, i);
            lemma_top_levels(f, n as int, places, nodes, i);
            let (a, b) = (nodes[i], places[i]);
            assert(!similarity(query, entries[a].1).nan());
            assert(!similarity(query, entries[b].1).nan());
        }
        if forall|a: int, b: int|
            0 <= a < b < entries.len() ==> !F32::same_number(
                similarity(query, (#[trigger] entries[a]).1),
                similarity(query, (#[trigger] entries[b]).1),
            ) {
            assert forall|i: int| 0 <= i < found.len() implies found[i] == exact[i] by {
                let (a, b) = (nodes[i], places[i]);
                assert(F32::same_number(found[i].1, exact[i].1));
                if a < b {
                    assert(!F32::same_number(
                        similarity(query, entries[a].1),
                        similarity(query, entries[b].1),
                    ));
                } else if b < a {
                    assert(!F32::same_number(
                        similarity(query, entries[b].1),
                        similarity(query, entries[a].1),
                    ));
                }
            }
            assert(found =~= exact);
        }
    }
}

/// With so few vectors that every node can link to every other, approximate
/// search is exact, whatever its effort: where no score is undefined, it gives
/// as many hits as an exact index over the same vectors, with the same scores in
/// the same order; and the same ids, where all scores differ.
pub proof fn lemma_small_graph_exact(
    params: AnnParams,
    dimension: Option<usize>,
    entries: Seq<(u64, Seq<F32>)>,
    query: Seq<F32>,
    k: nat,
    ef: nat,
)
    requires
        dimension != Some(0usize),
        entries.len() <= params.max_neighbors + 1,
        entries.len() <= usize::MAX,
        forall|i: int| 0 <= i < entries.len() ==> (#[trigger] entries[i]).1.len() <= usize::MAX,
        filled(blank(IndexKind::Hnsw(params), dimension), entries) is Ok,
        forall|i: int|
            0 <= i < entries.len() ==> !similarity(query, (#[trigger] entries[i]).1).nan(),
    ensures
        ({
            let graph = filled(blank(IndexKind::Hnsw(params), dimension), entries)->Ok_0;
            &&& agrees_with_best(graph.nearest(query, k, ef), entries, query, k)
            &&& filled(blank(IndexKind::Exact, dimension), entries) matches Ok(plain) && {
                &&& plain.dimension == graph.dimension
                &&& plain.nearest(query, k, 0) == best(entries, query, k)
            }
        }),
{
    let graph = filled(blank(IndexKind::Hnsw(params), dimension), entries)->Ok_0;
    lemma_filled_alike(params, dimension, entries);
    lemma_degrees_bounded(params, dimension, entries);
    lemma_small_graph_complete(params, dimension, entries);
    lemma_complete_graph_exact(graph.graph(), entries, query, k, ef);
}

/// Hits whose metadata holds every pair of the filter.
pub open spec fn hit_matches(filter: Seq<(Seq<char>, Seq<char>)>) -> spec_fn(
    (F32, RecordView),
) -> bool {
    |hit: (F32, RecordView)| pairs_match(hit.1.metadata, filter)
}

/// Places whose record's metadata holds every pair of the filter.
spec fn place_matches(
    list: Seq<RecordView>,
    filter: Seq<(Seq<char>, Seq<char>)>,
) -> spec_fn(Placed) -> bool {
    |p: Placed| pairs_match(list[p.place as int].metadata, filter)
}

/// Picking hits and picking places is the same.
proof fn lemma_filter_resolved(
    list: Seq<RecordView>,
    order: Seq<Placed>,
    filter: Seq<(Seq<char>, Seq<char>)>,
)
    ensures
        resolved(list, order).filter(hit_matches(filter)) == resolved(
            list,
            order.filter(place_matches(list, filter)),
        ),
    decreases order.len(),
{
    reveal(Seq::filter);
    let hits = resolved(list, order);
    if order.len() > 0 {
        let front = order.drop_last();
        lemma_filter_resolved(list, front, filter);
        assert(hits.drop_last() =~= resolved(list, front));
        let kept = front.filter(place_matches(list, filter));
        assert(resolved(list, kept.push(order.last())) =~= resolved(list, kept).push(hits.last()));
    } else {
        assert(resolved(list, order.filter(place_matches(list, filter))) =~= hits);
    }
}

/// No id occurs twice in the list.
pub open spec fn distinct_records(list: Seq<RecordView>) -> bool {
    forall|i: int, j: int|
        0 <= i < j < list.len() ==> (#[trigger] list[i]).id != (#[trigger] list[j]).id
}

/// Distinct places of a list with distinct ids make distinct hits.
proof fn lemma_distinct_hits(list: Seq<RecordView>, query: Seq<F32>, order: Seq<Placed>)
    requires
        distinct_records(list),
        order.no_duplicates(),
        forall|i: int|
            0 <= i < order.len() ==> (#[trigger] order[i]).place < list.len() && order[i] == placed(
                list,
                query,
            )[order[i].place as int],
    ensures
        order.map_values(hit_of()).no_duplicates(),
{
    let hits = order.map_values(hit_of());
    assert forall|i: int, j: int| 0 <= i < hits.len() && 0 <= j < hits.len() && i != j implies
        hits[i] != hits[j] by {
        assert(order[i] != order[j]);
        let (a, b) = (order[i].place as int, order[j].place as int);
        assert(a != b);
        if a < b {
            assert(list[a].id != list[b].id);
        } else {
            assert(list[b].id != list[a].id);
        }
    }
}

/// Hits of ranked places are ranked.
proof fn lemma_ranked_hits(order: Seq<Placed>)
    requires
        ranked(order),
    ensures
        ranked(order.map_values(hit_of())),
{
    let hits = order.map_values(hit_of());
    assert forall|i: int, j: int| 0 <= i < j < hits.len() implies <(u64, F32) as Ranked>::ahead(
        #[trigger] hits[i],
        #[trigger] hits[j],
    ) by {
        assert(Placed::ahead(order[i], order[j]));
    }
}

/// A filtered search is the unfiltered ranking of all records with the others
/// left out: it gives the first `limit` of them that match.
pub proof fn lemma_filter_is_selection(
    list: Seq<RecordView>,
    query: Seq<F32>,
    limit: nat,
    filter: Seq<(Seq<char>, Seq<char>)>,
)
    requires
        list.len() <= usize::MAX,
        distinct_records(list),
    ensures
        exact_hits(list, query, limit, filter) == first(
            exact_hits(list, query, list.len(), Seq::empty()).filter(hit_matches(filter)),
            limit,
        ),
{
    let none = Seq::<(Seq<char>, Seq<char>)>::empty();
    let keep = matching(filter);
    let chosen = list.filter(keep);
    let (plain, few) = (placed(list, query), placed(chosen, query));
    let (order, short) = (ranking(plain), ranking(few));
    lemma_no_filter(list, none);
    list.lemma_filter_len(keep);
    lemma_placed_ranking(list, query);
    lemma_placed_ranking(chosen, query);
    lemma_ranking(plain);
    lemma_ranking(few);
    assert(plain.no_duplicates()) by {
        assert forall|i: int, j: int|
            0 <= i < plain.len() && 0 <= j < plain.len() && i != j implies plain[i]
            != plain[j] by {
            assert(plain[i].place == i && plain[j].place == j);
        }
    }
    assert(few.no_duplicates()) by {
        assert forall|i: int, j: int|
            0 <= i < few.len() && 0 <= j < few.len() && i != j implies few[i] != few[j] by {
            assert(few[i].place == i && few[j].place == j);
        }
    }
    lemma_ranking_distinct(plain);
    lemma_ranking_distinct(few);
    // All hits, and those that match.
    let all = exact_hits(list, query, list.len(), none);
    assert(all == resolved(list, order));
    let pick = place_matches(list, filter);
    let picked = order.filter(pick);
    lemma_filter_resolved(list, order, filter);
    lemma_filter_ranked(order, pick);
    lemma_filter_no_duplicates(order, pick);
    assert forall|i: int| 0 <= i < picked.len() implies (#[trigger] picked[i]).place < list.len()
        && picked[i] == plain[picked[i].place as int] && pick(picked[i]) by {
        assert(picked.contains(picked[i]));
        order.lemma_filter_contains_rev(pick, picked[i]);
        let k = choose|k: int| 0 <= k < order.len() && order[k] == picked[i];
        assert(order[k] == plain[order[k].place as int]);
        order.lemma_filter_pred(pick, i);
    }
    // The chosen records have distinct ids as well.
    assert forall|i: int| 0 <= i < chosen.len() implies list.contains(#[trigger] chosen[i])
        && keep(chosen[i]) by {
        assert(chosen.contains(chosen[i]));
        list.lemma_filter_contains_rev(keep, chosen[i]);
        list.lemma_filter_pred(keep, i);
    }
    assert(list.no_duplicates());
    lemma_filter_no_duplicates(list, keep);
    assert(distinct_records(chosen)) by {
        assert forall|i: int, j: int| 0 <= i < j < chosen.len() implies (#[trigger] chosen[i]).id
            != (#[trigger] chosen[j]).id by {
            assert(chosen[i] != chosen[j]);
            let a = choose|a: int| 0 <= a < list.len() && list[a] == chosen[i];
            let b = choose|b: int| 0 <= b < list.len() && list[b] == chosen[j];
            assert(list.contains(chosen[i]) && list.contains(chosen[j]));
            if a < b {
                assert(list[a].id != list[b].id);
            } else if b < a {
                assert(list[b].id != list[a].id);
            }
        }
    }
    // Both rankings give the same hits.
    let x = picked.map_values(hit_of());
    let y = short.map_values(hit_of());
    lemma_ranked_hits(picked);
    lemma_ranked_hits(short);
    lemma_distinct_hits(list, query, picked);
    lemma_distinct_hits(chosen, query, short);
    assert forall|h: (u64, F32)| #[trigger] x.contains(h) <==> y.contains(h) by {
        if x.contains(h) {
            let i = choose|i: int| 0 <= i < x.len() && x[i] == h;
            let a = picked[i].place as int;
            assert(pick(picked[i]));
            assert(keep(list[a]));
            list.lemma_filter_contains(keep, a);
            let j = choose|j: int| 0 <= j < chosen.len() && chosen[j] == list[a];
            assert(few.contains(few[j]));
            lemma_ranking_members(few, few[j]);
            let k = choose|k: int| 0 <= k < short.len() && short[k] == few[j];
            assert(y[k] == h);
        }
        if y.contains(h) {
            let k = choose|k: int| 0 <= k < y.len() && y[k] == h;
            let j = short[k].place as int;
            assert(short[k] == few[j]);
            assert(list.contains(chosen[j]) && keep(chosen[j]));
            let a = choose|a: int| 0 <= a < list.len() && list[a] == chosen[j];
            assert(plain.contains(plain[a]));
            lemma_ranking_members(plain, plain[a]);
            let n = choose|n: int| 0 <= n < order.len() && order[n] == plain[a];
            assert(pick(order[n]));
            order.lemma_filter_contains(pick, n);
            let i = choose|i: int| 0 <= i < picked.len() && picked[i] == order[n];
            assert(x[i] == h);
        }
    }
    lemma_ranked_unique(x, y);
    // And so the same records.
    let (found, expected) = (resolved(list, picked), resolved(chosen, short));
    assert(found.len() == x.len() && expected.len() == y.len());
    assert forall|i: int| 0 <= i < found.len() implies found[i] == expected[i] by {
        assert(x[i] == y[i]);
        let (a, j) = (picked[i].place as int, short[i].place as int);
        assert(short[i] == few[j]);
        assert(list.contains(chosen[j]));
        let b = choose|b: int| 0 <= b < list.len() && list[b] == chosen[j];
        if a < b {
            assert(list[a].id != list[b].id);
        } else if b < a {
            assert(list[b].id != list[a].id);
        }
    }
    assert(found =~= expected);
    assert(resolved(chosen, first(short, limit)) =~= first(expected, limit));
}

/// The records of a consistent collection have distinct ids.
pub(crate) proof fn lemma_listed_distinct(s: DbView)
    requires
        consistent(s),
    ensures
        distinct_records(listed(s.records)),
        listed(s.records).len() == s.records.len(),
{
    let list = listed(s.records);
    let ids = in_order(s.records.dom());
    lemma_listed(s.records);
    lemma_in_order(s.records.dom());
    assert forall|i: int, j: int| 0 <= i < j < list.len() implies (#[trigger] list[i]).id != (
    #[trigger] list[j]).id by {
        assert(s.records.dom().contains(ids[i]) && s.records.dom().contains(ids[j]));
        assert(record_fits(s, ids[i]) && record_fits(s, ids[j]));
        assert(ids[i] != ids[j]);
    }
}

/// Whatever the filter, a search of a collection with an exact index is the exact
/// search of its records; and so is every filtered search, whatever the index.
pub proof fn lemma_search_exact(
    s: DbView,
    query: Seq<F32>,
    limit: nat,
    filter: Seq<(Seq<char>, Seq<char>)>,
)
    requires
        consistent(s),
        fits_memory(s),
        s.kind == IndexKind::Exact || filter.len() > 0,
        check_vector(s.dimension, query) is Ok,
    ensures
        searched(s, query, limit, filter) == Ok::<Seq<(F32, RecordView)>, VectorDbError>(
            exact_hits(listed(s.records), query, limit, filter),
        ),
{
    if filter.len() == 0 {
        assert(filter =~= Seq::empty());
        lemma_exact_search(s, query, limit);
    } else if limit == 0 {
        lemma_listed(s.records);
        lemma_exact_hits_sound(listed(s.records), query, 0, filter);
        assert(exact_hits(listed(s.records), query, 0, filter) =~= Seq::empty());
    }
}

/// Filtered search stays exact. Of two consistent collections with the same
/// records and dimension, let the first have an exact index and `all` be its
/// ranking of everything. A filtered search of the first gives the first `limit`
/// hits of `all` that match the filter; and a search of the second gives the
/// same, whatever its index, where the filter is not empty.
pub proof fn lemma_filtered_search(
    s: DbView,
    t: DbView,
    query: Seq<F32>,
    limit: nat,
    filter: Seq<(Seq<char>, Seq<char>)>,
)
    requires
        consistent(s),
        consistent(t),
        fits_memory(s),
        fits_memory(t),
        s.kind == IndexKind::Exact,
        t.records == s.records,
        t.dimension == s.dimension,
        check_vector(s.dimension, query) is Ok,
    ensures
        searched(s, query, usize::MAX as nat, Seq::empty()) matches Ok(all) && {
            &&& searched(s, query, limit, filter) == Ok::<Seq<(F32, RecordView)>, VectorDbError>(
                first(all.filter(hit_matches(filter)), limit),
            )
            &&& filter.len() > 0 ==> searched(t, query, limit, filter) == searched(
                s,
                query,
                limit,
                filter,
            )
            &&& filter.len() == 0 ==> searched(s, query, limit, filter) == Ok::<
                Seq<(F32, RecordView)>,
                VectorDbError,
            >(first(all, limit))
        },
{
    let none = Seq::<(Seq<char>, Seq<char>)>::empty();
    let list = listed(s.records);
    let n = list.len();
    let big = usize::MAX as nat;
    lemma_listed_distinct(s);
    lemma_search_exact(s, query, big, none);
    lemma_search_exact(s, query, limit, filter);
    if filter.len() > 0 {
        lemma_search_exact(t, query, limit, filter);
    }
    lemma_filter_is_selection(list, query, limit, filter);
    // Everything is within the largest limit.
    let all = exact_hits(list, query, big, none);
    lemma_no_filter(list, none);
    lemma_placed_ranking(list, query);
    assert(all == exact_hits(list, query, n, none));
    if filter.len() == 0 {
        assert(filter =~= none);
        let order = ranking(placed(list, query));
        assert(exact_hits(list, query, limit, none) =~= first(all, limit));
    }
}

/// An upsert that succeeds puts the record under its id and nothing else: every
/// other record stays, the number of records grows where the id was new, and the
/// dimension is that of the record. From then on the id is scored by the new
/// vector only. Upserting the same record again changes no record, and no search
/// of a collection with an exact index.
pub proof fn lemma_upsert_law(
    s: DbView,
    r: RecordView,
    query: Seq<F32>,
    limit: nat,
    filter: Seq<(Seq<char>, Seq<char>)>,
)
    requires
        consistent(s),
        r.vector.len() <= usize::MAX,
        fits_memory(upserted(s, r).0),
        upserted(s, r).1 is Ok,
        check_vector(upserted(s, r).0.dimension, query) is Ok,
    ensures
        ({
            let t = upserted(s, r).0;
            let u = upserted(t, r).0;
            &&& consistent(t)
            &&& t.records.dom().contains(r.id) && t.records[r.id] == r
            &&& forall|id: u64|
                id != r.id ==> (#[trigger] t.records.dom().contains(id)
                    <==> s.records.dom().contains(id)) && (s.records.dom().contains(id)
                    ==> t.records[id] == s.records[id])
            &&& t.records.len() == s.records.len() + if s.records.dom().contains(r.id) {
                0nat
            } else {
                1
            }
            &&& t.dimension == Some(r.vector.len() as usize)
            &&& searched(t, query, limit, filter) matches Ok(hits) && forall|i: int|
                0 <= i < hits.len() && (#[trigger] hits[i]).1.id == r.id ==> hits[i] == (
                    similarity(query, r.vector),
                    r,
                )
            &&& upserted(t, r).1 is Ok
            &&& consistent(u)
            &&& u.records == t.records
            &&& u.dimension == t.dimension
            &&& s.kind == IndexKind::Exact ==> searched(u, query, limit, filter) == searched(
                t,
                query,
                limit,
                filter,
            )
        }),
{
    let t = upserted(s, r).0;
    let u = upserted(t, r).0;
    lemma_upsert(s, r);
    // A hit of this id is this record.
    lemma_listed(t.records);
    let list = listed(t.records);
    if limit == 0 {
    } else if filter.len() == 0 {
        lemma_search_sound(t, query, limit);
    } else {
        lemma_exact_hits_sound(list, query, limit, filter);
        let hits = exact_hits(list, query, limit, filter);
        assert forall|i: int| 0 <= i < hits.len() && (#[trigger] hits[i]).1.id
            == r.id implies hits[i] == (similarity(query, r.vector), r) by {
            assert(list.contains(hits[i].1));
            let k = choose|k: int| 0 <= k < list.len() && list[k] == hits[i].1;
            let id = in_order(t.records.dom())[k];
            assert(t.records.dom().contains(id));
            assert(record_fits(t, id));
        }
    }
    // Once more.
    assert(record_fits(t, r.id));
    assert(t.records.insert(r.id, r) =~= t.records);
    lemma_compact(t);
    assert(u == rebuilt(holding(t, r)).0);
    assert(holding(t, r) == t);
    if s.kind == IndexKind::Exact {
        lemma_search_exact(u, query, limit, filter);
        lemma_search_exact(t, query, limit, filter);
    }
}

} // verus!
