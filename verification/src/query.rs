//! Exact search over a list of records.

use crate::distance::similarity;
use crate::float::{lemma_total_rank_injective, F32};
use crate::ranking::{first, lemma_ranking, ranking, Ranked};
use crate::record::{pairs_match, RecordView, SearchResult};
use vstd::prelude::*;

verus! {

/// The record at a place in a list, with its score.
#[derive(Debug, Clone, Copy)]
pub struct Placed {
    pub score: F32,
    pub id: u64,
    pub place: usize,
}

/// The higher score comes first, the lower id among equal scores, and the
/// earlier place among equal ids.
impl Ranked for Placed {
    open spec fn ahead(a: Placed, b: Placed) -> bool {
        a.score.total_rank() > b.score.total_rank() || (a.score.total_rank()
            == b.score.total_rank() && (a.id < b.id || (a.id == b.id && a.place <= b.place)))
    }

    proof fn lemma_total() {
        assert forall|a: Placed, b: Placed|
            #[trigger] Self::ahead(a, b) && #[trigger] Self::ahead(b, a) implies a == b by {
            lemma_total_rank_injective(a.score, b.score);
        }
    }

    fn is_ahead(&self, other: &Placed) -> (r: bool) {
        other.score.total_lt(self.score) || (!self.score.total_lt(other.score) && (self.id
            < other.id || (self.id == other.id && self.place <= other.place)))
    }

    fn copied(&self) -> (r: Placed) {
        *self
    }
}

/// Every record of a list with its score.
pub open spec fn placed(list: Seq<RecordView>, query: Seq<F32>) -> Seq<Placed> {
    Seq::new(
        list.len(),
        |i: int|
            Placed {
                score: similarity(query, list[i].vector),
                id: list[i].id,
                place: i as usize,
            },
    )
}

/// Hits as scores and records.
pub open spec fn resolved(list: Seq<RecordView>, hits: Seq<Placed>) -> Seq<(F32, RecordView)> {
    hits.map_values(|p: Placed| (p.score, list[p.place as int]))
}

/// Records whose metadata holds every pair of the filter.
pub open spec fn matching(filter: Seq<(Seq<char>, Seq<char>)>) -> spec_fn(RecordView) -> bool {
    |r: RecordView| pairs_match(r.metadata, filter)
}

/// The `limit` best of the records that match the filter: the higher score
/// first, and the lower id among equal scores.
pub open spec fn exact_hits(
    list: Seq<RecordView>,
    query: Seq<F32>,
    limit: nat,
    filter: Seq<(Seq<char>, Seq<char>)>,
) -> Seq<(F32, RecordView)> {
    let chosen = list.filter(matching(filter));
    resolved(chosen, first(ranking(placed(chosen, query)), limit))
}

/// What search results hold.
pub open spec fn view_results(results: Seq<SearchResult>) -> Seq<(F32, RecordView)> {
    results.map_values(|r: SearchResult| r@)
}

/// Ranked records keep their scores and stand for places in the list.
pub proof fn lemma_placed_ranking(list: Seq<RecordView>, query: Seq<F32>)
    ensures
        ranking(placed(list, query)).len() == list.len(),
        forall|i: int|
            #![trigger ranking(placed(list, query))[i]]
            0 <= i < list.len() && list.len() <= usize::MAX ==> {
                let p = ranking(placed(list, query))[i];
                &&& p.place < list.len()
                &&& p == placed(list, query)[p.place as int]
            },
{
    broadcast use vstd::seq_lib::group_to_multiset_ensures;

    let plain = placed(list, query);
    let order = ranking(plain);
    lemma_ranking(plain);
    assert forall|i: int|
        #![trigger order[i]]
        0 <= i < list.len() && list.len() <= usize::MAX implies order[i].place < list.len()
        && order[i] == plain[order[i].place as int] by {
        assert(order.contains(order[i]));
        assert(order.to_multiset().count(order[i]) > 0);
        assert(plain.contains(order[i]));
        let k = choose|k: int| 0 <= k < plain.len() && plain[k] == order[i];
        assert(plain[k].place == k);
    }
}

} // verus!
