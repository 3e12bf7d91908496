//! Exact search by scoring every vector.

use super::{entries_fit, hits_sound, is_scored_entry, scores, IndexData, IndexView, VectorIndex};
use crate::distance::cosine_similarity;
use crate::error::VectorDbError;
use crate::float::F32;
use crate::ranking::{lemma_ranking, rank, ranking, Ranked};
use crate::record::{check_vector, validate_against};
use vstd::prelude::*;

verus! {

/// An exact index: every query is scored against every stored vector.
///
/// O(n · d) per query, but with no graph to traverse it beats approximate
/// indexes on small collections and is always exactly correct.
#[derive(Debug)]
pub struct BruteForce {
    dimension: Option<usize>,
    entries: Vec<(u64, Vec<F32>)>,
}

/// The `k` best entries by score, the lower id first among equal scores.
pub open spec fn best(entries: Seq<(u64, Seq<F32>)>, query: Seq<F32>, k: nat) -> Seq<(u64, F32)> {
    let all = ranking(scores(entries, query));
    if k < all.len() {
        all.take(k as int)
    } else {
        all
    }
}

/// The best entries are sound hits, and as many as there can be.
pub proof fn lemma_best(entries: Seq<(u64, Seq<F32>)>, query: Seq<F32>, k: nat)
    ensures
        hits_sound(entries, query, k, best(entries, query, k)),
        best(entries, query, k).len() == if k < entries.len() {
            k
        } else {
            entries.len()
        },
{
    broadcast use vstd::seq_lib::group_to_multiset_ensures;

    let plain = scores(entries, query);
    let all = ranking(plain);
    lemma_ranking(plain);
    let hits = best(entries, query, k);
    assert forall|i: int| 0 <= i < hits.len() implies is_scored_entry(
        entries,
        query,
        #[trigger] hits[i],
    ) by {
        assert(all.contains(hits[i]));
        assert(all.to_multiset().count(hits[i]) > 0);
        assert(plain.contains(hits[i]));
        let e = choose|e: int| 0 <= e < plain.len() && plain[e] == hits[i];
        assert(entries[e].0 == hits[i].0);
    }
    assert forall|i: int, j: int| 0 <= i < j < hits.len() implies (
    #[trigger] hits[i]).1.total_rank() >= (#[trigger] hits[j]).1.total_rank() by {
        assert(<(u64, F32) as Ranked>::ahead(all[i], all[j]));
    }
}

impl BruteForce {
    /// The dimension that vectors must have, once fixed.
    pub closed spec fn width(&self) -> Option<usize> {
        self.dimension
    }

    /// What was inserted, in order.
    pub closed spec fn contents(&self) -> Seq<(u64, Seq<F32>)> {
        self.entries@.map_values(|e: (u64, Vec<F32>)| (e.0, e.1@))
    }

    /// Create an empty index. The dimension is fixed by the first insert.
    pub fn new() -> (r: Self)
        ensures
            r.valid(),
            r.fixed_dimension() is None,
            r.entries() == Seq::<(u64, Seq<F32>)>::empty(),
    {
        let r = BruteForce { dimension: None, entries: Vec::new() };
        assert(r.entries() =~= Seq::<(u64, Seq<F32>)>::empty());
        r
    }

    /// Create an empty index that only accepts vectors of `dimension`.
    pub fn with_dimension(dimension: usize) -> (r: Result<Self, VectorDbError>)
        ensures
            dimension == 0 ==> r == Err::<Self, VectorDbError>(
                VectorDbError::InvalidVector("dimension must be greater than zero"),
            ),
            dimension > 0 ==> r is Ok,
            r matches Ok(index) ==> {
                &&& index.valid()
                &&& index.fixed_dimension() == Some(dimension)
                &&& index.entries() == Seq::<(u64, Seq<F32>)>::empty()
            },
    {
        if dimension == 0 {
            return Err(VectorDbError::InvalidVector("dimension must be greater than zero"));
        }
        let r = BruteForce { dimension: Some(dimension), entries: Vec::new() };
        assert(r.entries() =~= Seq::<(u64, Seq<F32>)>::empty());
        Ok(r)
    }

    /// The fixed vector dimension, once known.
    pub fn dimension(&self) -> (r: Option<usize>)
        ensures
            r == self.fixed_dimension(),
    {
        self.dimension
    }
}

impl Default for BruteForce {
    fn default() -> (r: Self)
        ensures
            r.valid(),
            r.fixed_dimension() is None,
            r.entries() == Seq::<(u64, Seq<F32>)>::empty(),
    {
        BruteForce::new()
    }
}

impl Clone for BruteForce {
    fn clone(&self) -> (r: Self)
        ensures
            r.fixed_dimension() == self.fixed_dimension(),
            r.entries() == self.entries(),
    {
        let mut entries: Vec<(u64, Vec<F32>)> = Vec::new();
        let mut i: usize = 0;
        while i < self.entries.len()
            invariant
                i <= self.entries@.len(),
                entries@.len() == i,
                forall|n: int|
                    0 <= n < i ==> (#[trigger] entries@[n]).0 == self.entries@[n].0
                        && entries@[n].1@ == self.entries@[n].1@,
            decreases self.entries@.len() - i,
        {
            let vector = self.entries[i].1.clone();
            assert(vector@ =~= self.entries@[i as int].1@);
            entries.push((self.entries[i].0, vector));
            i = i + 1;
        }
        let r = BruteForce { dimension: self.dimension, entries };
        assert(r.entries() =~= self.entries());
        r
    }
}

impl VectorIndex for BruteForce {
    open spec fn valid(&self) -> bool {
        entries_fit(self.width(), self.contents())
    }

    open spec fn fixed_dimension(&self) -> Option<usize> {
        self.width()
    }

    open spec fn entries(&self) -> Seq<(u64, Seq<F32>)> {
        self.contents()
    }

    open spec fn nearest(&self, query: Seq<F32>, k: nat, ef: nat) -> Seq<(u64, F32)> {
        best(self.entries(), query, k)
    }

    open spec fn snapshot(&self) -> Option<IndexView> {
        None
    }

    proof fn lemma_sound(&self, query: Seq<F32>, k: nat, ef: nat) {
        assert(self.contents().len() == self.entries.len());
        lemma_best(self.entries(), query, k);
    }

    fn insert(&mut self, id: u64, vector: Vec<F32>) -> (r: Result<(), VectorDbError>) {
        validate_against(self.dimension, vector.as_slice())?;
        let ghost len = vector@.len() as usize;
        self.dimension = Some(vector.len());
        self.entries.push((id, vector));
        proof {
            assert(self.entries() =~= old(self).entries().push((id, vector@)));
            assert forall|i: int| 0 <= i < self.entries().len() implies check_vector(
                self.dimension,
                (#[trigger] self.entries()[i]).1,
            ) is Ok by {
                if i < old(self).entries().len() {
                    assert(self.entries()[i] == old(self).entries()[i]);
                }
            }
        }
        Ok(())
    }

    fn search(&self, query: &[F32], k: usize, ef: usize) -> (r: Result<
        Vec<(u64, F32)>,
        VectorDbError,
    >) {
        validate_against(self.dimension, query)?;
        if k == 0 {
            let none: Vec<(u64, F32)> = Vec::new();
            proof {
                lemma_best(self.entries(), query@, 0);
                assert(none@ =~= best(self.entries(), query@, 0));
            }
            return Ok(none);
        }
        let mut scored: Vec<(u64, F32)> = Vec::new();
        let mut i: usize = 0;
        while i < self.entries.len()
            invariant
                i <= self.entries@.len(),
                scored@ == scores(self.entries(), query@).take(i as int),
            decreases self.entries@.len() - i,
        {
            let score = cosine_similarity(query, self.entries[i].1.as_slice());
            scored.push((self.entries[i].0, score));
            i = i + 1;
            assert(scored@ =~= scores(self.entries(), query@).take(i as int));
        }
        assert(scored@ =~= scores(self.entries(), query@));
        let mut ranked_hits = rank(scored);
        ranked_hits.truncate(k);
        assert(ranked_hits@ =~= best(self.entries(), query@, k as nat));
        Ok(ranked_hits)
    }

    fn persist(&self) -> (r: Option<IndexData>) {
        None
    }

    fn len(&self) -> (r: usize) {
        self.entries.len()
    }

    fn is_empty(&self) -> (r: bool) {
        self.entries.len() == 0
    }
}

} // verus!
