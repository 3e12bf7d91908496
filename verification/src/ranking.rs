//! Sorting scored items.

use crate::float::{lemma_total_rank_injective, F32};
use vstd::multiset::Multiset;
use vstd::prelude::*;
use vstd::relations::{sorted_by, total_ordering};

verus! {

/// Items with an order in which they are reported, the best first.
pub trait Ranked: Sized {
    /// `a` stands before `b`, or they are the same.
    spec fn ahead(a: Self, b: Self) -> bool;

    proof fn lemma_total()
        ensures
            total_ordering(|a: Self, b: Self| Self::ahead(a, b)),
    ;

    fn is_ahead(&self, other: &Self) -> (r: bool)
        ensures
            r == Self::ahead(*self, *other),
    ;

    fn copied(&self) -> (r: Self)
        ensures
            r == *self,
    ;
}

/// The items of `items`, the best first.
pub open spec fn ranking<T: Ranked>(items: Seq<T>) -> Seq<T> {
    items.sort_by(|a: T, b: T| T::ahead(a, b))
}

/// The items stand best first.
pub open spec fn ranked<T: Ranked>(items: Seq<T>) -> bool {
    forall|i: int, j: int|
        0 <= i < j < items.len() ==> T::ahead(#[trigger] items[i], #[trigger] items[j])
}

/// The first `m` items of a list.
pub open spec fn first<T>(list: Seq<T>, m: nat) -> Seq<T> {
    if m < list.len() {
        list.take(m as int)
    } else {
        list
    }
}

/// A ranking holds the same items, as often, and stands best first; and it is
/// the only sequence that does.
pub proof fn lemma_ranking<T: Ranked>(items: Seq<T>)
    ensures
        ranked(ranking(items)),
        ranking(items).to_multiset() == items.to_multiset(),
        ranking(items).len() == items.len(),
        forall|other: Seq<T>|
            ranked(other) && #[trigger] other.to_multiset() == items.to_multiset() ==> other
                == ranking(items),
{
    broadcast use vstd::seq_lib::group_to_multiset_ensures;

    T::lemma_total();
    let leq = |a: T, b: T| T::ahead(a, b);
    items.lemma_sort_by_ensures(leq);
    let sorted = ranking(items);
    assert(sorted_by(sorted, leq));
    assert forall|i: int, j: int| 0 <= i < j < sorted.len() implies T::ahead(
        #[trigger] sorted[i],
        #[trigger] sorted[j],
    ) by {
        assert(leq(sorted[i], sorted[j]));
    }
    assert(sorted.len() == sorted.to_multiset().len());
    assert(items.len() == items.to_multiset().len());
    assert forall|other: Seq<T>|
        ranked(other) && #[trigger] other.to_multiset() == items.to_multiset() implies other
        == ranking(items) by {
        vstd::seq_lib::lemma_sorted_unique(other, sorted, leq);
    }
}

/// Items already ranked are their own ranking.
pub proof fn lemma_ranked_is_ranking<T: Ranked>(items: Seq<T>)
    requires
        ranked(items),
    ensures
        ranking(items) == items,
{
    lemma_ranking(items);
}

/// Merges two ranked runs.
fn merge<T: Ranked>(a: &Vec<T>, b: &Vec<T>) -> (out: Vec<T>)
    requires
        ranked(a@),
        ranked(b@),
    ensures
        ranked(out@),
        out@.to_multiset() == a@.to_multiset().add(b@.to_multiset()),
{
    let mut out: Vec<T> = Vec::new();
    let mut i: usize = 0;
    let mut j: usize = 0;
    proof {
        T::lemma_total();
        broadcast use vstd::seq_lib::group_to_multiset_ensures;

        assert(a@.take(0) =~= Seq::empty() && b@.take(0) =~= Seq::empty());
        assert(out@ =~= Seq::empty());
        assert(Seq::<T>::empty().to_multiset() =~= Multiset::empty());
        assert(out@.to_multiset() =~= a@.take(0).to_multiset().add(b@.take(0).to_multiset()));
    }
    while i < a.len() || j < b.len()
        invariant
            i <= a@.len(),
            j <= b@.len(),
            ranked(a@),
            ranked(b@),
            ranked(out@),
            total_ordering(|x: T, y: T| T::ahead(x, y)),
            out@.to_multiset() == a@.take(i as int).to_multiset().add(
                b@.take(j as int).to_multiset(),
            ),
            forall|n: int, m: int|
                0 <= n < out@.len() && i <= m < a@.len() ==> T::ahead(
                    #[trigger] out@[n],
                    #[trigger] a@[m],
                ),
            forall|n: int, m: int|
                0 <= n < out@.len() && j <= m < b@.len() ==> T::ahead(
                    #[trigger] out@[n],
                    #[trigger] b@[m],
                ),
        decreases a@.len() - i + (b@.len() - j),
    {
        let ghost leq = |x: T, y: T| T::ahead(x, y);
        let ghost before = out@;
        if j >= b.len() || (i < a.len() && a[i].is_ahead(&b[j])) {
            proof {
                assert(a@.take(i + 1) =~= a@.take(i as int).push(a@[i as int]));
                broadcast use vstd::seq_lib::group_to_multiset_ensures;

                assert forall|m: int| j <= m < b@.len() implies T::ahead(
                    a@[i as int],
                    #[trigger] b@[m],
                ) by {
                    assert(leq(a@[i as int], b@[j as int]));
                    if m > j {
                        assert(leq(b@[j as int], b@[m]));
                    }
                }
            }
            out.push(a[i].copied());
            i = i + 1;
        } else {
            proof {
                assert(b@.take(j + 1) =~= b@.take(j as int).push(b@[j as int]));
                broadcast use vstd::seq_lib::group_to_multiset_ensures;

                assert forall|m: int| i <= m < a@.len() implies T::ahead(
                    b@[j as int],
                    #[trigger] a@[m],
                ) by {
                    assert(leq(a@[i as int], b@[j as int]) || leq(b@[j as int], a@[i as int]));
                    if m > i {
                        assert(leq(a@[i as int], a@[m]));
                    }
                }
            }
            out.push(b[j].copied());
            j = j + 1;
        }
        proof {
            broadcast use vstd::seq_lib::group_to_multiset_ensures;

            assert(out@.to_multiset() =~= a@.take(i as int).to_multiset().add(
                b@.take(j as int).to_multiset(),
            ));
            assert forall|x: T| #[trigger] T::ahead(x, x) by {
                assert(leq(x, x));
            }
        }
    }
    assert(a@.take(i as int) =~= a@ && b@.take(j as int) =~= b@);
    out
}

/// The items, the best first.
pub fn rank<T: Ranked>(items: Vec<T>) -> (out: Vec<T>)
    ensures
        out@ == ranking(items@),
    decreases items@.len(),
{
    if items.len() <= 1 {
        proof {
            lemma_ranked_is_ranking(items@);
        }
        return items;
    }
    let half: usize = items.len() / 2;
    let mut a: Vec<T> = Vec::new();
    let mut b: Vec<T> = Vec::new();
    let mut i: usize = 0;
    while i < items.len()
        invariant
            i <= items@.len(),
            half <= items@.len(),
            i <= half ==> a@ == items@.take(i as int) && b@.len() == 0,
            i > half ==> a@ == items@.take(half as int) && b@ == items@.subrange(
                half as int,
                i as int,
            ),
        decreases items@.len() - i,
    {
        if i < half {
            a.push(items[i].copied());
            assert(a@ =~= items@.take(i + 1));
        } else {
            b.push(items[i].copied());
            assert(b@ =~= items@.subrange(half as int, i + 1));
        }
        i = i + 1;
    }
    proof {
        lemma_ranking(a@);
        lemma_ranking(b@);
        assert(a@ + b@ =~= items@);
        vstd::seq_lib::lemma_multiset_commutative(a@, b@);
        lemma_ranking(items@);
    }
    let x = rank(a);
    let y = rank(b);
    merge(&x, &y)
}

/// Puts `item` at its place among ranked items.
pub fn rank_in<T: Ranked>(items: &mut Vec<T>, item: T)
    requires
        ranked(old(items)@),
    ensures
        final(items)@ == ranking(old(items)@.push(item)),
        ranked(final(items)@),
{
    let mut at: usize = 0;
    proof {
        T::lemma_total();
    }
    let ghost leq = |x: T, y: T| T::ahead(x, y);
    while at < items.len() && items[at].is_ahead(&item)
        invariant
            at <= items@.len(),
            items@ == old(items)@,
            forall|n: int| 0 <= n < at ==> T::ahead(#[trigger] items@[n], item),
        decreases items@.len() - at,
    {
        at = at + 1;
    }
    proof {
        let s = items@;
        let next = s.insert(at as int, item);
        assert forall|n: int| at <= n < s.len() implies T::ahead(item, #[trigger] s[n]) by {
            assert(leq(s[at as int], item) || leq(item, s[at as int]));
            if n > at {
                assert(leq(s[at as int], s[n]));
            }
        }
        assert forall|n: int, m: int| 0 <= n < m < next.len() implies T::ahead(
            #[trigger] next[n],
            #[trigger] next[m],
        ) by {
            let p = if n < at {
                n
            } else {
                n - 1
            };
            let q = if m < at {
                m
            } else {
                m - 1
            };
            if n != at && m != at {
                assert(T::ahead(s[p], s[q]));
            }
        }
        broadcast use vstd::seq_lib::group_to_multiset_ensures;

        vstd::seq_lib::to_multiset_insert(s, at as int, item);
        lemma_ranking(s.push(item));
    }
    items.insert(at, item);
}

/// A hit of an index: an id and its score. The higher score comes first, and
/// the lower id among equal scores.
impl Ranked for (u64, F32) {
    open spec fn ahead(a: (u64, F32), b: (u64, F32)) -> bool {
        a.1.total_rank() > b.1.total_rank() || (a.1.total_rank() == b.1.total_rank() && a.0 <= b.0)
    }

    proof fn lemma_total() {
        assert forall|a: (u64, F32), b: (u64, F32)|
            #[trigger] Self::ahead(a, b) && #[trigger] Self::ahead(b, a) implies a == b by {
            lemma_total_rank_injective(a.1, b.1);
        }
    }

    fn is_ahead(&self, other: &(u64, F32)) -> (r: bool) {
        other.1.total_lt(self.1) || (!self.1.total_lt(other.1) && self.0 <= other.0)
    }

    fn copied(&self) -> (r: (u64, F32)) {
        (self.0, self.1)
    }
}

} // verus!
