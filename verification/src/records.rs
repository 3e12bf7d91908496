//! The records of a collection, by id.

use crate::record::{Record, RecordView};
use std::collections::{BTreeMap, BTreeSet};
use vstd::prelude::*;

verus! {

/// The numbers stand in strictly ascending order.
pub open spec fn ascending(ids: Seq<u64>) -> bool {
    forall|i: int, j: int| 0 <= i < j < ids.len() ==> #[trigger] ids[i] < #[trigger] ids[j]
}

/// The least element of a finite, non-empty set.
pub open spec fn least(ids: Set<u64>) -> u64 {
    choose|x: u64| ids.contains(x) && forall|y: u64| ids.contains(y) ==> x <= y
}

/// The elements of a finite set in ascending order.
pub open spec fn in_order(ids: Set<u64>) -> Seq<u64> {
    choose|s: Seq<u64>| ascending(s) && s.to_set() == ids
}

proof fn lemma_least(ids: Set<u64>)
    requires
        ids.finite(),
        ids.len() > 0,
    ensures
        ids.contains(least(ids)),
        forall|y: u64| ids.contains(y) ==> least(ids) <= y,
    decreases ids.len(),
{
    let a = ids.choose();
    let rest = ids.remove(a);
    if rest.len() == 0 {
        assert forall|y: u64| ids.contains(y) implies a <= y by {
            if y != a {
                assert(rest.contains(y));
            }
        }
        assert(ids.contains(a) && forall|y: u64| ids.contains(y) ==> a <= y);
    } else {
        lemma_least(rest);
        let b = least(rest);
        let m = if a <= b {
            a
        } else {
            b
        };
        assert forall|y: u64| ids.contains(y) implies m <= y by {
            if y != a {
                assert(rest.contains(y));
            }
        }
        assert(ids.contains(m) && forall|y: u64| ids.contains(y) ==> m <= y);
    }
}

proof fn lemma_order_exists(ids: Set<u64>) -> (s: Seq<u64>)
    requires
        ids.finite(),
    ensures
        ascending(s),
        s.to_set() == ids,
    decreases ids.len(),
{
    if ids.len() == 0 {
        let s = Seq::<u64>::empty();
        assert(s.to_set() =~= ids);
        s
    } else {
        lemma_least(ids);
        let m = least(ids);
        let rest = lemma_order_exists(ids.remove(m));
        let s = seq![m] + rest;
        assert forall|i: int, j: int| 0 <= i < j < s.len() implies #[trigger] s[i]
            < #[trigger] s[j] by {
            assert(rest[j - 1] == s[j]);
            assert(rest.to_set().contains(rest[j - 1]));
            if i > 0 {
                assert(rest[i - 1] == s[i]);
            }
        }
        assert forall|x: u64| ids.contains(x) implies s.contains(x) by {
            if x == m {
                assert(s[0] == m);
            } else {
                assert(rest.to_set().contains(x));
                let k = choose|k: int| 0 <= k < rest.len() && rest[k] == x;
                assert(s[k + 1] == x);
            }
        }
        assert forall|x: u64| s.contains(x) implies ids.contains(x) by {
            let k = choose|k: int| 0 <= k < s.len() && s[k] == x;
            if k > 0 {
                assert(rest[k - 1] == x);
                assert(rest.to_set().contains(x));
            }
        }
        assert(s.to_set() =~= ids);
        s
    }
}

proof fn lemma_order_unique(a: Seq<u64>, b: Seq<u64>)
    requires
        ascending(a),
        ascending(b),
        a.to_set() == b.to_set(),
    ensures
        a == b,
    decreases a.len(),
{
    if a.len() == 0 || b.len() == 0 {
        if a.len() > 0 {
            assert(a.to_set().contains(a[0]));
        }
        if b.len() > 0 {
            assert(b.to_set().contains(b[0]));
        }
        assert(a =~= b);
    } else {
        let (x, y) = (a.last(), b.last());
        assert(a.to_set().contains(x) && b.to_set().contains(y));
        let i = choose|i: int| 0 <= i < b.len() && b[i] == x;
        let j = choose|j: int| 0 <= j < a.len() && a[j] == y;
        assert(x <= y) by {
            if i < b.len() - 1 {
                assert(b[i] < b[b.len() - 1]);
            }
        }
        assert(y <= x) by {
            if j < a.len() - 1 {
                assert(a[j] < a[a.len() - 1]);
            }
        }
        let (p, q) = (a.drop_last(), b.drop_last());
        assert forall|z: u64| p.contains(z) <==> q.contains(z) by {
            if p.contains(z) {
                let k = choose|k: int| 0 <= k < p.len() && p[k] == z;
                assert(a[k] == z && a[k] < a[a.len() - 1]);
                assert(b.to_set().contains(z));
                let n = choose|n: int| 0 <= n < b.len() && b[n] == z;
                assert(q[n] == z);
            }
            if q.contains(z) {
                let k = choose|k: int| 0 <= k < q.len() && q[k] == z;
                assert(b[k] == z && b[k] < b[b.len() - 1]);
                assert(a.to_set().contains(z));
                let n = choose|n: int| 0 <= n < a.len() && a[n] == z;
                assert(p[n] == z);
            }
        }
        assert(p.to_set() =~= q.to_set());
        lemma_order_unique(p, q);
        assert(a =~= p.push(x));
        assert(b =~= q.push(y));
    }
}

/// The elements of a finite set have one ascending order, which holds each of
/// them once.
pub proof fn lemma_in_order(ids: Set<u64>)
    requires
        ids.finite(),
    ensures
        ascending(in_order(ids)),
        in_order(ids).to_set() == ids,
        in_order(ids).len() == ids.len(),
        in_order(ids).no_duplicates(),
        forall|s: Seq<u64>| ascending(s) && #[trigger] s.to_set() == ids ==> s == in_order(ids),
        forall|i: int| 0 <= i < in_order(ids).len() ==> ids.contains(#[trigger] in_order(ids)[i]),
{
    let s = lemma_order_exists(ids);
    let t = in_order(ids);
    assert(ascending(t) && t.to_set() == ids);
    assert(t.no_duplicates());
    t.unique_seq_to_set();
    assert forall|s: Seq<u64>| ascending(s) && #[trigger] s.to_set() == ids implies s == t by {
        lemma_order_unique(s, t);
    }
    assert forall|i: int| 0 <= i < t.len() implies ids.contains(#[trigger] t[i]) by {
        assert(t.to_set().contains(t[i]));
    }
}

/// The records in ascending order of their keys.
pub open spec fn listed(records: Map<u64, RecordView>) -> Seq<RecordView> {
    in_order(records.dom()).map_values(|id: u64| records[id])
}

/// Records by id.
#[derive(Debug, PartialEq)]
pub struct Records {
    map: BTreeMap<u64, Record>,
}

impl View for Records {
    type V = Map<u64, RecordView>;

    closed spec fn view(&self) -> Map<u64, RecordView> {
        self.map@.map_values(|r: Record| r@)
    }
}

impl Records {
    /// The records fit in memory.
    pub proof fn lemma_len(&self)
        ensures
            self@.dom().finite(),
            self@.len() <= usize::MAX,
    {
        broadcast use vstd::std_specs::btree::group_btree_axioms;
        broadcast use vstd::laws_cmp::group_laws_cmp;

        assert(vstd::laws_cmp::obeys_cmp::<u64>());
        assert(self@.dom() =~= self.map@.dom());
        assert(self.map.len() == self.map@.len());
    }

    pub fn new() -> (r: Self)
        ensures
            r@ == Map::<u64, RecordView>::empty(),
    {
        let r = Records { map: BTreeMap::new() };
        assert(r@ =~= Map::<u64, RecordView>::empty());
        r
    }

    pub fn len(&self) -> (r: usize)
        ensures
            r == self@.len(),
            self@.dom().finite(),
    {
        broadcast use vstd::std_specs::btree::group_btree_axioms;
        broadcast use vstd::laws_cmp::group_laws_cmp;

        assert(self@.dom() =~= self.map@.dom());
        self.map.len()
    }

    pub fn is_empty(&self) -> (r: bool)
        ensures
            r == (self@.len() == 0),
            self@.dom().finite(),
    {
        self.len() == 0
    }

    /// The record under `id`.
    pub fn get(&self, id: u64) -> (r: Option<&Record>)
        ensures
            r is Some <==> self@.dom().contains(id),
            r matches Some(record) ==> record@ == self@[id],
    {
        broadcast use vstd::std_specs::btree::group_btree_axioms;
        broadcast use vstd::laws_cmp::group_laws_cmp;

        self.map.get(&id)
    }

    pub fn contains(&self, id: u64) -> (r: bool)
        ensures
            r == self@.dom().contains(id),
    {
        self.get(id).is_some()
    }

    /// Put `record` under `id`, and return what was there before.
    pub fn insert(&mut self, id: u64, record: Record) -> (r: Option<Record>)
        ensures
            final(self)@ == old(self)@.insert(id, record@),
            r is Some <==> old(self)@.dom().contains(id),
            r matches Some(before) ==> before@ == old(self)@[id],
    {
        broadcast use vstd::std_specs::btree::group_btree_axioms;
        broadcast use vstd::laws_cmp::group_laws_cmp;

        let r = self.map.insert(id, record);
        assert(self@ =~= old(self)@.insert(id, record@));
        r
    }

    /// Take out the record under `id`.
    pub fn remove(&mut self, id: u64) -> (r: Option<Record>)
        ensures
            final(self)@ == old(self)@.remove(id),
            r is Some <==> old(self)@.dom().contains(id),
            r matches Some(before) ==> before@ == old(self)@[id],
    {
        broadcast use vstd::std_specs::btree::group_btree_axioms;
        broadcast use vstd::laws_cmp::group_laws_cmp;

        let r = self.map.remove(&id);
        assert(self@ =~= old(self)@.remove(id));
        r
    }

    /// The ids, in ascending order.
    pub fn ids(&self) -> (r: Vec<u64>)
        ensures
            r@ == in_order(self@.dom()),
            self@.dom().finite(),
    {
        broadcast use vstd::std_specs::btree::group_btree_axioms;
        broadcast use vstd::laws_cmp::group_laws_cmp;

        let mut out: Vec<u64> = Vec::new();
        let keys = self.map.keys();
        let ghost s: Seq<&u64> = vstd::std_specs::iter::IteratorSpec::remaining(&keys);
        proof {
            assert(vstd::laws_cmp::obeys_cmp::<u64>());
            assert(vstd::laws_cmp::obeys_cmp::<&u64>());
            assert(s.unref().to_set() == self.map@.dom());
            assert(vstd::std_specs::btree::increasing_seq(s));
        }
        for k in it: keys
            invariant
                it.seq() == s,
                out@.len() == it.index(),
                forall|i: int| 0 <= i < it.index() ==> #[trigger] out@[i] == *s[i],
        {
            out.push(*k);
        }
        proof {
            assert(out@ =~= s.unref());
            assert(self@.dom() =~= self.map@.dom());
            assert forall|i: int, j: int| 0 <= i < j < out@.len() implies #[trigger] out@[i]
                < #[trigger] out@[j] by {
                assert(vstd::std_specs::cmp::OrdSpec::cmp_spec(&s[i], &s[j]) is Less);
            }
            lemma_in_order(self@.dom());
        }
        out
    }
}

impl Clone for Records {
    fn clone(&self) -> (r: Self)
        ensures
            r@ == self@,
    {
        let ids = self.ids();
        let mut r = Records::new();
        let mut i: usize = 0;
        proof {
            lemma_in_order(self@.dom());
        }
        while i < ids.len()
            invariant
                i <= ids@.len(),
                ids@ == in_order(self@.dom()),
                forall|n: int| 0 <= n < ids@.len() ==> self@.dom().contains(#[trigger] ids@[n]),
                forall|id: u64| #[trigger]
                    r@.dom().contains(id) <==> exists|n: int| 0 <= n < i && ids@[n] == id,
                forall|id: u64| r@.dom().contains(id) ==> #[trigger] r@[id] == self@[id],
            decreases ids@.len() - i,
        {
            let id: u64 = ids[i];
            if let Some(record) = self.get(id) {
                let _ = r.insert(id, record.clone());
            }
            i = i + 1;
            assert forall|x: u64| #[trigger]
                r@.dom().contains(x) <==> exists|n: int| 0 <= n < i && ids@[n] == x by {
                if x == id {
                    assert(ids@[i - 1] == x);
                }
            }
        }
        proof {
            assert forall|id: u64| self@.dom().contains(id) implies r@.dom().contains(id) by {
                assert(ids@.to_set().contains(id));
                let n = choose|n: int| 0 <= n < ids@.len() && ids@[n] == id;
            }
            assert(r@ =~= self@);
        }
        r
    }
}

/// A set of ids.
#[derive(Debug)]
pub struct IdSet {
    set: BTreeSet<u64>,
}

impl View for IdSet {
    type V = Set<u64>;

    closed spec fn view(&self) -> Set<u64> {
        self.set@
    }
}

impl IdSet {
    #[verifier::type_invariant]
    closed spec fn bounded(&self) -> bool {
        self.set@.finite()
    }

    pub fn new() -> (r: Self)
        ensures
            r@ == Set::<u64>::empty(),
    {
        IdSet { set: BTreeSet::new() }
    }

    pub fn len(&self) -> (r: usize)
        ensures
            r == self@.len(),
            self@.finite(),
    {
        broadcast use vstd::std_specs::btree::group_btree_axioms;
        broadcast use vstd::laws_cmp::group_laws_cmp;

        proof {
            use_type_invariant(self);
        }
        self.set.len()
    }

    pub fn is_empty(&self) -> (r: bool)
        ensures
            r == (self@ == Set::<u64>::empty()),
    {
        let n: usize = self.len();
        proof {
            if n == 0 {
                assert(self@ =~= Set::<u64>::empty());
            }
        }
        n == 0
    }

    pub fn contains(&self, id: u64) -> (r: bool)
        ensures
            r == self@.contains(id),
    {
        broadcast use vstd::std_specs::btree::group_btree_axioms;
        broadcast use vstd::laws_cmp::group_laws_cmp;

        self.set.contains(&id)
    }

    /// Add `id`.
    pub fn insert(&mut self, id: u64)
        ensures
            final(self)@ == old(self)@.insert(id),
    {
        broadcast use vstd::std_specs::btree::group_btree_axioms;
        broadcast use vstd::laws_cmp::group_laws_cmp;

        proof {
            use_type_invariant(&*self);
        }
        let mut set: BTreeSet<u64> = BTreeSet::new();
        std::mem::swap(&mut set, &mut self.set);
        let _ = set.insert(id);
        *self = IdSet { set };
    }
}

} // verus!
