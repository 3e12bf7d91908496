//! Records, metadata, search results, and vector validation.

use crate::error::VectorDbError;
use crate::float::F32;
use vstd::prelude::*;
use vstd::utf8::{encode_utf8, encode_utf8_decode_utf8};

verus! {

/// Lexicographic order of byte strings.
pub open spec fn bytes_less(a: Seq<u8>, b: Seq<u8>) -> bool
    decreases a.len(),
{
    if b.len() == 0 {
        false
    } else if a.len() == 0 {
        true
    } else {
        a[0] < b[0] || (a[0] == b[0] && bytes_less(a.skip(1), b.skip(1)))
    }
}

/// The order of metadata keys: that of their UTF-8 bytes.
pub open spec fn key_less(a: Seq<char>, b: Seq<char>) -> bool {
    bytes_less(encode_utf8(a), encode_utf8(b))
}

/// The pairs stand in strictly ascending order of their keys.
pub open spec fn keys_ascending(pairs: Seq<(Seq<char>, Seq<char>)>) -> bool {
    forall|i: int, j: int|
        0 <= i < j < pairs.len() ==> key_less(#[trigger] pairs[i].0, #[trigger] pairs[j].0)
}

/// How many leading keys stand before `key`.
pub open spec fn key_rank(pairs: Seq<(Seq<char>, Seq<char>)>, key: Seq<char>) -> nat
    decreases pairs.len(),
{
    if pairs.len() == 0 || !key_less(pairs[0].0, key) {
        0
    } else {
        1 + key_rank(pairs.skip(1), key)
    }
}

/// The pairs after `value` has been put under `key`.
pub open spec fn pairs_insert(
    pairs: Seq<(Seq<char>, Seq<char>)>,
    key: Seq<char>,
    value: Seq<char>,
) -> Seq<(Seq<char>, Seq<char>)> {
    let at = key_rank(pairs, key) as int;
    if at < pairs.len() && pairs[at].0 == key {
        pairs.update(at, (key, value))
    } else {
        pairs.insert(at, (key, value))
    }
}

/// The value under `key`.
pub open spec fn pairs_get(pairs: Seq<(Seq<char>, Seq<char>)>, key: Seq<char>) -> Option<
    Seq<char>,
> {
    let at = key_rank(pairs, key) as int;
    if at < pairs.len() && pairs[at].0 == key {
        Some(pairs[at].1)
    } else {
        None
    }
}

/// Every pair of `filter` is among `pairs`.
pub open spec fn pairs_match(
    pairs: Seq<(Seq<char>, Seq<char>)>,
    filter: Seq<(Seq<char>, Seq<char>)>,
) -> bool {
    forall|i: int|
        0 <= i < filter.len() ==> pairs_get(pairs, (#[trigger] filter[i]).0) == Some(filter[i].1)
}

proof fn lemma_bytes_less_irreflexive(a: Seq<u8>)
    ensures
        !bytes_less(a, a),
    decreases a.len(),
{
    if a.len() > 0 {
        lemma_bytes_less_irreflexive(a.skip(1));
    }
}

proof fn lemma_bytes_less_transitive(a: Seq<u8>, b: Seq<u8>, c: Seq<u8>)
    requires
        bytes_less(a, b),
        bytes_less(b, c),
    ensures
        bytes_less(a, c),
    decreases a.len(),
{
    if a.len() > 0 && a[0] == b[0] && b[0] == c[0] {
        lemma_bytes_less_transitive(a.skip(1), b.skip(1), c.skip(1));
    }
}

proof fn lemma_bytes_less_total(a: Seq<u8>, b: Seq<u8>)
    ensures
        a == b || bytes_less(a, b) || bytes_less(b, a),
    decreases a.len(),
{
    if a.len() == 0 || b.len() == 0 {
        if a.len() == b.len() {
            assert(a =~= b);
        }
    } else if a[0] == b[0] {
        lemma_bytes_less_total(a.skip(1), b.skip(1));
        if a.skip(1) == b.skip(1) {
            assert(a =~= seq![a[0]] + a.skip(1));
            assert(b =~= seq![b[0]] + b.skip(1));
        }
    }
}

/// The order of keys is a strict total order.
pub proof fn lemma_key_order(a: Seq<char>, b: Seq<char>, c: Seq<char>)
    ensures
        !key_less(a, a),
        key_less(a, b) && key_less(b, c) ==> key_less(a, c),
        a == b || key_less(a, b) || key_less(b, a),
{
    lemma_bytes_less_irreflexive(encode_utf8(a));
    if key_less(a, b) && key_less(b, c) {
        lemma_bytes_less_transitive(encode_utf8(a), encode_utf8(b), encode_utf8(c));
    }
    lemma_bytes_less_total(encode_utf8(a), encode_utf8(b));
    encode_utf8_decode_utf8(a);
    encode_utf8_decode_utf8(b);
}

/// What `key_rank` counts, among keys in ascending order.
proof fn lemma_key_rank(pairs: Seq<(Seq<char>, Seq<char>)>, key: Seq<char>)
    ensures
        key_rank(pairs, key) <= pairs.len(),
        forall|i: int| 0 <= i < key_rank(pairs, key) ==> key_less(#[trigger] pairs[i].0, key),
        key_rank(pairs, key) < pairs.len() ==> !key_less(pairs[key_rank(pairs, key) as int].0, key),
    decreases pairs.len(),
{
    if pairs.len() > 0 && key_less(pairs[0].0, key) {
        let rest = pairs.skip(1);
        lemma_key_rank(rest, key);
        assert forall|i: int| 0 <= i < key_rank(pairs, key) implies key_less(
            #[trigger] pairs[i].0,
            key,
        ) by {
            if i > 0 {
                assert(pairs[i] == rest[i - 1]);
            }
        }
    }
}

/// `key_rank` is the only place with smaller keys before it and none at it.
pub proof fn lemma_key_rank_is(pairs: Seq<(Seq<char>, Seq<char>)>, key: Seq<char>, at: int)
    requires
        0 <= at <= pairs.len(),
        forall|i: int| 0 <= i < at ==> key_less(#[trigger] pairs[i].0, key),
        at < pairs.len() ==> !key_less(pairs[at].0, key),
    ensures
        key_rank(pairs, key) == at,
{
    lemma_key_rank(pairs, key);
    let k = key_rank(pairs, key) as int;
    if k < at {
        assert(key_less(pairs[k].0, key));
    } else if at < k {
        assert(key_less(pairs[at].0, key));
    }
}

/// Putting a value under a key keeps the order of the keys, gives that value
/// for that key from then on, and leaves every other key as it was.
pub proof fn lemma_pairs_insert(
    pairs: Seq<(Seq<char>, Seq<char>)>,
    key: Seq<char>,
    value: Seq<char>,
    other: Seq<char>,
)
    requires
        keys_ascending(pairs),
    ensures
        keys_ascending(pairs_insert(pairs, key, value)),
        pairs_get(pairs_insert(pairs, key, value), key) == Some(value),
        other != key ==> pairs_get(pairs_insert(pairs, key, value), other) == pairs_get(
            pairs,
            other,
        ),
{
    lemma_key_rank(pairs, key);
    let at = key_rank(pairs, key) as int;
    let next = pairs_insert(pairs, key, value);
    let replaced = at < pairs.len() && pairs[at].0 == key;
    lemma_key_order(key, key, key);
    // Where each pair of the result comes from.
    assert forall|i: int| 0 <= i < next.len() implies #[trigger] next[i] == (if i == at {
        (key, value)
    } else if i < at || replaced {
        pairs[i]
    } else {
        pairs[i - 1]
    }) by {}
    // What stands behind the place is greater than the key.
    assert forall|i: int| at <= i < pairs.len() && pairs[i].0 != key implies key_less(
        key,
        #[trigger] pairs[i].0,
    ) by {
        lemma_key_order(pairs[at].0, key, key);
        lemma_key_order(key, pairs[at].0, pairs[i].0);
        if i > at {
            assert(key_less(pairs[at].0, pairs[i].0));
        }
    }
    assert forall|i: int| at < i < pairs.len() implies key_less(key, #[trigger] pairs[i].0) by {
        assert(key_less(pairs[at].0, pairs[i].0));
        if pairs[i].0 == key {
            assert(false);
        }
    }
    assert forall|i: int, j: int| 0 <= i < j < next.len() implies key_less(
        #[trigger] next[i].0,
        #[trigger] next[j].0,
    ) by {
        let _ = next[i];
        let _ = next[j];
    }
    lemma_key_rank_is(next, key, at);
    if other != key {
        lemma_key_rank(pairs, other);
        let r = key_rank(pairs, other) as int;
        lemma_key_order(other, key, key);
        if key_less(other, key) {
            // The place of `other` does not come after that of `key`.
            if r > at {
                assert(key_less(pairs[at].0, other));
                lemma_key_order(pairs[at].0, other, key);
                assert(false);
            }
            lemma_key_order(key, other, key);
            assert forall|i: int| 0 <= i < r implies key_less(#[trigger] next[i].0, other) by {
                assert(next[i] == pairs[i]);
            }
            lemma_key_rank_is(next, other, r);
            if r == at && at < pairs.len() && pairs[at].0 == other {
                assert(false);
            }
        } else {
            lemma_key_order(key, other, key);
            assert(key_less(key, other));
            if r < at {
                assert(key_less(pairs[r].0, key));
                lemma_key_order(pairs[r].0, key, other);
                assert(false);
            }
            let r2 = if replaced {
                r
            } else {
                r + 1
            };
            if replaced && r == at {
                assert(false);
            }
            assert forall|i: int| 0 <= i < r2 implies key_less(#[trigger] next[i].0, other) by {
                let _ = next[i];
            }
            lemma_key_rank_is(next, other, r2);
        }
    }
}

/// The value found under a key is the one that a pair of that key holds, and
/// none is found only where no pair has the key.
pub proof fn lemma_pairs_get(
    pairs: Seq<(Seq<char>, Seq<char>)>,
    key: Seq<char>,
    value: Seq<char>,
)
    requires
        keys_ascending(pairs),
    ensures
        pairs_get(pairs, key) == Some(value) <==> pairs.contains((key, value)),
        pairs_get(pairs, key) is None <==> forall|i: int|
            0 <= i < pairs.len() ==> (#[trigger] pairs[i]).0 != key,
{
    lemma_key_rank(pairs, key);
    let at = key_rank(pairs, key) as int;
    assert forall|i: int|
        0 <= i < pairs.len() && (#[trigger] pairs[i]).0 == key implies i == at by {
        lemma_key_order(key, key, key);
        if i < at {
            assert(key_less(pairs[i].0, key));
        } else if at < i {
            assert(key_less(pairs[at].0, pairs[i].0));
        }
    }
    if pairs.contains((key, value)) {
        let i = choose|i: int| 0 <= i < pairs.len() && pairs[i] == (key, value);
        assert(pairs[i].0 == key);
    }
    if pairs_get(pairs, key) == Some(value) {
        assert(pairs[at] == (key, value));
    }
}

/// Each pair of a filter that pairs match is one of them.
pub proof fn lemma_pairs_found(
    pairs: Seq<(Seq<char>, Seq<char>)>,
    filter: Seq<(Seq<char>, Seq<char>)>,
    i: int,
)
    requires
        pairs_match(pairs, filter),
        0 <= i < filter.len(),
    ensures
        pairs.contains(filter[i]),
{
    assert(pairs_get(pairs, filter[i].0) == Some(filter[i].1));
    assert(pairs[key_rank(pairs, filter[i].0) as int] == filter[i]);
}

/// A record matches a filter exactly where each pair of the filter, its key with
/// its whole value, is one of the record's pairs.
pub proof fn lemma_match_is_membership(
    pairs: Seq<(Seq<char>, Seq<char>)>,
    filter: Seq<(Seq<char>, Seq<char>)>,
)
    requires
        keys_ascending(pairs),
    ensures
        pairs_match(pairs, filter) <==> forall|i: int|
            0 <= i < filter.len() ==> pairs.contains(#[trigger] filter[i]),
{
    assert forall|i: int| 0 <= i < filter.len() implies (pairs_get(
        pairs,
        (#[trigger] filter[i]).0,
    ) == Some(filter[i].1) <==> pairs.contains(filter[i])) by {
        lemma_pairs_get(pairs, filter[i].0, filter[i].1);
        assert(filter[i] == (filter[i].0, filter[i].1));
    }
    if forall|i: int| 0 <= i < filter.len() ==> pairs.contains(#[trigger] filter[i]) {
        assert forall|i: int| 0 <= i < filter.len() implies pairs_get(
            pairs,
            (#[trigger] filter[i]).0,
        ) == Some(filter[i].1) by {
            assert(pairs.contains(filter[i]));
        }
    }
}

/// Putting a value under a key makes that pair one of the pairs, drops the pair
/// that had the key before, and neither drops nor adds any other.
pub proof fn lemma_insert_membership(
    pairs: Seq<(Seq<char>, Seq<char>)>,
    key: Seq<char>,
    value: Seq<char>,
    other: Seq<char>,
    held: Seq<char>,
)
    requires
        keys_ascending(pairs),
    ensures
        keys_ascending(pairs_insert(pairs, key, value)),
        pairs_insert(pairs, key, value).contains((key, held)) <==> held == value,
        other != key ==> (pairs_insert(pairs, key, value).contains((other, held))
            <==> pairs.contains((other, held))),
{
    let next = pairs_insert(pairs, key, value);
    lemma_pairs_insert(pairs, key, value, other);
    lemma_pairs_get(next, key, held);
    lemma_pairs_get(next, other, held);
    lemma_pairs_get(pairs, other, held);
}

/// String key/value metadata attached to a [`Record`]: its pairs, in ascending
/// order of the keys.
#[derive(Debug, PartialEq)]
pub struct Metadata {
    entries: Vec<(String, String)>,
}

impl View for Metadata {
    type V = Seq<(Seq<char>, Seq<char>)>;

    closed spec fn view(&self) -> Seq<(Seq<char>, Seq<char>)> {
        self.entries@.map_values(|e: (String, String)| (e.0@, e.1@))
    }
}

/// Whether the key `a` stands before the key `b`.
fn key_before(a: &String, b: &String) -> (r: bool)
    ensures
        r == key_less(a@, b@),
{
    let x: &[u8] = a.as_str().as_bytes();
    let y: &[u8] = b.as_str().as_bytes();
    let mut i: usize = 0;
    assert(x@.skip(0) =~= x@ && y@.skip(0) =~= y@);
    while i < x.len() && i < y.len()
        invariant
            i <= x@.len(),
            i <= y@.len(),
            x@ == encode_utf8(a@),
            y@ == encode_utf8(b@),
            bytes_less(x@, y@) == bytes_less(x@.skip(i as int), y@.skip(i as int)),
        decreases x@.len() - i,
    {
        assert(x@.skip(i as int).skip(1) =~= x@.skip(i + 1));
        assert(y@.skip(i as int).skip(1) =~= y@.skip(i + 1));
        if x[i] != y[i] {
            return x[i] < y[i];
        }
        i = i + 1;
    }
    i < y.len()
}

impl Metadata {
    #[verifier::type_invariant]
    closed spec fn ascending(&self) -> bool {
        keys_ascending(self@)
    }

    pub fn new() -> (r: Self)
        ensures
            r@ == Seq::<(Seq<char>, Seq<char>)>::empty(),
    {
        let entries: Vec<(String, String)> = Vec::new();
        let r = Metadata { entries };
        assert(r@ =~= Seq::<(Seq<char>, Seq<char>)>::empty());
        r
    }

    /// The number of pairs.
    pub fn len(&self) -> (r: usize)
        ensures
            r == self@.len(),
            keys_ascending(self@),
    {
        proof {
            use_type_invariant(self);
        }
        self.entries.len()
    }

    pub fn is_empty(&self) -> (r: bool)
        ensures
            r == (self@.len() == 0),
    {
        self.entries.len() == 0
    }

    /// The `i`-th pair, in the order of the keys.
    pub fn entry(&self, i: usize) -> (r: (&String, &String))
        requires
            i < self@.len(),
        ensures
            (r.0@, r.1@) == self@[i as int],
            keys_ascending(self@),
    {
        proof {
            use_type_invariant(self);
        }
        (&self.entries[i].0, &self.entries[i].1)
    }

    fn rank(&self, key: &String) -> (at: usize)
        ensures
            at == key_rank(self@, key@),
            at <= self@.len(),
    {
        let mut at: usize = 0;
        while at < self.entries.len() && key_before(&self.entries[at].0, key)
            invariant
                at <= self@.len(),
                forall|i: int| 0 <= i < at ==> key_less(#[trigger] self@[i].0, key@),
            decreases self@.len() - at,
        {
            assert(key_less(self@[at as int].0, key@));
            at = at + 1;
        }
        proof {
            if at < self@.len() {
                assert(!key_less(self@[at as int].0, key@));
            }
            lemma_key_rank_is(self@, key@, at as int);
        }
        at
    }

    /// The value under `key`.
    pub fn get(&self, key: &String) -> (r: Option<&String>)
        ensures
            match pairs_get(self@, key@) {
                Some(value) => r matches Some(found) && found@ == value,
                None => r is None,
            },
            match r {
                Some(found) => self@.contains((key@, found@)),
                None => forall|i: int| 0 <= i < self@.len() ==> (#[trigger] self@[i]).0 != key@,
            },
    {
        let at: usize = self.rank(key);
        proof {
            use_type_invariant(self);
            lemma_pairs_get(self@, key@, key@);
            if let Some(value) = pairs_get(self@, key@) {
                lemma_pairs_get(self@, key@, value);
            }
            lemma_key_order(key@, key@, key@);
            if at < self@.len() {
                lemma_key_order(self@[at as int].0, key@, key@);
                lemma_key_rank(self@, key@);
            }
        }
        if at < self.entries.len() && !key_before(key, &self.entries[at].0) {
            Some(&self.entries[at].1)
        } else {
            None
        }
    }

    /// Whether every pair of `filter` is among these pairs.
    pub fn satisfies(&self, filter: &Metadata) -> (r: bool)
        ensures
            r == pairs_match(self@, filter@),
            r == forall|i: int| 0 <= i < filter@.len() ==> self@.contains(#[trigger] filter@[i]),
    {
        let mut i: usize = 0;
        while i < filter.entries.len()
            invariant
                i <= filter@.len(),
                forall|j: int|
                    0 <= j < i ==> pairs_get(self@, (#[trigger] filter@[j]).0) == Some(
                        filter@[j].1,
                    ),
            decreases filter@.len() - i,
        {
            let found: bool = match self.get(&filter.entries[i].0) {
                Some(value) => same_text(value, &filter.entries[i].1),
                None => false,
            };
            assert(filter@[i as int] == (
                filter.entries@[i as int].0@,
                filter.entries@[i as int].1@,
            ));
            if !found {
                proof {
                    use_type_invariant(self);
                    lemma_match_is_membership(self@, filter@);
                }
                return false;
            }
            i = i + 1;
        }
        proof {
            use_type_invariant(self);
            lemma_match_is_membership(self@, filter@);
        }
        true
    }

    /// Put `value` under `key`, and return what was there before.
    pub fn insert(&mut self, key: String, value: String) -> (r: Option<String>)
        ensures
            final(self)@ == pairs_insert(old(self)@, key@, value@),
            final(self)@.contains((key@, value@)),
            forall|other: (Seq<char>, Seq<char>)|
                other.0 != key@ ==> (#[trigger] final(self)@.contains(other)
                    <==> old(self)@.contains(other)),
            match pairs_get(old(self)@, key@) {
                Some(before) => r matches Some(found) && found@ == before,
                None => r is None,
            },
    {
        proof {
            use_type_invariant(&*self);
            lemma_insert_membership(self@, key@, value@, key@, value@);
            assert forall|other: (Seq<char>, Seq<char>)| other.0 != key@ implies (
            #[trigger] pairs_insert(self@, key@, value@).contains(other) <==> self@.contains(
                other,
            )) by {
                lemma_insert_membership(self@, key@, value@, other.0, other.1);
            }
        }
        let at: usize = self.rank(&key);
        proof {
            lemma_key_order(key@, key@, key@);
            if at < self@.len() {
                lemma_key_order(self@[at as int].0, key@, key@);
                lemma_key_rank(self@, key@);
            }
        }
        let present: bool = at < self.entries.len() && !key_before(&key, &self.entries[at].0);
        let mut entries: Vec<(String, String)> = Vec::new();
        std::mem::swap(&mut entries, &mut self.entries);
        let result = if present {
            let before = entries.remove(at);
            entries.insert(at, (key, value));
            Some(before.1)
        } else {
            entries.insert(at, (key, value));
            None
        };
        assert(entries@.map_values(|e: (String, String)| (e.0@, e.1@)) =~= pairs_insert(
            old(self)@,
            key@,
            value@,
        ));
        *self = Metadata { entries };
        result
    }
}

/// Whether two strings hold the same text.
pub fn same_text(a: &String, b: &String) -> (r: bool)
    ensures
        r == (a@ == b@),
{
    *a == *b
}

impl Default for Metadata {
    fn default() -> (r: Self)
        ensures
            r@ == Seq::<(Seq<char>, Seq<char>)>::empty(),
    {
        Metadata::new()
    }
}

impl Clone for Metadata {
    fn clone(&self) -> (r: Self)
        ensures
            r@ == self@,
    {
        proof {
            use_type_invariant(self);
        }
        let mut entries: Vec<(String, String)> = Vec::new();
        let mut i: usize = 0;
        while i < self.entries.len()
            invariant
                i <= self.entries@.len(),
                entries@.len() == i,
                forall|j: int|
                    0 <= j < i ==> (#[trigger] entries@[j]).0@ == self.entries@[j].0@
                        && entries@[j].1@ == self.entries@[j].1@,
            decreases self.entries@.len() - i,
        {
            entries.push((self.entries[i].0.clone(), self.entries[i].1.clone()));
            i = i + 1;
        }
        assert(entries@.map_values(|e: (String, String)| (e.0@, e.1@)) =~= self@);
        Metadata { entries }
    }
}

/// A stored item: an id, its embedding vector, its text, and metadata.
#[derive(Debug, PartialEq)]
pub struct Record {
    pub id: u64,
    pub vector: Vec<F32>,
    pub text: String,
    pub metadata: Metadata,
}

/// What a record holds.
pub struct RecordView {
    pub id: u64,
    pub vector: Seq<F32>,
    pub text: Seq<char>,
    pub metadata: Seq<(Seq<char>, Seq<char>)>,
}

impl View for Record {
    type V = RecordView;

    open spec fn view(&self) -> RecordView {
        RecordView {
            id: self.id,
            vector: self.vector@,
            text: self.text@,
            metadata: self.metadata@,
        }
    }
}

impl Record {
    pub fn new(id: u64, vector: Vec<F32>, text: String) -> (r: Self)
        ensures
            r.id == id,
            r.vector@ == vector@,
            r.text@ == text@,
            r.metadata@ == Seq::<(Seq<char>, Seq<char>)>::empty(),
    {
        Record { id, vector, text, metadata: Metadata::new() }
    }

    pub fn with_metadata(self, key: String, value: String) -> (r: Self)
        ensures
            r@ == (RecordView { metadata: pairs_insert(self@.metadata, key@, value@), ..self@ }),
    {
        let mut record = self;
        let _ = record.metadata.insert(key, value);
        record
    }
}

impl Clone for Record {
    fn clone(&self) -> (r: Self)
        ensures
            r@ == self@,
    {
        let vector = self.vector.clone();
        assert(vector@ =~= self.vector@);
        Record { id: self.id, vector, text: self.text.clone(), metadata: self.metadata.clone() }
    }
}

/// A search hit: a similarity score and the matching record.
#[derive(Debug, PartialEq)]
pub struct SearchResult {
    pub score: F32,
    pub record: Record,
}

impl View for SearchResult {
    type V = (F32, RecordView);

    open spec fn view(&self) -> (F32, RecordView) {
        (self.score, self.record@)
    }
}

impl Clone for SearchResult {
    fn clone(&self) -> (r: Self)
        ensures
            r@ == self@,
    {
        SearchResult { score: self.score, record: self.record.clone() }
    }
}

/// Every component is finite.
pub open spec fn all_finite(vector: Seq<F32>) -> bool {
    forall|i: int| 0 <= i < vector.len() ==> (#[trigger] vector[i]).finite()
}

/// Whether a vector can be stored or searched for.
pub open spec fn check_numbers(vector: Seq<F32>) -> Result<(), VectorDbError> {
    if vector.len() == 0 {
        Err(VectorDbError::InvalidVector("vector cannot be empty"))
    } else if !all_finite(vector) {
        Err(VectorDbError::InvalidVector("all values must be finite"))
    } else {
        Ok(())
    }
}

/// Whether a vector can stand beside vectors of the given dimension, where one
/// is fixed.
pub open spec fn check_vector(dimension: Option<usize>, vector: Seq<F32>) -> Result<
    (),
    VectorDbError,
> {
    match check_numbers(vector) {
        Err(e) => Err(e),
        Ok(_) => match dimension {
            Some(expected) => if expected != vector.len() {
                Err(VectorDbError::DimensionMismatch { expected, actual: vector.len() as usize })
            } else {
                Ok(())
            },
            None => Ok(()),
        },
    }
}

/// A vector is accepted exactly where it has components, each of them a finite
/// number (its exponent is not all ones), and as many as the dimension says, where
/// one is fixed. What is refused first is a vector without components, next one
/// with a component that is no finite number, and last the dimension.
pub proof fn lemma_accepts(dimension: Option<usize>, vector: Seq<F32>)
    requires
        vector.len() <= usize::MAX,
    ensures
        check_vector(dimension, vector) is Ok <==> {
            &&& vector.len() > 0
            &&& forall|i: int|
                0 <= i < vector.len() ==> (#[trigger] vector[i]).bits % 0x8000_0000 < 0x7f80_0000
            &&& dimension is None || dimension == Some(vector.len() as usize)
        },
        vector.len() == 0 ==> check_vector(dimension, vector) == Err::<(), VectorDbError>(
            VectorDbError::InvalidVector("vector cannot be empty"),
        ),
        forall|i: int|
            0 <= i < vector.len() && (#[trigger] vector[i]).bits % 0x8000_0000 >= 0x7f80_0000
                ==> check_vector(dimension, vector) == Err::<(), VectorDbError>(
                VectorDbError::InvalidVector("all values must be finite"),
            ),
        all_finite(vector) <==> forall|i: int|
            0 <= i < vector.len() ==> (#[trigger] vector[i]).bits % 0x8000_0000 < 0x7f80_0000,
        dimension matches Some(d) && vector.len() > 0 && all_finite(vector) && d != vector.len()
            ==> check_vector(dimension, vector) == Err::<(), VectorDbError>(
            VectorDbError::DimensionMismatch {
                expected: dimension->0,
                actual: vector.len() as usize,
            },
        ),
{
    assert forall|i: int| 0 <= i < vector.len() implies ((#[trigger] vector[i]).finite()
        <==> vector[i].bits % 0x8000_0000 < 0x7f80_0000) by {}
}

/// Vectors taken in one after the other, the first fixing the dimension where
/// it is not fixed yet: the dimension in the end, or the first refusal.
pub open spec fn accept_all(dimension: Option<usize>, vectors: Seq<Seq<F32>>) -> Result<
    Option<usize>,
    VectorDbError,
>
    decreases vectors.len(),
{
    if vectors.len() == 0 {
        Ok(dimension)
    } else {
        match accept_all(dimension, vectors.drop_last()) {
            Err(e) => Err(e),
            Ok(fixed) => match check_vector(fixed, vectors.last()) {
                Err(e) => Err(e),
                Ok(_) => Ok(Some(vectors.last().len() as usize)),
            },
        }
    }
}

/// A refusal among the first vectors is the refusal of all of them.
pub proof fn lemma_accept_fails(dimension: Option<usize>, vectors: Seq<Seq<F32>>, n: int)
    requires
        0 <= n <= vectors.len(),
        accept_all(dimension, vectors.take(n)) is Err,
    ensures
        accept_all(dimension, vectors) == accept_all(dimension, vectors.take(n)),
    decreases vectors.len() - n,
{
    if n == vectors.len() {
        assert(vectors.take(n) =~= vectors);
    } else {
        assert(vectors.take(n + 1).drop_last() =~= vectors.take(n));
        lemma_accept_fails(dimension, vectors, n + 1);
    }
}

/// Reject empty or non-finite vectors.
pub fn validate_numbers(vector: &[F32]) -> (r: Result<(), VectorDbError>)
    ensures
        r == check_numbers(vector@),
{
    if vector.len() == 0 {
        return Err(VectorDbError::InvalidVector("vector cannot be empty"));
    }
    let mut i: usize = 0;
    while i < vector.len()
        invariant
            0 < vector@.len(),
            i <= vector@.len(),
            forall|j: int| 0 <= j < i ==> (#[trigger] vector@[j]).finite(),
        decreases vector@.len() - i,
    {
        if !vector[i].is_finite() {
            return Err(VectorDbError::InvalidVector("all values must be finite"));
        }
        i = i + 1;
    }
    Ok(())
}

/// Reject empty or non-finite vectors, and those of another dimension.
pub fn validate_against(dimension: Option<usize>, vector: &[F32]) -> (r: Result<(), VectorDbError>)
    ensures
        r == check_vector(dimension, vector@),
{
    validate_numbers(vector)?;
    match dimension {
        Some(expected) => if expected != vector.len() {
            Err(VectorDbError::DimensionMismatch { expected, actual: vector.len() })
        } else {
            Ok(())
        },
        None => Ok(()),
    }
}

} // verus!
