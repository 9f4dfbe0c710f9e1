//! An ordered table from keys to value records: the memtable, a frozen
//! memtable, or the contents of a sorted run.
//!
//! The table is a vector of entries in strictly ascending key order, so that
//! a key occurs once and is found by bisection.

use crate::bytes::{compare_bytes, lemma_lex_irreflexive, lemma_lex_transitive, lemma_lex_trichotomy, lex_lt, KeyOrder};
use crate::data_value::{DataValue, Record};
use vstd::prelude::*;

verus! {

/// Keys paired with what is stored under them.
pub type Pairs<R> = Seq<(Seq<u8>, R)>;

/// The entries of a table as a mathematical value: pairs of key and record.
pub type Entries = Pairs<Record>;

/// The keys stand in strictly ascending order.
pub open spec fn keys_ascending<R>(s: Pairs<R>) -> bool {
    forall|i: int, j: int| 0 <= i < j < s.len() ==> lex_lt(#[trigger] s[i].0, #[trigger] s[j].0)
}

/// Some entry has the key `k`.
pub open spec fn has_key<R>(s: Pairs<R>, k: Seq<u8>) -> bool {
    exists|i: int| 0 <= i < s.len() && (#[trigger] s[i]).0 == k
}

/// Where the key `k` stands, if some entry has it.
pub open spec fn position<R>(s: Pairs<R>, k: Seq<u8>) -> int {
    choose|i: int| 0 <= i < s.len() && (#[trigger] s[i]).0 == k
}

/// The entries as a map from key to record.
pub open spec fn to_map<R>(s: Pairs<R>) -> Map<Seq<u8>, R> {
    Map::new(|k: Seq<u8>| has_key(s, k), |k: Seq<u8>| s[position(s, k)].1)
}

/// The entries of a table in ascending key order: the one sequence of
/// entries with ascending keys that stands for the table.
pub open spec fn entries_of<R>(m: Map<Seq<u8>, R>) -> Pairs<R> {
    choose|s: Pairs<R>| keys_ascending(s) && to_map(s) == m
}

/// In ascending entries a key stands at one place only.
pub proof fn lemma_position<R>(s: Pairs<R>, i: int)
    requires
        keys_ascending(s),
        0 <= i < s.len(),
    ensures
        has_key(s, s[i].0),
        position(s, s[i].0) == i,
        to_map(s).contains_key(s[i].0),
        to_map(s)[s[i].0] == s[i].1,
{
    let k = s[i].0;
    assert(has_key(s, k));
    let p = position(s, k);
    if p < i {
        assert(lex_lt(s[p].0, s[i].0));
        lemma_lex_irreflexive(k);
    } else if i < p {
        assert(lex_lt(s[i].0, s[p].0));
        lemma_lex_irreflexive(k);
    }
}

/// Putting an entry at the place where its key belongs inserts it into the map.
pub proof fn lemma_insert_at<R>(s: Pairs<R>, at: int, k: Seq<u8>, r: R)
    requires
        keys_ascending(s),
        0 <= at <= s.len(),
        forall|i: int| 0 <= i < at ==> lex_lt(#[trigger] s[i].0, k),
        forall|i: int| at <= i < s.len() ==> lex_lt(k, #[trigger] s[i].0),
    ensures
        keys_ascending(s.insert(at, (k, r))),
        to_map(s.insert(at, (k, r))) == to_map(s).insert(k, r),
{
    let t = s.insert(at, (k, r));
    assert forall|i: int, j: int| 0 <= i < j < t.len() implies lex_lt(
        #[trigger] t[i].0,
        #[trigger] t[j].0,
    ) by {
        if j < at {
            assert(t[i] == s[i] && t[j] == s[j]);
        } else if j == at {
            assert(t[i] == s[i]);
        } else if i < at {
            assert(t[i] == s[i] && t[j] == s[j - 1]);
            if j - 1 == i {
                assert(false);
            }
        } else if i == at {
            assert(t[j] == s[j - 1]);
        } else {
            assert(t[i] == s[i - 1] && t[j] == s[j - 1]);
        }
    }
    assert forall|q: Seq<u8>| #[trigger] to_map(t).contains_key(q) <==> to_map(s).insert(
        k,
        r,
    ).contains_key(q) by {
        if has_key(t, q) {
            let i = position(t, q);
            if i < at {
                assert(s[i].0 == q);
            } else if i > at {
                assert(s[i - 1].0 == q);
            }
        }
        if has_key(s, q) {
            let i = position(s, q);
            if i < at {
                assert(t[i].0 == q);
            } else {
                assert(t[i + 1].0 == q);
            }
        }
        if q == k {
            assert(t[at].0 == q);
        }
    }
    assert forall|q: Seq<u8>| #[trigger] to_map(t).contains_key(q) implies to_map(t)[q]
        == to_map(s).insert(k, r)[q] by {
        let i = position(t, q);
        lemma_position(t, i);
        if i < at {
            assert(t[i] == s[i]);
            lemma_position(s, i);
            lemma_lex_irreflexive(k);
        } else if i > at {
            assert(t[i] == s[i - 1]);
            lemma_position(s, i - 1);
            lemma_lex_irreflexive(k);
        }
    }
    assert(to_map(t) =~= to_map(s).insert(k, r));
}

/// Replacing the record of an entry replaces it in the map.
pub proof fn lemma_update_at<R>(s: Pairs<R>, at: int, r: R)
    requires
        keys_ascending(s),
        0 <= at < s.len(),
    ensures
        keys_ascending(s.update(at, (s[at].0, r))),
        to_map(s.update(at, (s[at].0, r))) == to_map(s).insert(s[at].0, r),
{
    let k = s[at].0;
    let t = s.update(at, (k, r));
    assert forall|i: int, j: int| 0 <= i < j < t.len() implies lex_lt(
        #[trigger] t[i].0,
        #[trigger] t[j].0,
    ) by {
        assert(t[i].0 == s[i].0 && t[j].0 == s[j].0);
    }
    assert forall|q: Seq<u8>| #[trigger] to_map(t).contains_key(q) <==> to_map(s).insert(
        k,
        r,
    ).contains_key(q) by {
        if has_key(t, q) {
            let i = position(t, q);
            assert(s[i].0 == q);
        }
        if has_key(s, q) {
            let i = position(s, q);
            assert(t[i].0 == q);
        }
        if q == k {
            assert(t[at].0 == q);
        }
    }
    assert forall|q: Seq<u8>| #[trigger] to_map(t).contains_key(q) implies to_map(t)[q]
        == to_map(s).insert(k, r)[q] by {
        let i = position(t, q);
        lemma_position(t, i);
        if i != at {
            assert(t[i] == s[i]);
            lemma_position(s, i);
            lemma_position(s, at);
        }
    }
    assert(to_map(t) =~= to_map(s).insert(k, r));
}

/// Taking an entry out takes its key out of the map.
pub proof fn lemma_remove_at<R>(s: Pairs<R>, at: int)
    requires
        keys_ascending(s),
        0 <= at < s.len(),
    ensures
        keys_ascending(s.remove(at)),
        to_map(s.remove(at)) == to_map(s).remove(s[at].0),
{
    let k = s[at].0;
    let t = s.remove(at);
    assert forall|i: int, j: int| 0 <= i < j < t.len() implies lex_lt(
        #[trigger] t[i].0,
        #[trigger] t[j].0,
    ) by {
        let a = if i < at { i } else { i + 1 };
        let b = if j < at { j } else { j + 1 };
        assert(t[i] == s[a] && t[j] == s[b]);
    }
    assert forall|q: Seq<u8>| #[trigger] to_map(t).contains_key(q) <==> to_map(s).remove(
        k,
    ).contains_key(q) by {
        if has_key(t, q) {
            let i = position(t, q);
            let a = if i < at { i } else { i + 1 };
            assert(t[i] == s[a]);
            assert(s[a].0 == q);
            lemma_position(s, a);
            lemma_position(s, at);
        }
        if has_key(s, q) && q != k {
            let i = position(s, q);
            if i < at {
                assert(t[i].0 == q);
            } else {
                assert(t[i - 1].0 == q);
            }
        }
    }
    assert forall|q: Seq<u8>| #[trigger] to_map(t).contains_key(q) implies to_map(t)[q]
        == to_map(s).remove(k)[q] by {
        let i = position(t, q);
        lemma_position(t, i);
        let a = if i < at { i } else { i + 1 };
        assert(t[i] == s[a]);
        lemma_position(s, a);
    }
    assert(to_map(t) =~= to_map(s).remove(k));
}

/// A key that lies between two neighbours, or beyond an end, is absent.
pub proof fn lemma_absent<R>(s: Pairs<R>, at: int, k: Seq<u8>)
    requires
        keys_ascending(s),
        0 <= at <= s.len(),
        forall|i: int| 0 <= i < at ==> lex_lt(#[trigger] s[i].0, k),
        forall|i: int| at <= i < s.len() ==> lex_lt(k, #[trigger] s[i].0),
    ensures
        !to_map(s).contains_key(k),
{
    if has_key(s, k) {
        let i = position(s, k);
        lemma_lex_irreflexive(k);
    }
}

/// Entries in ascending key order are determined by the table that they
/// stand for.
pub proof fn lemma_entries_unique<R>(a: Pairs<R>, b: Pairs<R>)
    requires
        keys_ascending(a),
        keys_ascending(b),
        to_map(a) == to_map(b),
    ensures
        a == b,
    decreases a.len(),
{
    if a.len() == 0 {
        if b.len() > 0 {
            lemma_position(b, 0);
            assert(to_map(a).contains_key(b[0].0));
        }
        assert(a =~= b);
    } else {
        let top = a.len() - 1;
        lemma_position(a, top);
        let key = a[top].0;
        assert(to_map(b).contains_key(key));
        let j = position(b, key);
        assert(0 <= j < b.len() && b[j].0 == key);
        lemma_position(b, j);
        if j < b.len() - 1 {
            let more = b[b.len() - 1].0;
            lemma_position(b, b.len() - 1);
            assert(lex_lt(b[j].0, b[b.len() - 1].0));
            assert(to_map(a).contains_key(more));
            let i = position(a, more);
            assert(0 <= i < a.len() && a[i].0 == more);
            if i < top {
                assert(lex_lt(a[i].0, a[top].0));
                lemma_lex_transitive(key, more, key);
            }
            lemma_lex_irreflexive(key);
        }
        assert(j == b.len() - 1);
        assert(to_map(a)[key] == a[top].1);
        assert(to_map(b)[key] == b[j].1);
        lemma_remove_at(a, top);
        lemma_remove_at(b, j);
        assert(a.remove(top) =~= a.drop_last());
        assert(b.remove(j) =~= b.drop_last());
        lemma_entries_unique(a.drop_last(), b.drop_last());
        assert(a =~= a.drop_last().push(a[top]));
        assert(b =~= b.drop_last().push(b[j]));
    }
}

/// One entry of an ordered map.
#[derive(Debug)]
pub struct Entry<V> {
    pub key: Vec<u8>,
    pub value: V,
}

/// An ordered map from keys to values of `V`: entries in strictly ascending
/// key order.
#[derive(Debug)]
pub struct OrderedMap<V: View> {
    entries: Vec<Entry<V>>,
}

/// An ordered table from keys to value records.
pub type Table = OrderedMap<DataValue>;

/// The entries of a vector as pairs of key and record.
pub open spec fn pairs_of<V: View>(entries: Seq<Entry<V>>) -> Pairs<V::V> {
    Seq::new(entries.len(), |i: int| (entries[i].key@, entries[i].value@))
}

impl<V: View> View for OrderedMap<V> {
    type V = Pairs<V::V>;

    closed spec fn view(&self) -> Pairs<V::V> {
        if keys_ascending(pairs_of(self.entries@)) {
            pairs_of(self.entries@)
        } else {
            Seq::empty()
        }
    }
}

impl<V: View> OrderedMap<V> {
    #[verifier::type_invariant]
    spec fn ordered(self) -> bool {
        keys_ascending(pairs_of(self.entries@))
    }

    /// The entries of a table stand in ascending key order, so that they
    /// are the entries of the map that they stand for.
    pub proof fn lemma_view_ascending(self)
        ensures
            keys_ascending(self@),
            entries_of(self.map()) == self@,
    {
        let found = entries_of(to_map(self@));
        let strict = self@;
        assert(keys_ascending(strict) && to_map(strict) == to_map(self@));
        lemma_entries_unique(found, strict);
    }

    /// The table as a map from key to record.
    pub open spec fn map(self) -> Map<Seq<u8>, V::V> {
        to_map(self@)
    }

    /// The empty table.
    pub fn new() -> (t: Self)
        ensures
            t@.len() == 0,
            t.map() == Map::<Seq<u8>, V::V>::empty(),
    {
        let t = OrderedMap { entries: Vec::new() };
        assert(t.map() =~= Map::<Seq<u8>, V::V>::empty());
        t
    }

    /// The number of entries. Their keys stand in ascending order, as in
    /// every table.
    pub fn len(&self) -> (n: usize)
        ensures
            n == self@.len(),
            keys_ascending(self@),
    {
        proof {
            use_type_invariant(self);
        }
        self.entries.len()
    }

    pub fn is_empty(&self) -> (b: bool)
        ensures
            b == (self@.len() == 0),
    {
        proof {
            use_type_invariant(self);
        }
        self.entries.len() == 0
    }

    /// The key of the entry at `i`.
    pub fn key_at(&self, i: usize) -> (k: &[u8])
        requires
            i < self@.len(),
        ensures
            k@ == self@[i as int].0,
    {
        self.entries[i].key.as_slice()
    }

    /// The record of the entry at `i`.
    pub fn value_at(&self, i: usize) -> (v: &V)
        requires
            i < self@.len(),
        ensures
            v@ == self@[i as int].1,
    {
        &self.entries[i].value
    }

    /// Bisects for `key`: the place where it stands, or else the place where
    /// it belongs.
    pub fn search(&self, key: &[u8]) -> (r: (bool, usize))
        ensures
            r.1 <= self@.len(),
            r.0 ==> r.1 < self@.len() && self@[r.1 as int].0 == key@,
            r.0 == self.map().contains_key(key@),
            forall|i: int| 0 <= i < r.1 ==> lex_lt(#[trigger] self@[i].0, key@),
            forall|i: int|
                r.1 + (if r.0 { 1int } else { 0int }) <= i < self@.len() ==> lex_lt(
                    key@,
                    #[trigger] self@[i].0,
                ),
    {
        proof {
            use_type_invariant(self);
        }
        let mut low: usize = 0;
        let mut high: usize = self.entries.len();
        while low < high
            invariant
                low <= high <= self.entries.len(),
                self@.len() == self.entries.len(),
                keys_ascending(self@),
                forall|i: int| 0 <= i < low ==> lex_lt(#[trigger] self@[i].0, key@),
                forall|i: int| high <= i < self@.len() ==> lex_lt(key@, #[trigger] self@[i].0),
            decreases high - low,
        {
            let mid = low + (high - low) / 2;
            let order = compare_bytes(self.entries[mid].key.as_slice(), key);
            assert(self@[mid as int].0 == self.entries@[mid as int].key@);
            match order {
                KeyOrder::Same => {
                    proof {
                        lemma_position(self@, mid as int);
                        assert forall|i: int| 0 <= i < mid implies lex_lt(
                            #[trigger] self@[i].0,
                            key@,
                        ) by {
                            assert(lex_lt(self@[i].0, self@[mid as int].0));
                        }
                        assert forall|i: int| mid + 1 <= i < self@.len() implies lex_lt(
                            key@,
                            #[trigger] self@[i].0,
                        ) by {
                            assert(lex_lt(self@[mid as int].0, self@[i].0));
                        }
                    }
                    return (true, mid);
                },
                KeyOrder::Before => {
                    proof {
                        assert forall|i: int| 0 <= i < mid + 1 implies lex_lt(
                            #[trigger] self@[i].0,
                            key@,
                        ) by {
                            if i < mid {
                                assert(lex_lt(self@[i].0, self@[mid as int].0));
                                lemma_lex_transitive(self@[i].0, self@[mid as int].0, key@);
                            }
                        }
                    }
                    low = mid + 1;
                },
                KeyOrder::After => {
                    proof {
                        assert forall|i: int| mid <= i < self@.len() implies lex_lt(
                            key@,
                            #[trigger] self@[i].0,
                        ) by {
                            if mid < i {
                                assert(lex_lt(self@[mid as int].0, self@[i].0));
                                lemma_lex_transitive(key@, self@[mid as int].0, self@[i].0);
                            }
                        }
                    }
                    high = mid;
                },
            }
        }
        proof {
            lemma_absent(self@, low as int, key@);
        }
        (false, low)
    }

    /// The record stored under `key`, if there is one.
    pub fn get(&self, key: &[u8]) -> (r: Option<&V>)
        ensures
            match r {
                Some(v) => self.map().contains_key(key@) && self.map()[key@] == v@,
                None => !self.map().contains_key(key@),
            },
    {
        proof {
            use_type_invariant(self);
        }
        let (found, at) = self.search(key);
        if found {
            proof {
                lemma_position(self@, at as int);
            }
            Some(&self.entries[at].value)
        } else {
            None
        }
    }

    /// Whether some record is stored under `key`.
    pub fn contains_key(&self, key: &[u8]) -> (b: bool)
        ensures
            b == self.map().contains_key(key@),
    {
        self.search(key).0
    }

    /// Stores `value` under `key`, in place of what was stored there.
    pub fn insert(&mut self, key: Vec<u8>, value: V)
        ensures
            final(self).map() == old(self).map().insert(key@, value@),
            final(self)@.len() == old(self)@.len() + (if old(self).map().contains_key(key@) {
                0int
            } else {
                1int
            }),
    {
        proof {
            use_type_invariant(&*self);
        }
        let (found, at) = self.search(key.as_slice());
        let ghost before = self@;
        if found {
            proof {
                lemma_update_at(before, at as int, value@);
            }
            let mut entries: Vec<Entry<V>> = Vec::new();
            core::mem::swap(&mut entries, &mut self.entries);
            entries.set(at, Entry { key, value });
            assert(pairs_of(entries@) =~= before.update(at as int, (before[at as int].0, value@)));
            self.entries = entries;
            assert(self@ =~= before.update(at as int, (before[at as int].0, value@)));
        } else {
            proof {
                lemma_insert_at(before, at as int, key@, value@);
            }
            let mut entries: Vec<Entry<V>> = Vec::new();
            core::mem::swap(&mut entries, &mut self.entries);
            entries.insert(at, Entry { key, value });
            assert(pairs_of(entries@) =~= before.insert(at as int, (key@, value@)));
            self.entries = entries;
            assert(self@ =~= before.insert(at as int, (key@, value@)));
        }
    }

    /// Appends an entry whose key comes after every key of the table.
    pub fn push(&mut self, key: Vec<u8>, value: V)
        requires
            old(self)@.len() > 0 ==> lex_lt(old(self)@.last().0, key@),
        ensures
            final(self)@ == old(self)@.push((key@, value@)),
            final(self).map() == old(self).map().insert(key@, value@),
    {
        proof {
            use_type_invariant(&*self);
        }
        let ghost before = self@;
        proof {
            let n = before.len() as int;
            assert forall|i: int| 0 <= i < n implies lex_lt(#[trigger] before[i].0, key@) by {
                if i < n - 1 {
                    assert(lex_lt(before[i].0, before[n - 1].0));
                    lemma_lex_transitive(before[i].0, before[n - 1].0, key@);
                }
            }
            lemma_insert_at(before, n, key@, value@);
            assert(before.insert(n, (key@, value@)) =~= before.push((key@, value@)));
        }
        let mut entries: Vec<Entry<V>> = Vec::new();
        core::mem::swap(&mut entries, &mut self.entries);
        entries.push(Entry { key, value });
        assert(pairs_of(entries@) =~= before.push((key@, value@)));
        self.entries = entries;
        assert(self@ =~= before.push((key@, value@)));
    }

    /// Takes out what is stored under `key`.
    pub fn remove(&mut self, key: &[u8]) -> (r: Option<V>)
        ensures
            final(self).map() == old(self).map().remove(key@),
            match r {
                Some(v) => old(self).map().contains_key(key@) && old(self).map()[key@] == v@,
                None => !old(self).map().contains_key(key@),
            },
    {
        proof {
            use_type_invariant(&*self);
        }
        let (found, at) = self.search(key);
        let ghost before = self@;
        if found {
            proof {
                lemma_position(before, at as int);
                lemma_remove_at(before, at as int);
            }
            let mut entries: Vec<Entry<V>> = Vec::new();
            core::mem::swap(&mut entries, &mut self.entries);
            let entry = entries.remove(at);
            assert(pairs_of(entries@) =~= before.remove(at as int));
            self.entries = entries;
            assert(self@ =~= before.remove(at as int));
            Some(entry.value)
        } else {
            assert(self.map().remove(key@) =~= self.map());
            None
        }
    }

    /// Leaves the table empty and hands out what it held.
    pub fn take(&mut self) -> (t: OrderedMap<V>)
        ensures
            t@ == old(self)@,
            final(self)@.len() == 0,
            final(self).map() == Map::<Seq<u8>, V::V>::empty(),
    {
        proof {
            use_type_invariant(&*self);
        }
        let mut entries: Vec<Entry<V>> = Vec::new();
        core::mem::swap(&mut entries, &mut self.entries);
        let t = OrderedMap { entries };
        assert(t@ =~= old(self)@);
        assert(self.map() =~= Map::<Seq<u8>, V::V>::empty());
        t
    }

    /// Drops every entry.
    pub fn clear(&mut self)
        ensures
            final(self)@.len() == 0,
            final(self).map() == Map::<Seq<u8>, V::V>::empty(),
    {
        self.entries = Vec::new();
        assert(self.map() =~= Map::<Seq<u8>, V::V>::empty());
    }
}

impl OrderedMap<DataValue> {
    /// A copy of the table.
    pub fn duplicate(&self) -> (t: Table)
        ensures
            t@ == self@,
    {
        proof {
            use_type_invariant(self);
        }
        let mut entries: Vec<Entry<DataValue>> = Vec::new();
        let mut i: usize = 0;
        while i < self.entries.len()
            invariant
                i <= self.entries.len(),
                entries@.len() == i,
                forall|j: int|
                    0 <= j < i ==> (#[trigger] entries@[j]).key@ == self.entries@[j].key@
                        && entries@[j].value@ == self.entries@[j].value@,
            decreases self.entries.len() - i,
        {
            let key = crate::bytes::copy_range(
                self.entries[i].key.as_slice(),
                0,
                self.entries[i].key.len(),
            );
            assert(key@ =~= self.entries@[i as int].key@);
            let value = self.entries[i].value.duplicate();
            entries.push(Entry { key, value });
            i += 1;
        }
        assert(pairs_of(entries@) =~= self@);
        let t = OrderedMap { entries };
        t
    }
}

} // verus!
