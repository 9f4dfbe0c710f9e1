//! Compaction: merging the tables of several sorted runs into one.
//!
//! Among the records of one key the one from the newest table wins. What
//! wins is kept only if it is visible: tombstones, empty records and
//! expired records leave no trace in the merged table.

use crate::bytes::{compare_bytes, copy_range, lemma_lex_irreflexive, lemma_lex_transitive, lex_lt, KeyOrder};
use crate::clock::Timestamp;
use crate::data_value::{DataValue, Record};
use crate::table::{has_key, keys_ascending, lemma_insert_at, lemma_position, position, to_map, Entries, OrderedMap, Table};
use vstd::prelude::*;

verus! {

/// The maps of tables laid over each other, later ones over earlier ones.
pub open spec fn stacked(maps: Seq<Map<Seq<u8>, Record>>) -> Map<Seq<u8>, Record>
    decreases maps.len(),
{
    if maps.len() == 0 {
        Map::empty()
    } else {
        stacked(maps.drop_last()).union_prefer_right(maps.last())
    }
}

/// The position of the newest table that holds `key`, or -1 where none does.
pub open spec fn newest_holder(maps: Seq<Map<Seq<u8>, Record>>, key: Seq<u8>) -> int
    decreases maps.len(),
{
    if maps.len() == 0 {
        -1
    } else if maps.last().contains_key(key) {
        maps.len() - 1
    } else {
        newest_holder(maps.drop_last(), key)
    }
}

/// Whether a record outlives a merge at `now`: it is no tombstone, it has a
/// payload, and it is not expired.
pub open spec fn survives(record: Record, now: Timestamp) -> bool {
    !record.is_tombstone && record.data.len() > 0 && !record.expired_at(now)
}

/// The part of a map whose records outlive a merge at `now`.
pub open spec fn surviving(m: Map<Seq<u8>, Record>, now: Timestamp) -> Map<Seq<u8>, Record> {
    Map::new(|key: Seq<u8>| m.contains_key(key) && survives(m[key], now), |key: Seq<u8>| m[key])
}

/// What a merge of the tables at `now` holds.
pub open spec fn merged(maps: Seq<Map<Seq<u8>, Record>>, now: Timestamp) -> Map<Seq<u8>, Record> {
    surviving(stacked(maps), now)
}

/// The maps of a vector of tables.
pub open spec fn maps_of(tables: Seq<Table>) -> Seq<Map<Seq<u8>, Record>> {
    Seq::new(tables.len(), |i: int| tables[i].map())
}

/// Laid over each other, the tables hold for each key the record of the
/// newest table that holds the key.
pub proof fn lemma_stacked_newest(maps: Seq<Map<Seq<u8>, Record>>, key: Seq<u8>)
    ensures
        -1 <= newest_holder(maps, key) < maps.len(),
        stacked(maps).contains_key(key) <==> newest_holder(maps, key) >= 0,
        newest_holder(maps, key) >= 0 ==> maps[newest_holder(maps, key)].contains_key(key)
            && stacked(maps)[key] == maps[newest_holder(maps, key)][key],
        forall|i: int|
            newest_holder(maps, key) < i < maps.len() ==> !(#[trigger] maps[i]).contains_key(key),
    decreases maps.len(),
{
    if maps.len() > 0 {
        lemma_stacked_newest(maps.drop_last(), key);
        assert forall|i: int| newest_holder(maps, key) < i < maps.len() implies !(
        #[trigger] maps[i]).contains_key(key) by {
            if i < maps.len() - 1 {
                assert(maps[i] == maps.drop_last()[i]);
            }
        }
        if !maps.last().contains_key(key) {
            let h = newest_holder(maps.drop_last(), key);
            if h >= 0 {
                assert(maps[h] == maps.drop_last()[h]);
            }
        }
    }
}

/// A merge produces exactly the most recent visible record of each key:
/// a key is in the merged table if and only if the newest table that holds
/// it holds a record that is no tombstone, is not empty and is not expired,
/// and then the merged table holds that record.
pub proof fn lemma_merged_newest(maps: Seq<Map<Seq<u8>, Record>>, now: Timestamp, key: Seq<u8>)
    ensures
        merged(maps, now).contains_key(key) <==> newest_holder(maps, key) >= 0 && survives(
            maps[newest_holder(maps, key)][key],
            now,
        ),
        merged(maps, now).contains_key(key) ==> merged(maps, now)[key]
            == maps[newest_holder(maps, key)][key],
{
    lemma_stacked_newest(maps, key);
}

/// The first `i + 1` entries hold what the first `i` hold and entry `i`.
pub proof fn lemma_take_next<R>(s: crate::table::Pairs<R>, i: int)
    requires
        keys_ascending(s),
        0 <= i < s.len(),
    ensures
        keys_ascending(s.take(i)),
        keys_ascending(s.take(i + 1)),
        to_map(s.take(i + 1)) == to_map(s.take(i)).insert(s[i].0, s[i].1),
        !to_map(s.take(i)).contains_key(s[i].0),
        forall|key: Seq<u8>| #[trigger]
            to_map(s.take(i)).contains_key(key) ==> lex_lt(key, s[i].0),
{
    let head = s.take(i);
    assert forall|a: int, b: int| 0 <= a < b < head.len() implies lex_lt(
        #[trigger] head[a].0,
        #[trigger] head[b].0,
    ) by {
        assert(head[a] == s[a] && head[b] == s[b]);
    }
    assert forall|a: int| 0 <= a < i implies lex_lt(#[trigger] head[a].0, s[i].0) by {
        assert(head[a] == s[a]);
    }
    lemma_insert_at(head, i, s[i].0, s[i].1);
    assert(head.insert(i, s[i]) =~= s.take(i + 1));
    assert forall|key: Seq<u8>| #[trigger] to_map(head).contains_key(key) implies lex_lt(
        key,
        s[i].0,
    ) by {
        let a = position(head, key);
        assert(head[a] == s[a]);
    }
    if to_map(head).contains_key(s[i].0) {
        lemma_lex_irreflexive(s[i].0);
    }
}

/// Merges two tables: every key of either, with the record of `newer`
/// where both hold the key.
pub fn merge_two(older: &Table, newer: &Table) -> (out: Table)
    ensures
        out.map() == older.map().union_prefer_right(newer.map()),
{
    let n = older.len();
    let m = newer.len();
    let ghost a = older@;
    let ghost b = newer@;
    let mut out = Table::new();
    let mut i: usize = 0;
    let mut j: usize = 0;
    proof {
        assert(a.take(0) =~= Seq::<(Seq<u8>, Record)>::empty());
        assert(b.take(0) =~= Seq::<(Seq<u8>, Record)>::empty());
        assert(to_map(a.take(0)).union_prefer_right(to_map(b.take(0))) =~= Map::<
            Seq<u8>,
            Record,
        >::empty());
    }
    while i < n || j < m
        invariant
            i <= n,
            j <= m,
            n == a.len(),
            m == b.len(),
            a == older@,
            b == newer@,
            keys_ascending(a),
            keys_ascending(b),
            out.map() == to_map(a.take(i as int)).union_prefer_right(to_map(b.take(j as int))),
            out@.len() > 0 && i < n ==> lex_lt(out@.last().0, a[i as int].0),
            out@.len() > 0 && j < m ==> lex_lt(out@.last().0, b[j as int].0),
        decreases (n - i) + (m - j),
    {
        let ghost before = out.map();
        let _ = out.len();
        let take_older = if i < n && j < m {
            match compare_bytes(older.key_at(i), newer.key_at(j)) {
                KeyOrder::Before => 1u8,
                KeyOrder::Same => 0u8,
                KeyOrder::After => 2u8,
            }
        } else if i < n {
            1u8
        } else {
            2u8
        };
        if take_older == 1u8 {
            let key = older.key_at(i);
            let owned = copy_range(key, 0, key.len());
            assert(owned@ =~= key@);
            let value = older.value_at(i).duplicate();
            proof {
                lemma_take_next(a, i as int);
                if i + 1 < n {
                    assert(lex_lt(a[i as int].0, a[i as int + 1].0));
                }
                assert(to_map(a.take(i as int + 1)).union_prefer_right(to_map(b.take(j as int)))
                    =~= before.insert(owned@, value@)) by {
                    if to_map(b.take(j as int)).contains_key(owned@) {
                        assert(before.contains_key(owned@));
                        let p = position(out@, owned@);
                        lemma_last_key(out@, p);
                        lemma_lex_irreflexive(owned@);
                        if p < out@.len() - 1 {
                            lemma_lex_transitive(out@[p].0, out@.last().0, owned@);
                        }
                    }
                }
            }
            out.push(owned, value);
            i += 1;
        } else {
            let key = newer.key_at(j);
            let owned = copy_range(key, 0, key.len());
            assert(owned@ =~= key@);
            let value = newer.value_at(j).duplicate();
            proof {
                lemma_take_next(b, j as int);
                if j + 1 < m {
                    assert(lex_lt(b[j as int].0, b[j as int + 1].0));
                }
                if take_older == 0u8 {
                    lemma_take_next(a, i as int);
                    if i + 1 < n {
                        assert(lex_lt(a[i as int].0, a[i as int + 1].0));
                    }
                    assert(to_map(a.take(i as int + 1)).union_prefer_right(
                        to_map(b.take(j as int + 1)),
                    ) =~= before.insert(owned@, value@));
                } else {
                    assert(to_map(a.take(i as int)).union_prefer_right(
                        to_map(b.take(j as int + 1)),
                    ) =~= before.insert(owned@, value@));
                    if i < n {
                        crate::bytes::lemma_lex_trichotomy(a[i as int].0, b[j as int].0);
                    }
                }
            }
            out.push(owned, value);
            if take_older == 0u8 {
                i += 1;
            }
            j += 1;
        }
    }
    proof {
        assert(a.take(n as int) =~= a);
        assert(b.take(m as int) =~= b);
    }
    out
}

/// A key of ascending entries comes before the last key or is the last key.
pub proof fn lemma_last_key<R>(s: crate::table::Pairs<R>, p: int)
    requires
        keys_ascending(s),
        0 <= p < s.len(),
    ensures
        p < s.len() - 1 ==> lex_lt(s[p].0, s.last().0),
        p == s.len() - 1 ==> s[p].0 == s.last().0,
{
}

/// Whether a record outlives a merge at `now`.
pub fn outlives(value: &DataValue, now: &Timestamp) -> (b: bool)
    ensures
        b == survives(value@, *now),
{
    !value.is_tombstone() && !value.is_empty() && !value.is_expired_at(now)
}

/// The entries of a table that outlive a merge at `now`.
pub fn retain_visible(table: &Table, now: &Timestamp) -> (out: Table)
    ensures
        out.map() == surviving(table.map(), *now),
{
    let n = table.len();
    let ghost a = table@;
    let mut out = Table::new();
    let mut i: usize = 0;
    proof {
        assert(a.take(0) =~= Seq::<(Seq<u8>, Record)>::empty());
        assert(surviving(to_map(a.take(0)), *now) =~= Map::<Seq<u8>, Record>::empty());
    }
    while i < n
        invariant
            i <= n,
            n == a.len(),
            a == table@,
            keys_ascending(a),
            out.map() == surviving(to_map(a.take(i as int)), *now),
            out@.len() > 0 && i < n ==> lex_lt(out@.last().0, a[i as int].0),
        decreases n - i,
    {
        let ghost before = out.map();
        proof {
            lemma_take_next(a, i as int);
            if i + 1 < n {
                assert(lex_lt(a[i as int].0, a[i as int + 1].0));
                if out@.len() > 0 {
                    lemma_lex_transitive(out@.last().0, a[i as int].0, a[i as int + 1].0);
                }
            }
        }
        let value = table.value_at(i);
        if outlives(value, now) {
            let key = table.key_at(i);
            let owned = copy_range(key, 0, key.len());
            assert(owned@ =~= key@);
            let copy = value.duplicate();
            assert(surviving(to_map(a.take(i as int + 1)), *now) =~= before.insert(
                owned@,
                copy@,
            ));
            out.push(owned, copy);
        } else {
            assert(surviving(to_map(a.take(i as int + 1)), *now) =~= before);
        }
        i += 1;
    }
    proof {
        assert(a.take(n as int) =~= a);
    }
    out
}

/// The records of a table that are not expired at `now`.
pub open spec fn unexpired(m: Map<Seq<u8>, Record>, now: Timestamp) -> Map<Seq<u8>, Record> {
    Map::new(|key: Seq<u8>| m.contains_key(key) && !m[key].expired_at(now), |key: Seq<u8>| m[key])
}

/// A copy of the table without the records that are expired at `now`.
pub fn retain_unexpired(table: &Table, now: &Timestamp) -> (out: Table)
    ensures
        out.map() == unexpired(table.map(), *now),
{
    let n = table.len();
    let ghost a = table@;
    let mut out = Table::new();
    let mut i: usize = 0;
    proof {
        assert(a.take(0) =~= Seq::<(Seq<u8>, Record)>::empty());
        assert(unexpired(to_map(a.take(0)), *now) =~= Map::<Seq<u8>, Record>::empty());
    }
    while i < n
        invariant
            i <= n,
            n == a.len(),
            a == table@,
            keys_ascending(a),
            out.map() == unexpired(to_map(a.take(i as int)), *now),
            out@.len() > 0 && i < n ==> lex_lt(out@.last().0, a[i as int].0),
        decreases n - i,
    {
        let ghost before = out.map();
        proof {
            lemma_take_next(a, i as int);
            if i + 1 < n {
                assert(lex_lt(a[i as int].0, a[i as int + 1].0));
                if out@.len() > 0 {
                    lemma_lex_transitive(out@.last().0, a[i as int].0, a[i as int + 1].0);
                }
            }
        }
        let value = table.value_at(i);
        if !value.is_expired_at(now) {
            let key = table.key_at(i);
            let owned = copy_range(key, 0, key.len());
            assert(owned@ =~= key@);
            let copy = value.duplicate();
            assert(unexpired(to_map(a.take(i as int + 1)), *now) =~= before.insert(
                owned@,
                copy@,
            ));
            out.push(owned, copy);
        } else {
            assert(unexpired(to_map(a.take(i as int + 1)), *now) =~= before);
        }
        i += 1;
    }
    proof {
        assert(a.take(n as int) =~= a);
    }
    out
}

/// Lays the tables over each other, later ones over earlier ones: every
/// key of any of them, with the record of the newest table that holds it.
pub fn merge_tables_raw(tables: &Vec<Table>) -> (out: Table)
    ensures
        out.map() == stacked(maps_of(tables@)),
{
    let mut all = Table::new();
    let n = tables.len();
    let ghost maps = maps_of(tables@);
    let mut i: usize = 0;
    proof {
        assert(maps.take(0) =~= Seq::<Map<Seq<u8>, Record>>::empty());
    }
    while i < n
        invariant
            i <= n,
            n == tables@.len(),
            maps == maps_of(tables@),
            all.map() == stacked(maps.take(i as int)),
        decreases n - i,
    {
        let next = merge_two(&all, &tables[i]);
        proof {
            assert(maps.take(i as int + 1).drop_last() =~= maps.take(i as int));
            assert(maps.take(i as int + 1).last() == tables@[i as int].map());
        }
        all = next;
        i += 1;
    }
    proof {
        assert(maps.take(n as int) =~= maps);
    }
    all
}

/// Merges the tables of several runs, given from the oldest to the newest,
/// into the table of one run: for each key the record of the newest table
/// that holds the key, if that record is visible at `now`.
pub fn merge_tables(tables: &Vec<Table>, now: &Timestamp) -> (out: Table)
    ensures
        out.map() == merged(maps_of(tables@), *now),
{
    let all = merge_tables_raw(tables);
    retain_visible(&all, now)
}

} // verus!
