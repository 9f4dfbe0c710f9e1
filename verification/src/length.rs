//! The number of keys that a reader finds, and what a delete does to it.
use crate::clock::Timestamp;
use crate::data_value::Record;
use crate::merge::stacked;
use crate::table::{
    keys_ascending, lemma_entries_unique, lemma_position, lemma_update_at, to_map, Entries, Pairs,
};
use crate::tree::{
    find_in_tables, lemma_readable_runs, live_count, oldest_maps, oldest_readable, Tree,
};
use vstd::prelude::*;

verus! {

/// Entries in ascending key order are the entries of the table that they
/// stand for.
pub proof fn lemma_entries_of<R>(s: Pairs<R>)
    requires
        keys_ascending(s),
    ensures
        crate::table::entries_of(to_map(s)) == s,
{
    let found = crate::table::entries_of(to_map(s));
    assert(keys_ascending(s) && to_map(s) == to_map(s));
    lemma_entries_unique(found, s);
}

/// Where one entry gets another record, the count of live entries changes
/// by what the two records count.
pub proof fn lemma_live_count_update(entries: Entries, at: int, record: Record, now: Timestamp)
    requires
        0 <= at < entries.len(),
    ensures
        live_count(entries.update(at, (entries[at].0, record)), now) + (if entries[at].1.live_at(
            now,
        ) {
            1nat
        } else {
            0nat
        }) == live_count(entries, now) + (if record.live_at(now) {
            1nat
        } else {
            0nat
        }),
    decreases entries.len(),
{
    let changed = entries.update(at, (entries[at].0, record));
    if at == entries.len() - 1 {
        assert(changed.drop_last() =~= entries.drop_last());
    } else {
        lemma_live_count_update(entries.drop_last(), at, record, now);
        assert(changed.drop_last() =~= entries.drop_last().update(at, (entries[at].0, record)));
        assert(changed.last() == entries.last());
    }
}

/// Tables laid over older ones: the newest table that holds a key decides,
/// and the older ones where none does.
pub proof fn lemma_tables_over(
    below: Seq<Map<Seq<u8>, Record>>,
    tables: Seq<Map<Seq<u8>, Record>>,
    key: Seq<u8>,
)
    ensures
        stacked(below + tables).contains_key(key) <==> find_in_tables(tables, key) is Some
            || stacked(below).contains_key(key),
        stacked(below + tables).contains_key(key) ==> stacked(below + tables)[key] == match find_in_tables(
            tables,
            key,
        ) {
            Some(record) => record,
            None => stacked(below)[key],
        },
    decreases tables.len(),
{
    if tables.len() == 0 {
        assert(below + tables =~= below);
    } else {
        lemma_tables_over(below, tables.drop_last(), key);
        assert((below + tables).drop_last() =~= below + tables.drop_last());
        assert((below + tables).last() == tables.last());
    }
}

/// Where every run can be read, the record of a key is its record in the
/// layers of the engine, laid over each other.
pub proof fn lemma_record_in_layers(tree: Tree, key: Seq<u8>)
    requires
        oldest_readable(tree.runs(), tree.runs().len() as int),
    ensures
        tree.record_of(key) == Some(
            if stacked(tree.layers()).contains_key(key) {
                Some(stacked(tree.layers())[key])
            } else {
                None
            },
        ),
{
    let runs = tree.runs();
    let below = oldest_maps(runs, runs.len() as int);
    lemma_readable_runs(runs, below, key);
    lemma_tables_over(below, tree.frozen(), key);
    let layers = tree.layers();
    assert(layers.drop_last() =~= below + tree.frozen());
    assert(layers.last() == tree.mem());
}

/// A delete makes the engine one key shorter. Where a reader finds `key`
/// at `now`, and a tombstone is then put under it in the memtable, the
/// engine has one live key less: `before_entries` and `after_entries` are
/// the entries that `len_at` counts before and after.
pub proof fn lemma_delete_shortens(
    before: Tree,
    after: Tree,
    key: Seq<u8>,
    now: Timestamp,
    before_entries: Entries,
    after_entries: Entries,
)
    requires
        oldest_readable(before.runs(), before.runs().len() as int),
        before.visible(key, now) matches Some(Some(_)),
        after.mem() == before.mem().insert(key, Record::tombstone_at(now)),
        after.frozen() == before.frozen(),
        after.runs() == before.runs(),
        keys_ascending(before_entries),
        to_map(before_entries) == stacked(before.layers()),
        keys_ascending(after_entries),
        to_map(after_entries) == stacked(after.layers()),
    ensures
        live_count(after_entries, now) + 1 == live_count(before_entries, now),
        after.visible(key, now) == Some(None::<Seq<u8>>),
{
    let gone = Record::tombstone_at(now);
    lemma_record_in_layers(before, key);
    lemma_record_in_layers(after, key);
    let whole = stacked(before.layers());
    assert(before.layers().drop_last() =~= after.layers().drop_last());
    assert(after.layers().last() == before.layers().last().insert(key, gone));
    assert(stacked(after.layers()) =~= whole.insert(key, gone));
    assert(whole.contains_key(key) && whole[key].live_at(now));
    let at = crate::table::position(before_entries, key);
    assert(0 <= at < before_entries.len() && before_entries[at].0 == key);
    lemma_position(before_entries, at);
    lemma_update_at(before_entries, at, gone);
    let changed = before_entries.update(at, (key, gone));
    lemma_entries_unique(changed, after_entries);
    lemma_live_count_update(before_entries, at, gone, now);
}

} // verus!
