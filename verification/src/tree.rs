//! The engine: a memtable, a queue of frozen memtables, and sorted runs,
//! with a write-ahead log, two caches, bloom filters and transactions.
//!
//! The engine works on the image of its directory (see `Directory`) and
//! lists every change to a file for the surrounding program to carry out.

use crate::bloom::BloomFilter;
use crate::bytes::{bytes_equal, copy_range};
use crate::cache::{LRUIndexCache, LRUValueCache};
use crate::clock::{now, span_of, Span, Timestamp};
use crate::compression::Compressor;
use crate::data_value::{DataValue, Record};
use crate::directory::{key_of, lemma_key_of_injective, Change, Directory, DiskAction, FileEntry, Files};
use crate::error::{TreeError, TreeResult};
use crate::lru::{after_put, every, holds, lemma_every_after_put, lemma_every_implies, lemma_every_off_path, lemma_every_touched, off_path, place, touched, without, SlotView};
use crate::merge::{maps_of, stacked};
use crate::names::{sstable_file_name, sstable_name, sstable_number, wal_file_name, wal_name, wal_number};
use crate::segments::{log_in_step, log_sound, same_segments, segment_key};
use crate::settings::{Limits, TreeSettings};
use crate::sstable::{index_lookup, load_index, read_data_entry, run_index, run_lookup, RunIndex};
use crate::table::{OrderedMap, Table};
use crate::transaction::TransactionManager;
use vstd::prelude::*;

verus! {

/// The newest record of `key` in the tables, which stand from the oldest to
/// the newest.
pub open spec fn find_in_tables(tables: Seq<Map<Seq<u8>, Record>>, key: Seq<u8>) -> Option<Record>
    decreases tables.len(),
{
    if tables.len() == 0 {
        None
    } else if tables.last().contains_key(key) {
        Some(tables.last()[key])
    } else {
        find_in_tables(tables.drop_last(), key)
    }
}

/// The newest record of `key` in the runs, which stand from the oldest to
/// the newest: none where no run holds the key, and nothing at all where a
/// run that has to be asked cannot be read.
pub open spec fn find_in_runs(runs: Seq<Seq<u8>>, key: Seq<u8>) -> Option<Option<Record>>
    decreases runs.len(),
{
    if runs.len() == 0 {
        Some(None)
    } else {
        match run_lookup(runs.last(), key) {
            None => None,
            Some(Some(record)) => Some(Some(record)),
            Some(None) => find_in_runs(runs.drop_last(), key),
        }
    }
}

/// The record that is authoritative for `key`: that of the memtable, else
/// that of the newest frozen memtable that holds the key, else that of the
/// newest run that holds it.
pub open spec fn lookup(
    mem: Map<Seq<u8>, Record>,
    frozen: Seq<Map<Seq<u8>, Record>>,
    runs: Seq<Seq<u8>>,
    key: Seq<u8>,
) -> Option<Option<Record>> {
    if mem.contains_key(key) {
        Some(Some(mem[key]))
    } else {
        match find_in_tables(frozen, key) {
            Some(record) => Some(Some(record)),
            None => find_in_runs(runs, key),
        }
    }
}

/// What a reader gets at `now` for what was found: nothing where the
/// record is a tombstone or expired, else the payload decompressed. No
/// answer at all, which is an error, where a run could not be read or the
/// codec refuses the payload.
pub open spec fn answer(codec: Compressor, found: Option<Option<Record>>, now: Timestamp) -> Option<
    Option<Seq<u8>>,
> {
    match found {
        None => None,
        Some(None) => Some(None),
        Some(Some(record)) => if record.live_at(now) {
            match codec.decoded(record.data) {
                Some(bytes) => Some(Some(bytes)),
                None => None,
            }
        } else {
            Some(None)
        },
    }
}

/// A cached value is the record that its run holds for its key.
pub open spec fn value_slot_ok(files: Files, slot: SlotView<DataValue>) -> bool {
    sstable_number(slot.path) is Some && (files.contains_key(key_of(slot.path)) ==> run_lookup(
        files[key_of(slot.path)],
        slot.key,
    ) == Some(Some(slot.value@)))
}

/// A cached index is the index of its run.
pub open spec fn index_slot_ok(files: Files, slot: SlotView<RunIndex>) -> bool {
    sstable_number(slot.path) is Some && (files.contains_key(key_of(slot.path)) ==> run_index(
        files[key_of(slot.path)],
    ) == Some(slot.value@))
}

/// A filter holds every key of the index of its run.
pub open spec fn filter_ok(files: Files, path: Seq<char>, items: Set<Seq<u8>>) -> bool {
    sstable_number(path) is Some && (files.contains_key(key_of(path)) ==> match run_index(
        files[key_of(path)],
    ) {
        Some(pairs) => forall|key: Seq<u8>| #[trigger]
            index_lookup(pairs, key) is Some ==> items.contains(key),
        None => false,
    })
}

/// A sorted run of the engine: its number and the name of its file.
#[derive(Debug)]
pub struct RunRef {
    pub name: String,
    pub number: u64,
}

/// The bloom filter of the run at a path.
pub struct PathFilter {
    pub path: String,
    pub filter: BloomFilter,
}

/// The names of the runs.
pub open spec fn run_names(runs: Seq<RunRef>) -> Seq<Seq<char>> {
    Seq::new(runs.len(), |i: int| runs[i].name@)
}

/// The images of the files of these names.
pub open spec fn images(files: Files, names: Seq<Seq<char>>) -> Seq<Seq<u8>> {
    Seq::new(names.len(), |i: int| files[key_of(names[i])])
}

/// The numbers of the runs grow along the list, each run is named after its
/// number, and each has its file.
pub open spec fn runs_in_order(files: Files, runs: Seq<RunRef>) -> bool {
    &&& forall|i: int|
        0 <= i < runs.len() ==> (#[trigger] runs[i]).name@ == sstable_name(runs[i].number as nat)
            && files.contains_key(key_of(runs[i].name@))
    &&& forall|i: int, j: int|
        0 <= i < j < runs.len() ==> (#[trigger] runs[i]).number < (#[trigger] runs[j]).number
}

/// Every filter of the list is sound for its run.
pub open spec fn filters_ok(files: Files, filters: Seq<PathFilter>) -> bool {
    forall|i: int|
        0 <= i < filters.len() ==> filter_ok(
            files,
            (#[trigger] filters[i]).path@,
            filters[i].filter.items(),
        )
}

/// The numbers grow along the list.
pub open spec fn ascending(numbers: Seq<u16>) -> bool {
    forall|i: int, j: int| 0 <= i < j < numbers.len() ==> numbers[i] < numbers[j]
}

/// In a list of growing numbers no number is smaller than its place.
pub proof fn lemma_ascending_floor(numbers: Seq<u16>, i: int)
    requires
        ascending(numbers),
        0 <= i < numbers.len(),
    ensures
        numbers[i] >= i,
    decreases i,
{
    if i > 0 {
        lemma_ascending_floor(numbers, i - 1);
    }
}

/// The two directories hold the same under the name `path`.
pub open spec fn agree_at(files: Files, other: Files, path: Seq<char>) -> bool {
    &&& files.contains_key(key_of(path)) <==> other.contains_key(key_of(path))
    &&& files.contains_key(key_of(path)) ==> files[key_of(path)] == other[key_of(path)]
}

/// A change to the file of one name leaves the files of other names alone.
pub proof fn lemma_agree_elsewhere(files: Files, other: Files, name: Seq<char>, path: Seq<char>)
    requires
        path != name,
        same_but(files, other, name),
    ensures
        agree_at(files, other, path),
{
    let k = key_of(path);
    if k == key_of(name) {
        lemma_key_of_injective(path, name);
    }
    assert((files.contains_key(k) <==> other.contains_key(k)) && (files.contains_key(k)
        ==> files[k] == other[k]));
}

/// Cached values stay sound where the files of their runs stay as they are.
pub proof fn lemma_values_follow(files: Files, other: Files, slots: Seq<SlotView<DataValue>>)
    requires
        every(slots, |slot: SlotView<DataValue>| value_slot_ok(files, slot)),
        forall|i: int| 0 <= i < slots.len() ==> agree_at(files, other, (#[trigger] slots[i]).path),
    ensures
        every(slots, |slot: SlotView<DataValue>| value_slot_ok(other, slot)),
{
    assert forall|i: int| 0 <= i < slots.len() implies value_slot_ok(other, #[trigger] slots[i]) by {
        assert(value_slot_ok(files, slots[i]));
        assert(agree_at(files, other, slots[i].path));
    }
}

/// Cached indexes stay sound where the files of their runs stay as they are.
pub proof fn lemma_indexes_follow(files: Files, other: Files, slots: Seq<SlotView<RunIndex>>)
    requires
        every(slots, |slot: SlotView<RunIndex>| index_slot_ok(files, slot)),
        forall|i: int| 0 <= i < slots.len() ==> agree_at(files, other, (#[trigger] slots[i]).path),
    ensures
        every(slots, |slot: SlotView<RunIndex>| index_slot_ok(other, slot)),
{
    assert forall|i: int| 0 <= i < slots.len() implies index_slot_ok(other, #[trigger] slots[i]) by {
        assert(index_slot_ok(files, slots[i]));
        assert(agree_at(files, other, slots[i].path));
    }
}

/// Filters stay sound where the files of their runs stay as they are.
pub proof fn lemma_filters_follow(files: Files, other: Files, filters: Seq<PathFilter>)
    requires
        filters_ok(files, filters),
        forall|i: int|
            0 <= i < filters.len() ==> agree_at(files, other, (#[trigger] filters[i]).path@),
    ensures
        filters_ok(other, filters),
{
    assert forall|i: int| 0 <= i < filters.len() implies filter_ok(
        other,
        (#[trigger] filters[i]).path@,
        filters[i].filter.items(),
    ) by {
        assert(filter_ok(files, filters[i].path@, filters[i].filter.items()));
        assert(agree_at(files, other, filters[i].path@));
    }
}

/// Runs stay in order where their files stay as they are.
pub proof fn lemma_runs_follow(files: Files, other: Files, runs: Seq<RunRef>)
    requires
        runs_in_order(files, runs),
        forall|i: int| 0 <= i < runs.len() ==> agree_at(files, other, (#[trigger] runs[i]).name@),
    ensures
        runs_in_order(other, runs),
        images(files, run_names(runs)) == images(other, run_names(runs)),
{
    assert forall|i: int| 0 <= i < runs.len() implies (#[trigger] runs[i]).name@ == sstable_name(
        runs[i].number as nat,
    ) && other.contains_key(key_of(runs[i].name@)) by {
        assert(agree_at(files, other, runs[i].name@));
    }
    assert forall|i: int| 0 <= i < runs.len() implies images(files, run_names(runs))[i] == images(
        other,
        run_names(runs),
    )[i] by {
        assert(agree_at(files, other, runs[i].name@));
    }
    assert(images(files, run_names(runs)) =~= images(other, run_names(runs)));
}

/// Whether `filter` is one of `filters`.
pub open spec fn listed(filters: Seq<PathFilter>, filter: PathFilter) -> bool {
    exists|j: int| 0 <= j < filters.len() && #[trigger] filters[j] == filter
}

/// Takes the filters of the run at `path` out of the list.
pub fn drop_filters(filters: &mut Vec<PathFilter>, path: &String)
    ensures
        forall|i: int| 0 <= i < final(filters)@.len() ==> (#[trigger] final(filters)@[i]).path@ != path@,
        forall|i: int|
            0 <= i < final(filters)@.len() ==> listed(old(filters)@, #[trigger] final(filters)@[i]),
{
    let mut i: usize = 0;
    assert forall|k: int| 0 <= k < filters@.len() implies listed(
        old(filters)@,
        #[trigger] filters@[k],
    ) by {
        assert(old(filters)@[k] == filters@[k]);
    }
    while i < filters.len()
        invariant
            i <= filters@.len(),
            forall|k: int| 0 <= k < i ==> (#[trigger] filters@[k]).path@ != path@,
            forall|k: int|
                0 <= k < filters@.len() ==> listed(old(filters)@, #[trigger] filters@[k]),
        decreases filters.len() - i,
    {
        if filters[i].path == *path {
            let ghost before = filters@;
            let _ = filters.remove(i);
            proof {
                assert forall|k: int| 0 <= k < filters@.len() implies listed(
                    old(filters)@,
                    #[trigger] filters@[k],
                ) by {
                    let x = if k < i { k } else { k + 1 };
                    assert(filters@[k] == before[x]);
                    assert(listed(old(filters)@, before[x]));
                }
            }
        } else {
            i += 1;
        }
    }
}

/// The engine.
pub struct Tree {
    mem_table: Table,
    immutable_mem_tables: Vec<Table>,
    ss_tables: Vec<RunRef>,
    bloom_filters: Vec<PathFilter>,
    settings: TreeSettings,
    index_cache: LRUIndexCache,
    value_cache: LRUValueCache,
    wal_segments: Vec<u16>,
    next_run_number: u64,
    dir: Directory,
    tx_manager: TransactionManager,
}

impl Tree {
    /// The entries of the memtable, in ascending key order.
    pub closed spec fn mem_entries(self) -> crate::table::Entries {
        self.mem_table@
    }

    /// The memtable.
    pub open spec fn mem(self) -> Map<Seq<u8>, Record> {
        crate::table::to_map(self.mem_entries())
    }

    /// The number of entries of the memtable.
    pub open spec fn mem_len(self) -> nat {
        self.mem_entries().len()
    }

    /// The frozen memtables, from the oldest to the newest.
    pub closed spec fn frozen(self) -> Seq<Map<Seq<u8>, Record>> {
        maps_of(self.immutable_mem_tables@)
    }

    /// The files of the directory.
    pub closed spec fn files(self) -> Files {
        self.dir.files()
    }

    /// The changes to the files that are yet to be carried out.
    pub closed spec fn pending(self) -> Seq<Change> {
        self.dir.pending()
    }

    /// The names of the sorted runs, from the oldest to the newest.
    pub closed spec fn run_list(self) -> Seq<Seq<char>> {
        run_names(self.ss_tables@)
    }

    /// The bytes of the sorted runs, from the oldest to the newest.
    pub open spec fn runs(self) -> Seq<Seq<u8>> {
        images(self.files(), self.run_list())
    }

    /// The numbers of the log segments, in ascending order; the last one is
    /// the active segment.
    pub closed spec fn segments(self) -> Seq<u16> {
        self.wal_segments@
    }

    /// What `contains_key_at` gives at `now`: whether a reader gets a value
    /// for `key`; an error where the reader would get one.
    pub open spec fn held(self, key: Seq<u8>, now: Timestamp, r: TreeResult<bool>) -> bool {
        match r {
            Ok(found) => self.visible(key, now) matches Some(seen) && found == (seen is Some),
            Err(e) => self.visible(key, now) is None,
        }
    }

    /// What `len_at` gives at `now`: the number of keys whose newest
    /// record, over all layers, is live; an error where a run cannot be
    /// read.
    pub open spec fn counted(self, now: Timestamp, r: TreeResult<usize>) -> bool {
        match r {
            Ok(n) => oldest_readable(self.runs(), self.runs().len() as int) && exists|
                entries: crate::table::Entries,
            |
                crate::table::keys_ascending(entries) && crate::table::to_map(entries) == stacked(
                    self.layers(),
                ) && n == #[trigger] live_count(entries, now),
            Err(e) => !oldest_readable(self.runs(), self.runs().len() as int) && (e is Corruption
                || e is Serialization),
        }
    }

    /// The time to live that the record of `key` in the memtable has left
    /// at `now`: nothing where the memtable has no record of the key, or
    /// one that is expired or has no expiry.
    pub open spec fn ttl_at(self, key: Seq<u8>, now: Timestamp) -> Option<Span> {
        if self.mem().contains_key(key) && !self.mem()[key].expired_at(now) {
            match self.mem()[key].expires_at {
                Some(expiry) => expiry.remaining_spec(now),
                None => None,
            }
        } else {
            None
        }
    }

    /// Whether the log can start one more segment, or is off.
    pub open spec fn log_room(self) -> bool {
        !self.configuration().enable_wal || (self.segments().len() > 0 && self.segments().last()
            < u16::MAX)
    }

    /// Whether a flush of the frozen memtables is sure to succeed at `now`.
    pub open spec fn compact_ready(self, now: Timestamp) -> bool {
        flush_ready(
            self.next_number(),
            self.files(),
            self.runs(),
            self.frozen(),
            self.log_room(),
            now,
        )
    }

    /// Whether a flush of the memtable, after the frozen memtables, is sure
    /// to succeed at `now`.
    pub open spec fn flush_sure(self, now: Timestamp) -> bool {
        flush_ready(
            self.next_number(),
            self.files(),
            self.runs(),
            self.frozen().push(self.mem()),
            self.log_room(),
            now,
        )
    }

    /// Whether the flush that may come due once `record` is stored under
    /// `key` is sure to succeed at `now`.
    pub open spec fn put_sure(self, key: Seq<u8>, record: Record, now: Timestamp) -> bool {
        flush_ready(
            self.next_number(),
            self.files(),
            self.runs(),
            self.frozen().push(self.mem().insert(key, record)),
            self.log_room(),
            now,
        )
    }

    /// Whether the memtable is due for a flush once the writes of a commit
    /// at `now` are stored.
    pub open spec fn commit_due(self, written: crate::table::Entries, now: Timestamp) -> bool {
        let planned = plans(self.codec(), written, now);
        let n = written.len() as int;
        len_after(self.mem(), self.mem_len(), written, planned, n)
            > self.configuration().mem_table_max_size || (self.configuration().enable_wal
            && log_after(self.log_size(), written, planned, n) > self.configuration().wal_max_size)
    }

    /// Whether the flush that may come due once the writes of a commit at
    /// `now` are stored is sure to succeed.
    pub open spec fn commit_sure(self, written: crate::table::Entries, now: Timestamp) -> bool {
        flush_ready(
            self.next_number(),
            self.files(),
            self.runs(),
            self.frozen().push(
                mem_after(
                    self.mem(),
                    written,
                    plans(self.codec(), written, now),
                    written.len() as int,
                ),
            ),
            self.log_room(),
            now,
        )
    }

    /// Whether a merge of the oldest runs is sure to succeed at `now`: the
    /// number and the name of the next run are free, the oldest runs can be
    /// read, and their merge can be stored as a run.
    pub open spec fn merge_ready(self, now: Timestamp) -> bool {
        let k = merge_width(self.run_list().len());
        &&& self.next_number() < u64::MAX
        &&& !self.files().contains_key(key_of(self.next_name()))
        &&& oldest_readable(self.runs(), k)
        &&& storable(merged_entries(self.runs(), k, now))
    }

    /// The number that the next new run gets.
    pub closed spec fn next_number(self) -> u64 {
        self.next_run_number
    }

    /// The name of the file of the next new run.
    pub open spec fn next_name(self) -> Seq<char> {
        sstable_name(self.next_number() as nat)
    }

    /// The error for which the entries are refused as the next new run:
    /// `Internal` where the numbers of runs are used up or the name of the
    /// next run is taken; else the error for which they are refused as a
    /// run at all.
    pub open spec fn write_refused(self, entries: crate::table::Entries, e: TreeError) -> bool {
        if self.next_number() == u64::MAX || self.files().contains_key(key_of(self.next_name())) {
            e is Internal
        } else {
            store_refused(entries, e)
        }
    }

    /// The counters of the index cache: how many indexes it holds, what
    /// they weigh, and how often it was asked with and without success.
    pub closed spec fn index_counters(self) -> crate::cache::CacheStats {
        self.index_cache.counters()
    }

    /// The counters of the value cache.
    pub closed spec fn value_counters(self) -> crate::cache::CacheStats {
        self.value_cache.counters()
    }

    /// The settings.
    pub closed spec fn configuration(self) -> TreeSettings {
        self.settings
    }

    /// The codec.
    pub open spec fn codec(self) -> Compressor {
        self.configuration().compressor
    }

    /// The transactions.
    pub closed spec fn transactions(self) -> TransactionManager {
        self.tx_manager
    }

    /// The record that is authoritative for `key`.
    pub open spec fn record_of(self, key: Seq<u8>) -> Option<Option<Record>> {
        lookup(self.mem(), self.frozen(), self.runs(), key)
    }

    /// What a reader gets for `key` at `now`.
    pub open spec fn visible(self, key: Seq<u8>, now: Timestamp) -> Option<Option<Seq<u8>>> {
        answer(self.codec(), self.record_of(key), now)
    }

    /// The log of the engine is sound, or switched off.
    pub open spec fn log_sound(self) -> bool {
        self.configuration().enable_wal ==> log_sound(self.files(), self.segments())
    }

    /// What the files hold is in step with what the engine holds in
    /// memory: no memtable is frozen, and the log is in step with the
    /// memtable, where `t` is the time of replaying. With the log switched
    /// off, the memtable is empty.
    pub open spec fn in_step(self, t: Timestamp) -> bool {
        &&& self.frozen().len() == 0
        &&& if self.configuration().enable_wal {
            log_in_step(self.files(), self.segments(), self.mem(), t)
        } else {
            self.mem() == Map::<Seq<u8>, Record>::empty()
        }
    }

    /// The engine is in order: the settings are consistent, the runs stand
    /// in the order of their numbers and have their files, and what the
    /// caches and the filters hold agrees with the files.
    pub closed spec fn wf(self) -> bool {
        &&& self.settings.consistent()
        &&& runs_in_order(self.dir.files(), self.ss_tables@)
        &&& runs_complete(self.dir.files(), self.ss_tables@)
        &&& every(
            self.value_cache.slots(),
            |slot: SlotView<DataValue>| value_slot_ok(self.dir.files(), slot),
        )
        &&& every(
            self.index_cache.slots(),
            |slot: SlotView<RunIndex>| index_slot_ok(self.dir.files(), slot),
        )
        &&& filters_ok(self.dir.files(), self.bloom_filters@)
        &&& self.settings.enable_wal ==> self.wal_segments@.len() > 0
        &&& ascending(self.wal_segments@)
        &&& forall|i: int|
            0 <= i < self.ss_tables@.len() ==> (#[trigger] self.ss_tables@[i]).number
                < self.next_run_number
    }

    /// The filter that is kept for the run at `path`, by its place in the
    /// list.
    fn find_filter(&self, path: &String) -> (r: Option<usize>)
        ensures
            match r {
                Some(i) => i < self.bloom_filters@.len() && self.bloom_filters@[i as int].path@
                    == path@,
                None => forall|i: int|
                    0 <= i < self.bloom_filters@.len() ==> (#[trigger] self.bloom_filters@[i]).path@
                        != path@,
            },
    {
        let mut i: usize = 0;
        while i < self.bloom_filters.len()
            invariant
                i <= self.bloom_filters@.len(),
                forall|j: int| 0 <= j < i ==> (#[trigger] self.bloom_filters@[j]).path@ != path@,
            decreases self.bloom_filters.len() - i,
        {
            if self.bloom_filters[i].path == *path {
                return Some(i);
            }
            i += 1;
        }
        None
    }

    /// Builds the bloom filter of a run from its index, where one is
    /// wanted and the index is not too large for one.
    fn filter_for(index: &RunIndex, wanted: bool) -> (r: Option<BloomFilter>)
        ensures
            r is Some <==> wanted && index@.len() <= crate::bloom::MAX_FILTER_KEYS,
            r matches Some(filter) ==> forall|key: Seq<u8>| #[trigger]
                index_lookup(index@, key) is Some ==> filter.items().contains(key),
    {
        if !wanted {
            return None;
        }
        match BloomFilter::from_index(index) {
            Ok(filter) => Some(filter),
            Err(_) => None,
        }
    }

    /// Looks `key` up in the run at position `at` of the list: the value
    /// cache first, then the bloom filter, then the index, cached or read,
    /// and the data block. A bloom filter that is wanted and missing is
    /// built from the index.
    #[verifier::rlimit(80)]
    fn read_key_from_sstable(&mut self, at: usize, key: &[u8]) -> (r: TreeResult<Option<DataValue>>)
        requires
            old(self).wf(),
            at < old(self).run_list().len(),
        ensures
            final(self).wf(),
            final(self).mem_entries() == old(self).mem_entries(),
            final(self).frozen() == old(self).frozen(),
            final(self).files() == old(self).files(),
            final(self).pending() == old(self).pending(),
            final(self).run_list() == old(self).run_list(),
            final(self).segments() == old(self).segments(),
            final(self).configuration() == old(self).configuration(),
            final(self).transactions() == old(self).transactions(),
            match r {
                Ok(Some(v)) => run_lookup(old(self).runs()[at as int], key@) == Some(Some(v@)),
                Ok(None) => run_lookup(old(self).runs()[at as int], key@) == Some(None::<Record>),
                Err(e) => run_lookup(old(self).runs()[at as int], key@) is None && (e is Corruption
                    || e is Serialization),
            },
    {
        let ghost files = self.dir.files();
        let path = self.ss_tables[at].name.clone();
        let ghost image = files[key_of(path@)];
        assert(old(self).runs()[at as int] == image);
        proof {
            crate::names::lemma_sstable_name(self.ss_tables@[at as int].number as nat);
        }
        if self.settings.enable_value_cache {
            let ghost before = self.value_cache.slots();
            let cached = self.value_cache.get(&path, key);
            proof {
                lemma_every_touched(
                    before,
                    path@,
                    key@,
                    |slot: SlotView<DataValue>| value_slot_ok(files, slot),
                );
            }
            match cached {
                Some(v) => {
                    assert(value_slot_ok(files, before[place(before, path@, key@)]));
                    return Ok(Some(v));
                },
                None => {},
            }
        }
        if self.settings.enable_bloom_filter_cache {
            match self.find_filter(&path) {
                Some(i) => {
                    assert(filter_ok(
                        files,
                        self.bloom_filters@[i as int].path@,
                        self.bloom_filters@[i as int].filter.items(),
                    ));
                    if !self.bloom_filters[i].filter.contains(key) {
                        return Ok(None);
                    }
                },
                None => {},
            }
        }
        let bytes = match self.dir.read(&path) {
            Some(bytes) => bytes,
            None => {
                assert(false);
                return Err(TreeError::internal("a sorted run has no file"));
            },
        };
        let wanted = self.settings.enable_bloom_filter_cache && self.find_filter(&path).is_none();
        let (found, built) = if self.settings.enable_index_cache {
            let ghost before = self.index_cache.slots();
            let cached = self.index_cache.get(&path);
            proof {
                lemma_every_touched(
                    before,
                    path@,
                    Seq::<u8>::empty(),
                    |slot: SlotView<RunIndex>| index_slot_ok(files, slot),
                );
            }
            match cached {
                Some(index) => {
                    assert(index_slot_ok(files, before[place(before, path@, Seq::<u8>::empty())]));
                    (index.find(key), Self::filter_for(index, wanted))
                },
                None => {
                    let index = load_index(bytes.as_slice())?;
                    let found = index.find(key);
                    let built = Self::filter_for(&index, wanted);
                    let ghost slots = self.index_cache.slots();
                    let ghost slot = SlotView {
                        path: path@,
                        key: Seq::<u8>::empty(),
                        value: index,
                        size: crate::cache::index_size(index@),
                    };
                    proof {
                        lemma_every_after_put(
                            slots,
                            self.index_cache.capacity(),
                            self.index_cache.limit(),
                            slot,
                            |slot: SlotView<RunIndex>| index_slot_ok(files, slot),
                        );
                    }
                    self.index_cache.put(path.clone(), index);
                    (found, built)
                },
            }
        } else {
            let index = load_index(bytes.as_slice())?;
            (index.find(key), Self::filter_for(&index, wanted))
        };
        match built {
            Some(filter) => {
                self.bloom_filters.push(PathFilter { path: path.clone(), filter });
            },
            None => {},
        }
        match found {
            None => Ok(None),
            Some(offset) => {
                let value = read_data_entry(bytes.as_slice(), offset, key)?;
                if self.settings.enable_value_cache {
                    let copy = value.duplicate();
                    let owned = copy_range(key, 0, key.len());
                    assert(owned@ =~= key@);
                    let ghost slots = self.value_cache.slots();
                    let ghost slot = SlotView {
                        path: path@,
                        key: owned@,
                        value: copy,
                        size: crate::cache::value_size(copy@.data.len()),
                    };
                    proof {
                        lemma_every_after_put(
                            slots,
                            self.value_cache.capacity(),
                            self.value_cache.limit(),
                            slot,
                            |slot: SlotView<DataValue>| value_slot_ok(files, slot),
                        );
                    }
                    self.value_cache.put(path, owned, copy);
                }
                Ok(Some(value))
            },
        }
    }
}

/// What a reader gets at `now` for a record that was found.
pub fn serve(codec: &Compressor, value: &DataValue, now: &Timestamp) -> (r: TreeResult<
    Option<Vec<u8>>,
>)
    ensures
        match r {
            Ok(Some(bytes)) => answer(*codec, Some(Some(value@)), *now) == Some(Some(bytes@)),
            Ok(None) => answer(*codec, Some(Some(value@)), *now) == Some(None::<Seq<u8>>),
            Err(e) => answer(*codec, Some(Some(value@)), *now) is None && e is Compression,
        },
{
    if value.is_tombstone() || value.is_expired_at(now) {
        return Ok(None);
    }
    match codec.decompress(value.get_data()) {
        Ok(bytes) => Ok(Some(bytes)),
        Err(e) => Err(e),
    }
}

impl Tree {
    /// The record that is authoritative for `key`, copied: from the
    /// memtable, else from the newest frozen memtable that holds the key,
    /// else from the newest run that holds it.
    pub fn find_record(&mut self, key: &[u8]) -> (r: TreeResult<Option<DataValue>>)
        requires
            old(self).wf(),
        ensures
            final(self).wf(),
            final(self).mem_entries() == old(self).mem_entries(),
            final(self).frozen() == old(self).frozen(),
            final(self).files() == old(self).files(),
            final(self).pending() == old(self).pending(),
            final(self).run_list() == old(self).run_list(),
            final(self).segments() == old(self).segments(),
            final(self).configuration() == old(self).configuration(),
            final(self).transactions() == old(self).transactions(),
            match r {
                Ok(Some(v)) => old(self).record_of(key@) == Some(Some(v@)),
                Ok(None) => old(self).record_of(key@) == Some(None::<Record>),
                Err(e) => old(self).record_of(key@) is None && (e is Corruption
                    || e is Serialization),
            },
    {
        match self.mem_table.get(key) {
            Some(value) => {
                return Ok(Some(value.duplicate()));
            },
            None => {},
        }
        let ghost frozen = self.frozen();
        let mut i: usize = self.immutable_mem_tables.len();
        proof {
            assert(frozen.take(i as int) =~= frozen);
        }
        while i > 0
            invariant
                *self == *old(self),
                self.wf(),
                !self.mem().contains_key(key@),
                i <= self.immutable_mem_tables@.len(),
                frozen == maps_of(self.immutable_mem_tables@),
                frozen == self.frozen(),
                find_in_tables(frozen, key@) == find_in_tables(frozen.take(i as int), key@),
            decreases i,
        {
            i -= 1;
            proof {
                assert(frozen.take(i as int + 1).drop_last() =~= frozen.take(i as int));
                assert(frozen.take(i as int + 1).last() == self.immutable_mem_tables@[i as int].map());
            }
            match self.immutable_mem_tables[i].get(key) {
                Some(value) => {
                    return Ok(Some(value.duplicate()));
                },
                None => {},
            }
        }
        proof {
            assert(frozen.take(0) =~= Seq::<Map<Seq<u8>, Record>>::empty());
        }
        let ghost runs = self.runs();
        let mut j: usize = self.ss_tables.len();
        proof {
            assert(runs.take(j as int) =~= runs);
        }
        while j > 0
            invariant
                self.wf(),
                j <= self.run_list().len(),
                self.run_list().len() == self.ss_tables@.len(),
                runs == self.runs(),
                self.mem_entries() == old(self).mem_entries(),
                self.frozen() == old(self).frozen(),
                self.files() == old(self).files(),
                self.pending() == old(self).pending(),
                self.run_list() == old(self).run_list(),
                self.segments() == old(self).segments(),
                self.configuration() == old(self).configuration(),
                self.transactions() == old(self).transactions(),
                !old(self).mem().contains_key(key@),
                find_in_tables(old(self).frozen(), key@) is None,
                find_in_runs(runs, key@) == find_in_runs(runs.take(j as int), key@),
            decreases j,
        {
            j -= 1;
            proof {
                assert(runs.take(j as int + 1).drop_last() =~= runs.take(j as int));
                assert(runs.take(j as int + 1).last() == runs[j as int]);
            }
            match self.read_key_from_sstable(j, key)? {
                Some(value) => {
                    return Ok(Some(value));
                },
                None => {},
            }
        }
        proof {
            assert(runs.take(0) =~= Seq::<Seq<u8>>::empty());
        }
        Ok(None)
    }

    /// What is stored under `key` as a reader sees it at `now`: the payload
    /// of the authoritative record, decompressed, or nothing where there is
    /// no record or the record is a tombstone or expired.
    ///
    /// A run that has to be asked and cannot be read is a `Corruption` or
    /// `Serialization` error; a payload that the codec refuses is a
    /// `Compression` error.
    pub fn get_at(&mut self, key: &[u8], now: &Timestamp) -> (r: TreeResult<Option<Vec<u8>>>)
        requires
            old(self).wf(),
        ensures
            final(self).wf(),
            final(self).mem_entries() == old(self).mem_entries(),
            final(self).frozen() == old(self).frozen(),
            final(self).files() == old(self).files(),
            final(self).pending() == old(self).pending(),
            final(self).run_list() == old(self).run_list(),
            final(self).segments() == old(self).segments(),
            final(self).configuration() == old(self).configuration(),
            final(self).transactions() == old(self).transactions(),
            match r {
                Ok(Some(bytes)) => old(self).visible(key@, *now) == Some(Some(bytes@)),
                Ok(None) => old(self).visible(key@, *now) == Some(None::<Seq<u8>>),
                Err(e) => old(self).visible(key@, *now) is None,
            },
    {
        match self.find_record(key)? {
            Some(value) => serve(&self.settings.compressor, &value, now),
            None => Ok(None),
        }
    }

    /// What is stored under `key` as a reader sees it now, by the clock.
    pub fn get(&mut self, key: &[u8]) -> (r: TreeResult<Option<Vec<u8>>>)
        requires
            old(self).wf(),
        ensures
            final(self).wf(),
            final(self).mem_entries() == old(self).mem_entries(),
            final(self).frozen() == old(self).frozen(),
            final(self).files() == old(self).files(),
            final(self).pending() == old(self).pending(),
            final(self).run_list() == old(self).run_list(),
            final(self).segments() == old(self).segments(),
            final(self).configuration() == old(self).configuration(),
            final(self).transactions() == old(self).transactions(),
            exists|now: Timestamp|
                match r {
                    Ok(Some(bytes)) => old(self).visible(key@, now) == Some(Some(bytes@)),
                    Ok(None) => old(self).visible(key@, now) == Some(None::<Seq<u8>>),
                    Err(e) => old(self).visible(key@, now) is None,
                },
    {
        let t = now();
        let r = self.get_at(key, &t);
        assert(match r {
            Ok(Some(bytes)) => old(self).visible(key@, t) == Some(Some(bytes@)),
            Ok(None) => old(self).visible(key@, t) == Some(None::<Seq<u8>>),
            Err(e) => old(self).visible(key@, t) is None,
        });
        r
    }

    /// Whether a reader finds anything under `key` at `now`.
    pub fn contains_key_at(&mut self, key: &[u8], now: &Timestamp) -> (r: TreeResult<bool>)
        requires
            old(self).wf(),
        ensures
            final(self).wf(),
            final(self).mem_entries() == old(self).mem_entries(),
            final(self).frozen() == old(self).frozen(),
            final(self).files() == old(self).files(),
            final(self).pending() == old(self).pending(),
            final(self).run_list() == old(self).run_list(),
            final(self).segments() == old(self).segments(),
            final(self).configuration() == old(self).configuration(),
            final(self).transactions() == old(self).transactions(),
            old(self).held(key@, *now, r),
    {
        match self.get_at(key, now)? {
            Some(_) => Ok(true),
            None => Ok(false),
        }
    }

    /// Whether a reader finds anything under `key` now, by the clock.
    pub fn contains_key(&mut self, key: &[u8]) -> (r: TreeResult<bool>)
        requires
            old(self).wf(),
        ensures
            final(self).wf(),
            final(self).mem_entries() == old(self).mem_entries(),
            final(self).frozen() == old(self).frozen(),
            final(self).files() == old(self).files(),
            final(self).run_list() == old(self).run_list(),
            final(self).pending() == old(self).pending(),
            final(self).segments() == old(self).segments(),
            final(self).configuration() == old(self).configuration(),
            final(self).transactions() == old(self).transactions(),
            exists|now: Timestamp| #[trigger] old(self).held(key@, now, r),
    {
        let t = now();
        let r = self.contains_key_at(key, &t);
        assert(old(self).held(key@, t, r));
        r
    }

    /// What is stored under each of the keys, in their order.
    pub fn multi_get_at(&mut self, keys: &Vec<Vec<u8>>, now: &Timestamp) -> (r: TreeResult<
        Vec<Option<Vec<u8>>>,
    >)
        requires
            old(self).wf(),
        ensures
            final(self).wf(),
            final(self).mem_entries() == old(self).mem_entries(),
            final(self).frozen() == old(self).frozen(),
            final(self).files() == old(self).files(),
            final(self).pending() == old(self).pending(),
            final(self).run_list() == old(self).run_list(),
            final(self).segments() == old(self).segments(),
            final(self).configuration() == old(self).configuration(),
            final(self).transactions() == old(self).transactions(),
            all_got(*old(self), keys@, *now, r),
    {
        let mut values: Vec<Option<Vec<u8>>> = Vec::new();
        let mut i: usize = 0;
        while i < keys.len()
            invariant
                self.wf(),
                i <= keys@.len(),
                values@.len() == i,
                self.mem_entries() == old(self).mem_entries(),
                self.frozen() == old(self).frozen(),
                self.files() == old(self).files(),
                self.pending() == old(self).pending(),
                self.run_list() == old(self).run_list(),
                self.configuration() == old(self).configuration(),
                self.segments() == old(self).segments(),
                self.transactions() == old(self).transactions(),
                forall|j: int|
                    0 <= j < i ==> old(self).visible(keys@[j]@, *now) == Some(
                        match #[trigger] values@[j] {
                            Some(bytes) => Some(bytes@),
                            None => None,
                        },
                    ),
            decreases keys.len() - i,
        {
            let value = self.get_at(keys[i].as_slice(), now)?;
            values.push(value);
            i += 1;
        }
        Ok(values)
    }

    /// What is stored under each of the keys now, by the clock.
    pub fn multi_get(&mut self, keys: &Vec<Vec<u8>>) -> (r: TreeResult<Vec<Option<Vec<u8>>>>)
        requires
            old(self).wf(),
        ensures
            final(self).wf(),
            final(self).mem_entries() == old(self).mem_entries(),
            final(self).frozen() == old(self).frozen(),
            final(self).files() == old(self).files(),
            final(self).run_list() == old(self).run_list(),
            final(self).pending() == old(self).pending(),
            final(self).segments() == old(self).segments(),
            final(self).configuration() == old(self).configuration(),
            final(self).transactions() == old(self).transactions(),
            exists|now: Timestamp| #[trigger] all_got(*old(self), keys@, now, r),
    {
        let t = now();
        let r = self.multi_get_at(keys, &t);
        assert(all_got(*old(self), keys@, t, r));
        r
    }
}

/// What a delete of `key` at `now` comes to. Where a reader finds the key,
/// a tombstone is put under it in the memtable, and the result is `true`;
/// where it finds nothing, nothing changes and the result is `false`; an
/// error, with nothing changed, where the reader would get one or the key
/// is too long for the log.
pub open spec fn deleted(
    before: Tree,
    after: Tree,
    key: Seq<u8>,
    now: Timestamp,
    r: TreeResult<bool>,
) -> bool {
    match r {
        Ok(true) => {
            &&& before.visible(key, now) matches Some(Some(_))
            &&& after.record_of(key) == Some(Some(Record::tombstone_at(now)))
            &&& after.visible(key, now) == Some(None::<Seq<u8>>)
            &&& after.mem() == before.mem().insert(key, Record::tombstone_at(now))
            &&& after.frozen() == before.frozen()
            &&& after.runs() == before.runs()
            &&& forall|other: Seq<u8>|
                other != key ==> #[trigger] after.record_of(other) == before.record_of(other)
        },
        Ok(false) => before.visible(key, now) == Some(None::<Seq<u8>>) && unchanged(before, after),
        Err(e) => unchanged(before, after) && (before.visible(key, now) is None || (e is InvalidKey
            && key.len() > u32::MAX && before.visible(key, now) matches Some(Some(_)))),
    }
}

/// What giving the record of `key` in the memtable the time to live
/// `new_ttl` at `now` comes to. It is done where the memtable holds a live
/// record of the key that fits the log: the record then expires `new_ttl`
/// after `now`, or never where `new_ttl` is `None`. Else nothing changes.
pub open spec fn ttl_set(
    before: Tree,
    after: Tree,
    key: Seq<u8>,
    new_ttl: Option<Span>,
    now: Timestamp,
    r: TreeResult<bool>,
) -> bool {
    &&& r matches Ok(done) && done == (before.mem().contains_key(key) && before.mem()[key].live_at(
        now,
    ) && key.len() <= u32::MAX && before.mem()[key].data.len() <= MAX_PAYLOAD)
    &&& match r {
        Ok(true) => {
            let record = before.mem()[key];
            &&& after.record_of(key) == Some(
                Some(
                    Record {
                        expires_at: match new_ttl {
                            Some(span) => Some(now.plus_spec(span)),
                            None => None,
                        },
                        ..record
                    },
                ),
            )
            &&& forall|other: Seq<u8>|
                other != key ==> #[trigger] after.record_of(other) == before.record_of(other)
        },
        _ => unchanged(before, after),
    }
}

/// What a reader gets for several keys at `now`: for each key what it
/// would get for that key alone, in the order of the keys; an error where
/// one of them cannot be answered.
pub open spec fn all_got(
    tree: Tree,
    keys: Seq<Vec<u8>>,
    now: Timestamp,
    r: TreeResult<Vec<Option<Vec<u8>>>>,
) -> bool {
    match r {
        Ok(values) => values@.len() == keys.len() && forall|i: int|
            0 <= i < keys.len() ==> tree.visible(keys[i]@, now) == Some(
                match #[trigger] values@[i] {
                    Some(bytes) => Some(bytes@),
                    None => None,
                },
            ),
        Err(e) => exists|i: int| 0 <= i < keys.len() && tree.visible(#[trigger] keys[i]@, now) is None,
    }
}

impl Tree {
    /// Writes `table` as the newest sorted run: a new file with the next
    /// number, registered at the end of the list of runs, with its index
    /// and its bloom filter cached where the settings ask for it.
    ///
    /// Fails, and changes nothing, where the numbers are used up or the
    /// name is taken (`Internal`), the table is too large for a filter
    /// (`BloomFilter`) or for a run (`Internal`), or the filter cannot be
    /// serialized (`BloomFilter`).
    #[verifier::rlimit(80)]
    fn write_sstable(&mut self, table: &Table) -> (r: TreeResult<()>)
        requires
            old(self).wf(),
        ensures
            final(self).wf(),
            same_segments(old(self).files(), final(self).files()),
            final(self).mem_entries() == old(self).mem_entries(),
            final(self).frozen() == old(self).frozen(),
            final(self).segments() == old(self).segments(),
            final(self).configuration() == old(self).configuration(),
            final(self).transactions() == old(self).transactions(),
            match r {
                Ok(_) => {
                    &&& final(self).run_list().len() == old(self).run_list().len() + 1
                    &&& final(self).run_list().drop_last() == old(self).run_list()
                    &&& final(self).runs().drop_last() == old(self).runs()
                    &&& holds_table(final(self).runs().last(), table@)
                    &&& final(self).pending() == old(self).pending().push(
                        Change::Write {
                            name: final(self).run_list().last(),
                            bytes: final(self).runs().last(),
                        },
                    )
                    &&& same_but(
                        old(self).files(),
                        final(self).files(),
                        final(self).run_list().last(),
                    )
                    &&& !old(self).files().contains_key(key_of(final(self).run_list().last()))
                    &&& final(self).run_list().last() == old(self).next_name()
                    &&& final(self).next_number() == old(self).next_number() + 1
                },
                Err(e) => {
                    &&& final(self).files() == old(self).files()
                    &&& final(self).pending() == old(self).pending()
                    &&& final(self).run_list() == old(self).run_list()
                    &&& final(self).next_number() == old(self).next_number()
                    &&& (e is Internal || e is BloomFilter)
                    &&& old(self).write_refused(table@, e)
                },
            },
    {
        let number = self.next_run_number;
        if number == u64::MAX {
            return Err(TreeError::internal("the numbers of sorted runs are used up"));
        }
        let name = sstable_file_name(number);
        if self.dir.contains(&name) {
            return Err(TreeError::internal("the name of the next sorted run is taken"));
        }
        let _ = table.len();
        let filter = BloomFilter::from_table(table)?;
        let serialized = filter.to_bytes();
        let ghost bloom = filter.json()->0;
        let ghost made = filter;
        let MergedRun { bytes, index, filter } = match merged_run(table, filter, serialized) {
            Ok(run) => run,
            Err(e) => {
                proof {
                    assert(holds_keys(made, table@));
                    assert(store_refused(table@, e));
                }
                return Err(e);
            },
        };
        let _ = bytes.len();
        let ghost files = self.dir.files();
        let ghost raw = crate::sstable::raw_of(table@);
        let ghost image = bytes@;
        let ghost values = self.value_cache.slots();
        let ghost indexes = self.index_cache.slots();
        self.value_cache.invalidate_sstable(&name);
        self.index_cache.invalidate(&name);
        drop_filters(&mut self.bloom_filters, &name);
        self.dir.write(name.clone(), bytes);
        let ghost after = self.dir.files();
        proof {
            crate::sstable::lemma_run_round_trip(table@, bloom);
            lemma_every_off_path(
                values,
                name@,
                |slot: SlotView<DataValue>| value_slot_ok(files, slot),
            );
            lemma_every_off_path(
                indexes,
                name@,
                |slot: SlotView<RunIndex>| index_slot_ok(files, slot),
            );
            let kept_values = self.value_cache.slots();
            let kept_indexes = self.index_cache.slots();
            assert forall|i: int| 0 <= i < kept_values.len() implies agree_at(
                files,
                after,
                (#[trigger] kept_values[i]).path,
            ) by {
                lemma_agree_elsewhere(files, after, name@, kept_values[i].path);
            }
            assert forall|i: int| 0 <= i < kept_indexes.len() implies agree_at(
                files,
                after,
                (#[trigger] kept_indexes[i]).path,
            ) by {
                lemma_agree_elsewhere(files, after, name@, kept_indexes[i].path);
            }
            lemma_values_follow(files, after, kept_values);
            lemma_indexes_follow(files, after, kept_indexes);
            let kept_filters = self.bloom_filters@;
            assert(filters_ok(files, kept_filters)) by {
                assert forall|i: int| 0 <= i < kept_filters.len() implies filter_ok(
                    files,
                    (#[trigger] kept_filters[i]).path@,
                    kept_filters[i].filter.items(),
                ) by {
                    assert(listed(old(self).bloom_filters@, kept_filters[i]));
                    let j = choose|j: int|
                        0 <= j < old(self).bloom_filters@.len() && #[trigger] old(self).bloom_filters@[j] == kept_filters[i];
                    assert(filter_ok(
                        files,
                        old(self).bloom_filters@[j].path@,
                        old(self).bloom_filters@[j].filter.items(),
                    ));
                }
            }
            assert forall|i: int| 0 <= i < kept_filters.len() implies agree_at(
                files,
                after,
                (#[trigger] kept_filters[i]).path@,
            ) by {
                lemma_agree_elsewhere(files, after, name@, kept_filters[i].path@);
            }
            lemma_filters_follow(files, after, kept_filters);
            assert forall|i: int| 0 <= i < self.ss_tables@.len() implies agree_at(
                files,
                after,
                (#[trigger] self.ss_tables@[i]).name@,
            ) by {
                crate::names::lemma_sstable_names_differ(
                    self.ss_tables@[i].number as nat,
                    number as nat,
                );
                lemma_agree_elsewhere(files, after, name@, self.ss_tables@[i].name@);
            }
            lemma_runs_follow(files, after, self.ss_tables@);
        }
        if self.settings.enable_index_cache {
            let ghost slots = self.index_cache.slots();
            let ghost slot = SlotView {
                path: name@,
                key: Seq::<u8>::empty(),
                value: index,
                size: crate::cache::index_size(index@),
            };
            proof {
                lemma_every_after_put(
                    slots,
                    self.index_cache.capacity(),
                    self.index_cache.limit(),
                    slot,
                    |slot: SlotView<RunIndex>| index_slot_ok(after, slot),
                );
            }
            self.index_cache.put(name.clone(), index);
        }
        if self.settings.enable_bloom_filter_cache {
            proof {
                let pairs = crate::sstable::index_of(raw);
                assert forall|key: Seq<u8>| #[trigger]
                    index_lookup(pairs, key) is Some implies filter.items().contains(key) by {
                    let i = choose|i: int| 0 <= i < pairs.len() && (#[trigger] pairs[i]).0 == key;
                    assert(table@[i].0 == key);
                }
            }
            self.bloom_filters.push(PathFilter { path: name.clone(), filter });
        }
        let ghost runs_before = self.ss_tables@;
        self.ss_tables.push(RunRef { name, number });
        self.next_run_number = number + 1;
        proof {
            assert(run_names(self.ss_tables@).drop_last() =~= run_names(runs_before));
            assert(self.runs().drop_last() =~= images(after, run_names(runs_before)));
            assert(self.runs().last() == image);
            assert(image == crate::sstable::run_image(raw, bloom));
            assert(holds_table(image, table@));
            assert(self.ss_tables@.drop_last() =~= runs_before);
            lemma_run_added(files, after, runs_before, self.ss_tables@, number);
        }
        Ok(())
    }
}

/// The run holds the entries of the table, and answers every lookup as the
/// table would.
pub open spec fn holds_table(image: Seq<u8>, entries: crate::table::Entries) -> bool {
    &&& crate::sstable::run_entries(image) == Some(entries)
    &&& forall|key: Seq<u8>|
        #[trigger] run_lookup(image, key) == Some(
            if crate::table::to_map(entries).contains_key(key) {
                Some(crate::table::to_map(entries)[key])
            } else {
                None
            },
        )
}

/// The two directories differ in the file of the name `name` at most.
pub open spec fn same_but(files: Files, other: Files, name: Seq<char>) -> bool {
    forall|k: Seq<u8>|
        #![trigger files.contains_key(k)]
        #![trigger other.contains_key(k)]
        k != key_of(name) ==> (files.contains_key(k) <==> other.contains_key(k)) && (
        files.contains_key(k) ==> files[k] == other[k])
}

/// The two directories differ in the files of log segments at most.
pub open spec fn logs_apart(files: Files, other: Files) -> bool {
    forall|path: Seq<char>| wal_number(path) is None ==> #[trigger] agree_at(files, other, path)
}

/// The listed runs are the files that the engine takes as runs, all of
/// them and no others.
pub open spec fn runs_complete(files: Files, runs: Seq<RunRef>) -> bool {
    forall|name: Seq<char>| #[trigger] takes_run(files, name) <==> run_names(runs).contains(name)
}

/// The list of runs stays complete where, outside the names in `gone`, the
/// files and the list stay as they are, and the names in `gone` are listed
/// if and only if their files are taken as runs.
pub proof fn lemma_complete_after(
    files: Files,
    other: Files,
    runs: Seq<RunRef>,
    later: Seq<RunRef>,
    gone: Set<Seq<char>>,
)
    requires
        runs_complete(files, runs),
        forall|path: Seq<char>| !gone.contains(path) ==> #[trigger] agree_at(files, other, path),
        forall|name: Seq<char>|
            gone.contains(name) ==> (#[trigger] takes_run(other, name) <==> run_names(
                later,
            ).contains(name)),
        forall|name: Seq<char>|
            !gone.contains(name) ==> (run_names(runs).contains(name) <==> #[trigger] run_names(
                later,
            ).contains(name)),
    ensures
        runs_complete(other, later),
{
    assert forall|name: Seq<char>| #[trigger] takes_run(other, name) <==> run_names(
        later,
    ).contains(name) by {
        if !gone.contains(name) {
            assert(agree_at(files, other, name));
            assert(takes_run(files, name) <==> run_names(runs).contains(name));
            assert(run_names(runs).contains(name) <==> run_names(later).contains(name));
        }
    }
}

/// Changes to files whose names are not those of log segments leave the
/// log segments alone.
pub proof fn lemma_runs_changed(files: Files, other: Files, gone: Set<Seq<char>>)
    requires
        forall|path: Seq<char>| !gone.contains(path) ==> #[trigger] agree_at(files, other, path),
        forall|path: Seq<char>| gone.contains(path) ==> wal_number(path) is None,
    ensures
        same_segments(files, other),
{
    assert forall|x: u16|
        (files.contains_key(#[trigger] segment_key(x)) <==> other.contains_key(segment_key(x)))
            && (files.contains_key(segment_key(x)) ==> files[segment_key(x)]
            == other[segment_key(x)]) by {
        crate::names::lemma_wal_name(x as nat);
        assert(!gone.contains(wal_name(x as nat)));
        assert(agree_at(files, other, wal_name(x as nat)));
    }
}

/// A new run at the end of the list, in a file that was written whole,
/// leaves the list of runs complete and the log segments alone.
pub proof fn lemma_run_added(
    files: Files,
    after: Files,
    runs: Seq<RunRef>,
    later: Seq<RunRef>,
    number: u64,
)
    requires
        runs_complete(files, runs),
        number < u64::MAX,
        later.len() == runs.len() + 1,
        later.drop_last() == runs,
        later.last().name@ == sstable_name(number as nat),
        same_but(files, after, sstable_name(number as nat)),
        after.contains_key(key_of(sstable_name(number as nat))),
        crate::sstable::header_valid(after[key_of(sstable_name(number as nat))]),
        crate::sstable::footer_of(after[key_of(sstable_name(number as nat))]) is Some,
    ensures
        runs_complete(after, later),
        same_segments(files, after),
{
    let path = sstable_name(number as nat);
    let gone = set![path];
    assert forall|other: Seq<char>| !gone.contains(other) implies #[trigger] agree_at(
        files,
        after,
        other,
    ) by {
        lemma_agree_elsewhere(files, after, path, other);
    }
    crate::names::lemma_sstable_name(number as nat);
    assert(run_names(later)[runs.len() as int] == path);
    assert(takes_run(after, path));
    assert forall|other: Seq<char>| !gone.contains(other) implies (run_names(runs).contains(other)
        <==> #[trigger] run_names(later).contains(other)) by {
        if run_names(runs).contains(other) {
            let i = choose|i: int| 0 <= i < runs.len() && run_names(runs)[i] == other;
            assert(later[i] == runs[i]);
            assert(run_names(later)[i] == other);
        }
        if run_names(later).contains(other) {
            let i = choose|i: int| 0 <= i < later.len() && run_names(later)[i] == other;
            assert(later[i] == runs[i]);
            assert(run_names(runs)[i] == other);
        }
    }
    lemma_complete_after(files, after, runs, later, gone);
    crate::names::lemma_names_apart(path);
    lemma_runs_changed(files, after, gone);
}

/// A change to log segments leaves the list of runs complete.
pub proof fn lemma_log_change_keeps_complete(files: Files, other: Files, runs: Seq<RunRef>)
    requires
        logs_apart(files, other),
        runs_complete(files, runs),
    ensures
        runs_complete(other, runs),
{
    assert forall|name: Seq<char>| #[trigger] takes_run(other, name) <==> run_names(
        runs,
    ).contains(name) by {
        assert(takes_run(files, name) <==> run_names(runs).contains(name));
        if sstable_number(name) is Some {
            crate::names::lemma_names_apart(name);
            assert(agree_at(files, other, name));
        }
    }
}

/// A change to log segments leaves the sorted runs, and what is cached of
/// them, as they are.
pub proof fn lemma_log_change_keeps(
    files: Files,
    other: Files,
    values: Seq<SlotView<DataValue>>,
    indexes: Seq<SlotView<RunIndex>>,
    filters: Seq<PathFilter>,
    runs: Seq<RunRef>,
)
    requires
        logs_apart(files, other),
        every(values, |slot: SlotView<DataValue>| value_slot_ok(files, slot)),
        every(indexes, |slot: SlotView<RunIndex>| index_slot_ok(files, slot)),
        filters_ok(files, filters),
        runs_in_order(files, runs),
    ensures
        every(values, |slot: SlotView<DataValue>| value_slot_ok(other, slot)),
        every(indexes, |slot: SlotView<RunIndex>| index_slot_ok(other, slot)),
        filters_ok(other, filters),
        runs_in_order(other, runs),
        runs_complete(files, runs) ==> runs_complete(other, runs),
        images(files, run_names(runs)) == images(other, run_names(runs)),
{
    if runs_complete(files, runs) {
        lemma_log_change_keeps_complete(files, other, runs);
    }
    assert forall|i: int| 0 <= i < values.len() implies agree_at(
        files,
        other,
        (#[trigger] values[i]).path,
    ) by {
        assert(value_slot_ok(files, values[i]));
        crate::names::lemma_names_apart(values[i].path);
    }
    assert forall|i: int| 0 <= i < indexes.len() implies agree_at(
        files,
        other,
        (#[trigger] indexes[i]).path,
    ) by {
        assert(index_slot_ok(files, indexes[i]));
        crate::names::lemma_names_apart(indexes[i].path);
    }
    assert forall|i: int| 0 <= i < filters.len() implies agree_at(
        files,
        other,
        (#[trigger] filters[i]).path@,
    ) by {
        assert(filter_ok(files, filters[i].path@, filters[i].filter.items()));
        crate::names::lemma_names_apart(filters[i].path@);
    }
    assert forall|i: int| 0 <= i < runs.len() implies agree_at(
        files,
        other,
        (#[trigger] runs[i]).name@,
    ) by {
        crate::names::lemma_sstable_name(runs[i].number as nat);
        crate::names::lemma_names_apart(runs[i].name@);
    }
    lemma_values_follow(files, other, values);
    lemma_indexes_follow(files, other, indexes);
    lemma_filters_follow(files, other, filters);
    lemma_runs_follow(files, other, runs);
}

/// A change to the file of a log segment changes the files of log segments
/// only.
pub proof fn lemma_one_log_changed(files: Files, other: Files, name: Seq<char>)
    requires
        wal_number(name) is Some,
        same_but(files, other, name),
    ensures
        logs_apart(files, other),
{
    assert forall|path: Seq<char>| wal_number(path) is None implies #[trigger] agree_at(
        files,
        other,
        path,
    ) by {
        lemma_agree_elsewhere(files, other, name, path);
    }
}

/// Changes to log segments, one after the other, change log segments only.
pub proof fn lemma_logs_apart_chain(a: Files, b: Files, c: Files)
    requires
        logs_apart(a, b),
        logs_apart(b, c),
    ensures
        logs_apart(a, c),
{
    assert forall|path: Seq<char>| wal_number(path) is None implies #[trigger] agree_at(
        a,
        c,
        path,
    ) by {
        assert(agree_at(a, b, path));
        assert(agree_at(b, c, path));
    }
}

/// The oldest table decides only where no newer table holds the key.
pub proof fn lemma_oldest_table(tables: Seq<Map<Seq<u8>, Record>>, key: Seq<u8>)
    requires
        tables.len() > 0,
    ensures
        find_in_tables(tables, key) == match find_in_tables(tables.skip(1), key) {
            Some(record) => Some(record),
            None => if tables[0].contains_key(key) {
                Some(tables[0][key])
            } else {
                None
            },
        },
    decreases tables.len(),
{
    if tables.len() == 1 {
        assert(tables.skip(1) =~= Seq::<Map<Seq<u8>, Record>>::empty());
        assert(tables.drop_last() =~= Seq::<Map<Seq<u8>, Record>>::empty());
    } else {
        lemma_oldest_table(tables.drop_last(), key);
        assert(tables.drop_last().skip(1) =~= tables.skip(1).drop_last());
        assert(tables.skip(1).last() == tables.last());
        assert(tables.drop_last()[0] == tables[0]);
    }
}

/// The log segments were numbered anew from zero up to the place `m`: the
/// segments before it have the numbers of their places, the segments from
/// it on have the numbers that they had, and `m` is the end of the list or
/// the first place whose file name was taken.
pub open spec fn segments_renumbered(before: Seq<u16>, after: Seq<u16>, files: Files, m: int) -> bool {
    &&& 0 <= m <= before.len()
    &&& after.len() == before.len()
    &&& forall|k: int| 0 <= k < m ==> #[trigger] after[k] == k
    &&& forall|k: int| m <= k < before.len() ==> #[trigger] after[k] == before[k]
    &&& m < before.len() ==> before[m] != m && files.contains_key(segment_key(m as u16))
}

impl Tree {
    /// The name of the active log segment.
    fn active_segment_name(&self) -> (name: String)
        requires
            self.segments().len() > 0,
        ensures
            name@ == wal_name(self.segments().last() as nat),
            wal_number(name@) is Some,
    {
        wal_file_name(self.wal_segments[self.wal_segments.len() - 1])
    }

    /// Appends a frame to the active log segment, where the log is on.
    fn write_to_wal(&mut self, frame: Vec<u8>)
        requires
            old(self).wf(),
        ensures
            final(self).wf(),
            final(self).next_number() == old(self).next_number(),
            final(self).mem_entries() == old(self).mem_entries(),
            final(self).frozen() == old(self).frozen(),
            final(self).run_list() == old(self).run_list(),
            final(self).runs() == old(self).runs(),
            final(self).segments() == old(self).segments(),
            final(self).configuration() == old(self).configuration(),
            final(self).transactions() == old(self).transactions(),
            logs_apart(old(self).files(), final(self).files()),
            final(self).pending() == if old(self).configuration().enable_wal {
                old(self).pending().push(
                    Change::Append {
                        name: wal_name(old(self).segments().last() as nat),
                        bytes: frame@,
                    },
                )
            } else {
                old(self).pending()
            },
            final(self).files() == if old(self).configuration().enable_wal {
                crate::directory::changed(
                    old(self).files(),
                    Change::Append {
                        name: wal_name(old(self).segments().last() as nat),
                        bytes: frame@,
                    },
                )
            } else {
                old(self).files()
            },
    {
        if !self.settings.enable_wal {
            assert(logs_apart(self.dir.files(), self.dir.files()));
            return ;
        }
        let name = self.active_segment_name();
        let ghost files = self.dir.files();
        self.dir.append(&name, frame);
        proof {
            lemma_one_log_changed(files, self.dir.files(), name@);
            lemma_log_change_keeps(
                files,
                self.dir.files(),
                self.value_cache.slots(),
                self.index_cache.slots(),
                self.bloom_filters@,
                self.ss_tables@,
            );
        }
    }

    /// Whether the active log segment has outgrown its limit.
    fn should_checkpoint_wal(&self) -> (b: bool)
        requires
            self.wf(),
        ensures
            b == self.log_full(),
    {
        if !self.settings.enable_wal || self.wal_segments.len() == 0 {
            return false;
        }
        let name = wal_file_name(self.wal_segments[self.wal_segments.len() - 1]);
        self.dir.size_of(&name) as u64 > self.settings.wal_max_size
    }

    /// Drops the oldest log segments until three are left.
    fn remove_obsolete_wal_segments(&mut self)
        requires
            old(self).wf(),
        ensures
            final(self).wf(),
            final(self).next_number() == old(self).next_number(),
            final(self).mem_entries() == old(self).mem_entries(),
            final(self).frozen() == old(self).frozen(),
            final(self).run_list() == old(self).run_list(),
            final(self).runs() == old(self).runs(),
            final(self).configuration() == old(self).configuration(),
            final(self).transactions() == old(self).transactions(),
            logs_apart(old(self).files(), final(self).files()),
            final(self).segments() == if old(self).segments().len() > 3 {
                old(self).segments().skip(old(self).segments().len() - 3)
            } else {
                old(self).segments()
            },
            log_sound(old(self).files(), old(self).segments()) ==> log_sound(
                final(self).files(),
                final(self).segments(),
            ),
            forall|mem: Map<Seq<u8>, Record>, t: Timestamp| #[trigger]
                log_in_step(old(self).files(), old(self).segments(), mem, t) ==> log_in_step(
                    final(self).files(),
                    final(self).segments(),
                    mem,
                    t,
                ),
    {
        assert(logs_apart(self.dir.files(), self.dir.files()));
        let ghost start = self.wal_segments@;
        let ghost mut dropped: int = 0;
        assert(start.skip(0) =~= start);
        while self.wal_segments.len() > 3
            invariant
                log_sound(old(self).files(), old(self).segments()) ==> log_sound(
                    self.files(),
                    self.segments(),
                ),
                forall|mem: Map<Seq<u8>, Record>, t: Timestamp| #[trigger]
                    log_in_step(old(self).files(), old(self).segments(), mem, t) ==> log_in_step(
                        self.files(),
                        self.segments(),
                        mem,
                        t,
                    ),
                self.wf(),
                self.next_number() == old(self).next_number(),
                self.mem_entries() == old(self).mem_entries(),
                self.frozen() == old(self).frozen(),
                self.run_list() == old(self).run_list(),
                self.runs() == old(self).runs(),
                self.configuration() == old(self).configuration(),
                self.transactions() == old(self).transactions(),
                logs_apart(old(self).files(), self.files()),
                start == old(self).segments(),
                0 <= dropped <= start.len(),
                self.wal_segments@ == start.skip(dropped),
                start.len() > 3 ==> dropped <= start.len() - 3,
                start.len() <= 3 ==> dropped == 0,
            decreases self.wal_segments.len(),
        {
            let name = wal_file_name(self.wal_segments[0]);
            let ghost files = self.dir.files();
            let ghost before = self.wal_segments@;
            self.dir.remove(&name);
            let _ = self.wal_segments.remove(0);
            proof {
                lemma_one_log_changed(files, self.dir.files(), name@);
                lemma_logs_apart_chain(old(self).files(), files, self.dir.files());
                lemma_log_change_keeps(
                    files,
                    self.dir.files(),
                    self.value_cache.slots(),
                    self.index_cache.slots(),
                    self.bloom_filters@,
                    self.ss_tables@,
                );
                assert(self.wal_segments@ =~= start.skip(dropped + 1));
                assert forall|i: int, j: int|
                    0 <= i < j < self.wal_segments@.len() implies self.wal_segments@[i]
                    < self.wal_segments@[j] by {
                    assert(self.wal_segments@[i] == before[i + 1]);
                    assert(self.wal_segments@[j] == before[j + 1]);
                }
                dropped = dropped + 1;
                assert(self.wal_segments@ =~= before.skip(1));
                let empty = Map::<Seq<u8>, Record>::empty();
                crate::segments::lemma_segment_dropped(
                    files,
                    self.dir.files(),
                    before,
                    empty,
                    arbitrary(),
                );
                assert forall|mem: Map<Seq<u8>, Record>, t: Timestamp| #[trigger]
                    log_in_step(
                        old(self).files(),
                        old(self).segments(),
                        mem,
                        t,
                    ) implies log_in_step(self.files(), self.segments(), mem, t) by {
                    crate::segments::lemma_segment_dropped(files, self.dir.files(), before, mem, t);
                }
            }
        }
    }

    /// Numbers the log segments from zero on, in their order, renaming
    /// their files. A segment whose new name is taken keeps its number, and
    /// so do the segments after it.
    #[verifier::rlimit(80)]
    fn rename_wal_segments_from_zero(&mut self)
        requires
            old(self).wf(),
        ensures
            final(self).wf(),
            final(self).next_number() == old(self).next_number(),
            final(self).mem_entries() == old(self).mem_entries(),
            final(self).frozen() == old(self).frozen(),
            final(self).run_list() == old(self).run_list(),
            final(self).runs() == old(self).runs(),
            final(self).configuration() == old(self).configuration(),
            final(self).transactions() == old(self).transactions(),
            logs_apart(old(self).files(), final(self).files()),
            final(self).segments().len() == old(self).segments().len(),
            forall|i: int|
                0 <= i < final(self).segments().len() ==> #[trigger] final(self).segments()[i]
                    <= old(self).segments()[i],
            log_sound(old(self).files(), old(self).segments()) ==> log_sound(
                final(self).files(),
                final(self).segments(),
            ),
            exists|m: int| #[trigger]
                segments_renumbered(
                    old(self).segments(),
                    final(self).segments(),
                    final(self).files(),
                    m,
                ),
            log_sound(old(self).files(), old(self).segments()) ==> forall|k: int|
                0 <= k < final(self).segments().len() ==> #[trigger] final(self).segments()[k] == k
                    && final(self).files()[segment_key(final(self).segments()[k])] == old(self).files()[segment_key(
                    old(self).segments()[k],
                )],
    {
        assert(logs_apart(self.dir.files(), self.dir.files()));
        let n = self.wal_segments.len();
        let mut i: usize = 0;
        let mut going = true;
        while i < n && going
            invariant
                log_sound(old(self).files(), old(self).segments()) ==> log_sound(
                    self.files(),
                    self.segments(),
                ),
                log_sound(old(self).files(), old(self).segments()) ==> forall|k: int|
                    0 <= k < n ==> self.files()[segment_key(#[trigger] self.wal_segments@[k])] == old(self).files()[segment_key(
                        old(self).segments()[k],
                    )],
                i <= n,
                n == self.wal_segments@.len(),
                n == old(self).segments().len(),
                self.wf(),
                self.next_number() == old(self).next_number(),
                self.mem_entries() == old(self).mem_entries(),
                self.frozen() == old(self).frozen(),
                self.run_list() == old(self).run_list(),
                self.runs() == old(self).runs(),
                self.configuration() == old(self).configuration(),
                self.transactions() == old(self).transactions(),
                logs_apart(old(self).files(), self.files()),
                forall|k: int| 0 <= k < i ==> #[trigger] self.wal_segments@[k] == k,
                forall|k: int|
                    i <= k < n ==> #[trigger] self.wal_segments@[k] == old(self).segments()[k],
                forall|k: int|
                    0 <= k < n ==> #[trigger] self.wal_segments@[k] <= old(self).segments()[k],
                !going ==> i < n && self.wal_segments@[i as int] != i && self.dir.files().contains_key(
                    segment_key(i as u16),
                ) && !log_sound(old(self).files(), old(self).segments()),
            decreases
                    n - i + (if going {
                        1nat
                    } else {
                        0nat
                    }),
        {
            let number = self.wal_segments[i];
            proof {
                lemma_ascending_floor(self.wal_segments@, i as int);
            }
            if number as usize != i {
                let target = i as u16;
                let from = wal_file_name(number);
                let to = wal_file_name(target);
                let ghost files = self.dir.files();
                let ghost before = self.wal_segments@;
                let ghost moved = files.remove(segment_key(number)).insert(
                    segment_key(target),
                    files[segment_key(number)],
                );
                proof {
                    if log_sound(files, before) {
                        crate::segments::lemma_last_segment(files, before);
                        assert(before.contains(before[i as int]));
                        assert(files.contains_key(segment_key(before[i as int])));
                        crate::segments::lemma_segment_renamed(files, moved, before, i as int);
                    }
                }
                if self.dir.contains(&to) {
                    going = false;
                } else {
                    self.dir.rename(&from, &to);
                    self.wal_segments.set(i, target);
                    proof {
                        let after = self.dir.files();
                        if log_sound(files, before) {
                            assert(after == moved);
                            assert(self.wal_segments@ =~= before.update(i as int, target));
                        }
                        if log_sound(old(self).files(), old(self).segments()) {
                            assert forall|k: int| 0 <= k < n implies after[segment_key(
                                #[trigger] self.wal_segments@[k],
                            )] == old(self).files()[segment_key(old(self).segments()[k])] by {
                                assert(after[segment_key(before.update(i as int, target)[k])]
                                    == files[segment_key(before[k])]);
                                assert(files[segment_key(before[k])] == old(self).files()[segment_key(
                                    old(self).segments()[k],
                                )]);
                            }
                        }
                        assert forall|path: Seq<char>| wal_number(path) is None implies #[trigger] agree_at(
                            files,
                            after,
                            path,
                        ) by {
                            if key_of(path) == key_of(from@) {
                                lemma_key_of_injective(path, from@);
                            }
                            if key_of(path) == key_of(to@) {
                                lemma_key_of_injective(path, to@);
                            }
                        }
                        lemma_logs_apart_chain(old(self).files(), files, after);
                        lemma_log_change_keeps(
                            files,
                            after,
                            self.value_cache.slots(),
                            self.index_cache.slots(),
                            self.bloom_filters@,
                            self.ss_tables@,
                        );
                        assert forall|a: int, b: int|
                            0 <= a < b < self.wal_segments@.len() implies self.wal_segments@[a]
                            < self.wal_segments@[b] by {
                            if b == i {
                                assert(self.wal_segments@[a] == a);
                            } else if a == i {
                                assert(before[a] < before[b]);
                            } else {
                                assert(before[a] < before[b]);
                            }
                        }
                    }
                    i += 1;
                }
            } else {
                i += 1;
            }
        }
        proof {
            assert(segments_renumbered(
                old(self).segments(),
                self.wal_segments@,
                self.dir.files(),
                i as int,
            ));
        }
    }

    /// After a run was written: marks the log with a checkpoint, starts a
    /// new segment, and drops the segments that are no longer needed.
    /// Before that the segments are numbered anew from zero where the
    /// numbers have grown beyond ten.
    ///
    /// A sound log is then in step with an empty memtable. Fails with a
    /// `Wal` error, before anything is marked, where the numbers of
    /// segments are used up.
    #[verifier::rlimit(80)]
    fn checkpoint_wal(&mut self) -> (r: TreeResult<()>)
        requires
            old(self).wf(),
        ensures
            final(self).wf(),
            final(self).next_number() == old(self).next_number(),
            final(self).mem_entries() == old(self).mem_entries(),
            final(self).frozen() == old(self).frozen(),
            final(self).run_list() == old(self).run_list(),
            final(self).runs() == old(self).runs(),
            final(self).configuration() == old(self).configuration(),
            final(self).transactions() == old(self).transactions(),
            logs_apart(old(self).files(), final(self).files()),
            r matches Err(e) ==> e is Wal,
            old(self).segments().len() > 0 && old(self).segments().last() < u16::MAX ==> r is Ok,
            !old(self).configuration().enable_wal ==> r is Ok && final(self).files() == old(self).files() && final(self).pending() == old(self).pending() && final(self).segments()
                == old(self).segments(),
            forall|t: Timestamp|
                old(self).configuration().enable_wal && log_sound(
                    old(self).files(),
                    old(self).segments(),
                ) && r is Ok ==> #[trigger] log_in_step(
                    final(self).files(),
                    final(self).segments(),
                    Map::empty(),
                    t,
                ),
    {
        if !self.settings.enable_wal {
            assert(logs_apart(self.dir.files(), self.dir.files()));
            return Ok(());
        }
        let ghost start = self.dir.files();
        assert(logs_apart(start, start));
        if self.wal_segments[self.wal_segments.len() - 1] > 10 {
            self.rename_wal_segments_from_zero();
        }
        let ghost renamed = self.dir.files();
        let ghost before = self.wal_segments@;
        let last = self.wal_segments[self.wal_segments.len() - 1];
        if last == u16::MAX {
            return Err(TreeError::wal("the numbers of log segments are used up"));
        }
        self.write_to_wal(crate::wal::write_checkpoint());
        let ghost marked = self.dir.files();
        let next = last + 1;
        let name = wal_file_name(next);
        self.dir.append(&name, Vec::new());
        self.wal_segments.push(next);
        proof {
            lemma_logs_apart_chain(start, renamed, marked);
            lemma_one_log_changed(marked, self.dir.files(), name@);
            lemma_logs_apart_chain(start, marked, self.dir.files());
            lemma_log_change_keeps(
                marked,
                self.dir.files(),
                self.value_cache.slots(),
                self.index_cache.slots(),
                self.bloom_filters@,
                self.ss_tables@,
            );
            assert forall|a: int, b: int|
                0 <= a < b < self.wal_segments@.len() implies self.wal_segments@[a]
                < self.wal_segments@[b] by {
                if b < before.len() {
                    assert(before[a] < before[b]);
                } else if a < before.len() - 1 {
                    assert(before[a] < before[before.len() - 1]);
                }
            }
            if log_sound(renamed, before) {
                crate::segments::lemma_last_segment(renamed, before);
                assert(!renamed.contains_key(segment_key(next))) by {
                    if before.contains(next) {
                        assert(next <= before.last());
                    }
                }
                crate::segments::lemma_segment_keys_differ(last, next);
                assert(self.dir.files() =~= marked.insert(segment_key(next), Seq::empty()));
                assert forall|t: Timestamp| #[trigger]
                    log_in_step(self.dir.files(), self.wal_segments@, Map::empty(), t) by {
                    crate::segments::lemma_rotated(renamed, self.dir.files(), before, next, t);
                }
            }
        }
        let ghost added = self.dir.files();
        let ghost listed = self.wal_segments@;
        self.remove_obsolete_wal_segments();
        proof {
            lemma_logs_apart_chain(start, added, self.dir.files());
            if log_sound(renamed, before) {
                assert forall|t: Timestamp| #[trigger]
                    log_in_step(self.dir.files(), self.wal_segments@, Map::empty(), t) by {
                    assert(log_in_step(added, listed, Map::empty(), t));
                }
            }
        }
        Ok(())
    }

    /// Freezes the memtable: it goes to the end of the queue of frozen
    /// memtables, and an empty memtable takes its place.
    fn freeze(&mut self)
        requires
            old(self).wf(),
        ensures
            final(self).wf(),
            final(self).next_number() == old(self).next_number(),
            final(self).mem_entries().len() == 0,
            final(self).mem() == Map::<Seq<u8>, Record>::empty(),
            final(self).frozen() == old(self).frozen().push(old(self).mem()),
            final(self).files() == old(self).files(),
            final(self).pending() == old(self).pending(),
            final(self).run_list() == old(self).run_list(),
            final(self).segments() == old(self).segments(),
            final(self).configuration() == old(self).configuration(),
            final(self).transactions() == old(self).transactions(),
            forall|key: Seq<u8>| #[trigger] final(self).record_of(key) == old(self).record_of(key),
    {
        let ghost before = self.frozen();
        let ghost mem = self.mem();
        let table = self.mem_table.take();
        self.immutable_mem_tables.push(table);
        proof {
            assert(self.frozen() =~= before.push(mem));
            assert forall|key: Seq<u8>| #[trigger] self.record_of(key) == old(self).record_of(
                key,
            ) by {
                assert(before.push(mem).drop_last() =~= before);
            }
        }
    }

    /// Writes the oldest frozen memtable as the newest sorted run. Every key
    /// keeps its record.
    ///
    /// Where the run cannot be written, the memtable stays in the queue
    /// and nothing changes.
    #[verifier::rlimit(80)]
    fn compact_one(&mut self) -> (r: TreeResult<()>)
        requires
            old(self).wf(),
        ensures
            final(self).wf(),
            same_segments(old(self).files(), final(self).files()),
            final(self).mem_entries() == old(self).mem_entries(),
            final(self).configuration() == old(self).configuration(),
            final(self).transactions() == old(self).transactions(),
            forall|key: Seq<u8>| #[trigger] final(self).record_of(key) == old(self).record_of(key),
            final(self).segments() == old(self).segments(),
            r matches Err(e) ==> e is Internal || e is BloomFilter,
            old(self).frozen().len() == 0 ==> r is Ok && final(self).frozen() == old(self).frozen()
                && final(self).run_list() == old(self).run_list() && final(self).files() == old(self).files() && final(self).pending() == old(self).pending() && final(self).next_number()
                == old(self).next_number(),
            old(self).frozen().len() > 0 ==> match r {
                Ok(_) => flushed_one(*old(self), *final(self)) && final(self).next_number()
                    == old(self).next_number() + 1 && final(self).run_list().last() == old(self).next_name()
                    && same_but(old(self).files(), final(self).files(), old(self).next_name()),
                Err(e) => final(self).frozen() == old(self).frozen() && final(self).run_list()
                    == old(self).run_list() && final(self).files() == old(self).files() && final(self).pending() == old(self).pending() && final(self).next_number()
                    == old(self).next_number() && old(self).write_refused(
                    crate::table::entries_of(old(self).frozen()[0]),
                    e,
                ),
            },
    {
        if self.immutable_mem_tables.len() == 0 {
            return Ok(());
        }
        let ghost frozen = self.frozen();
        let table = self.immutable_mem_tables.remove(0);
        let _ = table.len();
        proof {
            assert(self.frozen() =~= frozen.skip(1));
            assert(frozen[0] == table.map());
            crate::length::lemma_entries_of(table@);
        }
        let ghost runs = self.runs();
        let ghost popped = *self;
        match self.write_sstable(&table) {
            Ok(_) => {},
            Err(e) => {
                let ghost rest = self.frozen();
                self.immutable_mem_tables.insert(0, table);
                proof {
                    assert(self.frozen() =~= seq![table.map()] + rest);
                    assert(seq![frozen[0]] + frozen.skip(1) =~= frozen);
                }
                return Err(e);
            },
        }
        proof {
            Self::lemma_flushed_keeps(*old(self), *self, runs);
        }
        Ok(())
    }

    /// The two engines hold the same memtables and the same runs.
    pub open spec fn records_as(self, other: Tree) -> bool {
        &&& self.mem_entries() == other.mem_entries()
        &&& self.frozen() == other.frozen()
        &&& self.runs() == other.runs()
        &&& self.run_list() == other.run_list()
    }

    /// Where the oldest frozen memtable of `before` became the newest run
    /// of `after`, every key has the record that it had.
    pub proof fn lemma_flushed_keeps(before: Tree, after: Tree, runs: Seq<Seq<u8>>)
        requires
            before.frozen().len() > 0,
            runs == before.runs(),
            after.mem_entries() == before.mem_entries(),
            after.frozen() == before.frozen().skip(1),
            after.runs().len() == runs.len() + 1,
            after.runs().drop_last() == runs,
            forall|key: Seq<u8>|
                #[trigger] run_lookup(after.runs().last(), key) == Some(
                    if before.frozen()[0].contains_key(key) {
                        Some(before.frozen()[0][key])
                    } else {
                        None
                    },
                ),
        ensures
            forall|key: Seq<u8>| #[trigger] after.record_of(key) == before.record_of(key),
    {
        assert forall|key: Seq<u8>| #[trigger] after.record_of(key) == before.record_of(key) by {
            lemma_oldest_table(before.frozen(), key);
            let found = run_lookup(after.runs().last(), key);
            assert(found is Some);
        }
    }
}

/// The oldest frozen memtable of `before` has become the newest run of
/// `after`: a run that is sound in all its parts and answers as the
/// memtable did.
pub open spec fn flushed_one(before: Tree, after: Tree) -> bool {
    &&& before.frozen().len() > 0
    &&& after.frozen() == before.frozen().skip(1)
    &&& after.run_list().len() == before.run_list().len() + 1
    &&& after.runs().drop_last() == before.runs()
    &&& crate::sstable::run_entries(after.runs().last()) is Some
    &&& crate::table::to_map(crate::sstable::run_entries(after.runs().last())->0)
        == before.frozen()[0]
    &&& forall|key: Seq<u8>|
        #[trigger] run_lookup(after.runs().last(), key) == Some(
            if before.frozen()[0].contains_key(key) {
                Some(before.frozen()[0][key])
            } else {
                None
            },
        )
}

/// What a reader found before is what it finds after, except that a record
/// that does not outlive a merge at `now` may be gone.
pub open spec fn same_view(
    before: Option<Option<Record>>,
    after: Option<Option<Record>>,
    now: Timestamp,
) -> bool {
    before == after || (before matches Some(Some(record)) && !crate::merge::survives(record, now)
        && after == Some(None::<Record>))
}

/// The newer runs decide; the older runs are asked only where no newer run
/// holds the key.
pub proof fn lemma_runs_split(front: Seq<Seq<u8>>, back: Seq<Seq<u8>>, key: Seq<u8>)
    ensures
        find_in_runs(front + back, key) == match find_in_runs(back, key) {
            None => None,
            Some(Some(record)) => Some(Some(record)),
            Some(None) => find_in_runs(front, key),
        },
    decreases back.len(),
{
    if back.len() == 0 {
        assert(front + back =~= front);
    } else {
        lemma_runs_split(front, back.drop_last(), key);
        assert((front + back).drop_last() =~= front + back.drop_last());
        assert((front + back).last() == back.last());
    }
}

/// Runs that can be read in full answer as their tables, laid over each
/// other, would.
pub proof fn lemma_readable_runs(
    runs: Seq<Seq<u8>>,
    maps: Seq<Map<Seq<u8>, Record>>,
    key: Seq<u8>,
)
    requires
        runs.len() == maps.len(),
        forall|i: int|
            0 <= i < runs.len() ==> crate::sstable::run_entries(#[trigger] runs[i]) is Some
                && crate::table::to_map(crate::sstable::run_entries(runs[i])->0) == maps[i],
    ensures
        find_in_runs(runs, key) == Some(
            if stacked(maps).contains_key(key) {
                Some(stacked(maps)[key])
            } else {
                None
            },
        ),
    decreases runs.len(),
{
    if runs.len() > 0 {
        let n = runs.len() - 1;
        assert(crate::sstable::run_entries(runs[n]) is Some);
        crate::sstable::lemma_readable_run(runs.last(), key);
        assert forall|i: int| 0 <= i < runs.drop_last().len() implies crate::sstable::run_entries(
            #[trigger] runs.drop_last()[i],
        ) is Some && crate::table::to_map(
            crate::sstable::run_entries(runs.drop_last()[i])->0,
        ) == maps.drop_last()[i] by {
            assert(runs.drop_last()[i] == runs[i]);
            assert(crate::sstable::run_entries(runs[i]) is Some);
        }
        lemma_readable_runs(runs.drop_last(), maps.drop_last(), key);
    }
}

/// Where the oldest runs are replaced by the run of their merge at `now`, a
/// reader finds what it found before, except for records that do not
/// outlive the merge.
pub proof fn lemma_merge_keeps(
    mem: Map<Seq<u8>, Record>,
    frozen: Seq<Map<Seq<u8>, Record>>,
    consumed: Seq<Seq<u8>>,
    rest: Seq<Seq<u8>>,
    maps: Seq<Map<Seq<u8>, Record>>,
    image: Seq<u8>,
    now: Timestamp,
    key: Seq<u8>,
)
    requires
        consumed.len() == maps.len(),
        forall|i: int|
            0 <= i < consumed.len() ==> crate::sstable::run_entries(#[trigger] consumed[i])
                is Some && crate::table::to_map(crate::sstable::run_entries(consumed[i])->0)
                == maps[i],
        run_lookup(image, key) == Some(
            if crate::merge::merged(maps, now).contains_key(key) {
                Some(crate::merge::merged(maps, now)[key])
            } else {
                None
            },
        ),
    ensures
        same_view(
            lookup(mem, frozen, consumed + rest, key),
            lookup(mem, frozen, seq![image] + rest, key),
            now,
        ),
{
    lemma_runs_split(consumed, rest, key);
    lemma_runs_split(seq![image], rest, key);
    lemma_readable_runs(consumed, maps, key);
    let one = seq![image];
    assert(one.drop_last() =~= Seq::<Seq<u8>>::empty());
    assert(one.last() == image);
    assert(find_in_runs(one.drop_last(), key) == Some(None::<Record>));
    let all = stacked(maps);
    let kept = crate::merge::merged(maps, now);
    assert(find_in_runs(one, key) == Some(
        if kept.contains_key(key) {
            Some(kept[key])
        } else {
            None
        },
    ));
    if all.contains_key(key) {
        if crate::merge::survives(all[key], now) {
            assert(kept.contains_key(key) && kept[key] == all[key]);
        } else {
            assert(!kept.contains_key(key));
        }
    } else {
        assert(!kept.contains_key(key));
    }
}

/// What is cached is sound for the files, and nothing is cached of the
/// paths in `gone`.
pub open spec fn caches_clear_of(
    files: Files,
    gone: Set<Seq<char>>,
    values: Seq<SlotView<DataValue>>,
    indexes: Seq<SlotView<RunIndex>>,
    filters: Seq<PathFilter>,
) -> bool {
    &&& every(
        values,
        |slot: SlotView<DataValue>| value_slot_ok(files, slot) && !gone.contains(slot.path),
    )
    &&& every(
        indexes,
        |slot: SlotView<RunIndex>| index_slot_ok(files, slot) && !gone.contains(slot.path),
    )
    &&& forall|i: int|
        0 <= i < filters.len() ==> filter_ok(
            files,
            (#[trigger] filters[i]).path@,
            filters[i].filter.items(),
        ) && !gone.contains(filters[i].path@)
}

/// What is cached stays sound where only files of the paths in `gone`
/// change.
pub proof fn lemma_caches_follow(
    files: Files,
    other: Files,
    gone: Set<Seq<char>>,
    values: Seq<SlotView<DataValue>>,
    indexes: Seq<SlotView<RunIndex>>,
    filters: Seq<PathFilter>,
)
    requires
        caches_clear_of(files, gone, values, indexes, filters),
        forall|path: Seq<char>| !gone.contains(path) ==> #[trigger] agree_at(files, other, path),
    ensures
        every(values, |slot: SlotView<DataValue>| value_slot_ok(other, slot)),
        every(indexes, |slot: SlotView<RunIndex>| index_slot_ok(other, slot)),
        filters_ok(other, filters),
{
    assert forall|i: int| 0 <= i < values.len() implies value_slot_ok(other, #[trigger] values[i]) by {
        assert(value_slot_ok(files, values[i]) && !gone.contains(values[i].path));
        assert(agree_at(files, other, values[i].path));
    }
    assert forall|i: int| 0 <= i < indexes.len() implies index_slot_ok(
        other,
        #[trigger] indexes[i],
    ) by {
        assert(index_slot_ok(files, indexes[i]) && !gone.contains(indexes[i].path));
        assert(agree_at(files, other, indexes[i].path));
    }
    assert forall|i: int| 0 <= i < filters.len() implies filter_ok(
        other,
        (#[trigger] filters[i]).path@,
        filters[i].filter.items(),
    ) by {
        assert(agree_at(files, other, filters[i].path@));
    }
}

/// Forgets whatever is cached of the run at `name`.
fn forget_path(
    values: &mut LRUValueCache,
    indexes: &mut LRUIndexCache,
    filters: &mut Vec<PathFilter>,
    name: &String,
    Ghost(files): Ghost<Files>,
    Ghost(gone): Ghost<Set<Seq<char>>>,
)
    requires
        caches_clear_of(files, gone, old(values).slots(), old(indexes).slots(), old(filters)@),
    ensures
        caches_clear_of(
            files,
            gone.insert(name@),
            final(values).slots(),
            final(indexes).slots(),
            final(filters)@,
        ),
        final(values).capacity() == old(values).capacity(),
        final(values).limit() == old(values).limit(),
        final(indexes).capacity() == old(indexes).capacity(),
        final(indexes).limit() == old(indexes).limit(),
{
    let ghost old_values = values.slots();
    let ghost old_indexes = indexes.slots();
    let ghost old_filters = filters@;
    values.invalidate_sstable(name);
    indexes.invalidate(name);
    drop_filters(filters, name);
    proof {
        lemma_every_off_path(
            old_values,
            name@,
            |slot: SlotView<DataValue>| value_slot_ok(files, slot) && !gone.contains(slot.path),
        );
        lemma_every_off_path(
            old_indexes,
            name@,
            |slot: SlotView<RunIndex>| index_slot_ok(files, slot) && !gone.contains(slot.path),
        );
        let more = gone.insert(name@);
        let kept_values = values.slots();
        assert forall|i: int| 0 <= i < kept_values.len() implies value_slot_ok(
            files,
            #[trigger] kept_values[i],
        ) && !more.contains(kept_values[i].path) by {
            assert(kept_values[i].path != name@);
        }
        let kept_indexes = indexes.slots();
        assert forall|i: int| 0 <= i < kept_indexes.len() implies index_slot_ok(
            files,
            #[trigger] kept_indexes[i],
        ) && !more.contains(kept_indexes[i].path) by {
            assert(kept_indexes[i].path != name@);
        }
        assert forall|i: int| 0 <= i < filters@.len() implies filter_ok(
            files,
            (#[trigger] filters@[i]).path@,
            filters@[i].filter.items(),
        ) && !more.contains(filters@[i].path@) by {
            assert(listed(old_filters, filters@[i]));
            let j = choose|j: int|
                0 <= j < old_filters.len() && #[trigger] old_filters[j] == filters@[i];
            assert(filter_ok(files, old_filters[j].path@, old_filters[j].filter.items()));
        }
    }
}

/// The tables of the `k` oldest runs, where these can be read in full.
pub open spec fn oldest_maps(runs: Seq<Seq<u8>>, k: int) -> Seq<Map<Seq<u8>, Record>> {
    Seq::new(
        k as nat,
        |i: int| crate::table::to_map(crate::sstable::run_entries(runs[i])->0),
    )
}

/// The `k` oldest runs can be read in full.
pub open spec fn oldest_readable(runs: Seq<Seq<u8>>, k: int) -> bool {
    forall|i: int| 0 <= i < k ==> crate::sstable::run_entries(#[trigger] runs[i]) is Some
}

/// The image is the run of the merge of the `k` oldest runs at `now`: it
/// holds exactly the newest record of each key among them, if that record
/// is visible.
pub open spec fn is_merge_of(image: Seq<u8>, runs: Seq<Seq<u8>>, k: int, now: Timestamp) -> bool {
    &&& oldest_readable(runs, k)
    &&& crate::sstable::run_entries(image) is Some
    &&& crate::table::to_map(crate::sstable::run_entries(image)->0) == crate::merge::merged(
        oldest_maps(runs, k),
        now,
    )
    &&& forall|key: Seq<u8>|
        #[trigger] run_lookup(image, key) == Some(
            if crate::merge::merged(oldest_maps(runs, k), now).contains_key(key) {
                Some(crate::merge::merged(oldest_maps(runs, k), now)[key])
            } else {
                None
            },
        )
}

/// A run that is ready to be written, flushed or merged: its image, its
/// index and its filter.
pub struct MergedRun {
    pub bytes: Vec<u8>,
    pub index: RunIndex,
    pub filter: BloomFilter,
}

impl Tree {
    /// Reads the `k` oldest runs in full.
    fn load_oldest(&self, k: usize) -> (r: TreeResult<Vec<Table>>)
        requires
            self.wf(),
            k <= self.run_list().len(),
        ensures
            match r {
                Ok(tables) => tables@.len() == k && oldest_readable(self.runs(), k as int)
                    && maps_of(tables@) == oldest_maps(self.runs(), k as int),
                Err(e) => !oldest_readable(self.runs(), k as int) && (e is Corruption
                    || e is Serialization),
            },
    {
        let mut tables: Vec<Table> = Vec::new();
        let mut i: usize = 0;
        while i < k
            invariant
                i <= k,
                k <= self.run_list().len(),
                self.wf(),
                tables@.len() == i,
                oldest_readable(self.runs(), i as int),
                forall|j: int|
                    0 <= j < i ==> (#[trigger] tables@[j]).map() == crate::table::to_map(
                        crate::sstable::run_entries(self.runs()[j])->0,
                    ),
            decreases k - i,
        {
            let bytes = match self.dir.read(&self.ss_tables[i].name) {
                Some(bytes) => bytes,
                None => {
                    assert(false);
                    return Err(TreeError::internal("a sorted run has no file"));
                },
            };
            assert(bytes@ == self.runs()[i as int]);
            let table = match crate::sstable::load_sstable(bytes.as_slice()) {
                Ok(table) => table,
                Err(e) => {
                    return Err(e);
                },
            };
            tables.push(table);
            i += 1;
        }
        assert(maps_of(tables@) =~= oldest_maps(self.runs(), k as int));
        Ok(tables)
    }

    /// Merges the `k` oldest runs at `now` into the bytes of one run, with
    /// its index and its bloom filter. Nothing changes yet.
    ///
    /// Fails where one of the runs cannot be read (`Corruption`,
    /// `Serialization`), or the merged table is too large for a filter
    /// (`BloomFilter`) or for a run (`Internal`).
    fn prepare_merge(&self, k: usize, now: &Timestamp) -> (r: TreeResult<MergedRun>)
        requires
            self.wf(),
            k <= self.run_list().len(),
        ensures
            match r {
                Ok(run) => {
                    &&& is_merge_of(run.bytes@, self.runs(), k as int, *now)
                    &&& run_index(run.bytes@) == Some(run.index@)
                    &&& forall|key: Seq<u8>| #[trigger]
                        index_lookup(run.index@, key) is Some ==> run.filter.items().contains(key)
                    &&& run.filter.json() is Some
                    &&& exists|entries: crate::table::Entries|
                        crate::table::keys_ascending(entries) && crate::table::to_map(entries)
                            == crate::merge::merged(oldest_maps(self.runs(), k as int), *now)
                            && run.bytes@ == #[trigger] crate::sstable::run_image(
                            crate::sstable::raw_of(entries),
                            run.filter.json()->0,
                        )
                },
                Err(e) => merge_refused(self.runs(), k as int, *now, e),
            },
    {
        let tables = self.load_oldest(k)?;
        let merged = crate::merge::merge_tables(&tables, now);
        let _ = merged.len();
        proof {
            crate::length::lemma_entries_of(merged@);
            assert(merged@ == merged_entries(self.runs(), k as int, *now));
        }
        let filter = BloomFilter::from_table(&merged)?;
        let serialized = filter.to_bytes();
        let ghost json = filter.json();
        let ghost made = filter;
        let r = merged_run(&merged, filter, serialized);
        proof {
            assert(holds_keys(made, merged@));
            if r is Err {
                assert(store_refused(merged@, r->Err_0));
            }
        }
        match &r {
            Ok(run) => {
                let _ = run.bytes.len();
            },
            Err(_) => {},
        }
        proof {
            if r is Ok {
                let run = r->Ok_0;
                let bloom = json->0;
                crate::sstable::lemma_run_round_trip(merged@, bloom);
                let pairs = crate::sstable::index_of(crate::sstable::raw_of(merged@));
                assert forall|key: Seq<u8>| #[trigger]
                    index_lookup(run.index@, key) is Some implies run.filter.items().contains(
                    key,
                ) by {
                    let i = choose|i: int| 0 <= i < pairs.len() && (#[trigger] pairs[i]).0 == key;
                    assert(merged@[i].0 == key);
                }
                assert(run.bytes@ == crate::sstable::run_image(
                    crate::sstable::raw_of(merged@),
                    bloom,
                ));
            }
        }
        r
    }
}

/// After a merge the list of runs is complete again: the files of the
/// merged runs and the file under the new name are gone, but for the one
/// that holds the merged run, and it is listed first.
pub proof fn lemma_merged_complete(
    files0: Files,
    removed: Files,
    files1: Files,
    list0: Seq<RunRef>,
    list1: Seq<RunRef>,
    k: int,
    number: u64,
    image: Seq<u8>,
    gone: Set<Seq<char>>,
)
    requires
        runs_complete(files0, list0),
        runs_in_order(files0, list0),
        1 <= k <= list0.len(),
        forall|j: int| 0 <= j < list0.len() ==> (#[trigger] list0[j]).number < number,
        forall|j: int| 0 <= j < k ==> !removed.contains_key(key_of((#[trigger] list0[j]).name@)),
        files1 == removed.remove(key_of(sstable_name(number as nat))).insert(
            key_of(list0[k - 1].name@),
            image,
        ),
        crate::sstable::header_valid(image),
        crate::sstable::footer_of(image) is Some,
        forall|j: int| 0 <= j < k ==> gone.contains((#[trigger] list0[j]).name@),
        forall|path: Seq<char>|
            gone.contains(path) ==> path == sstable_name(number as nat) || exists|j: int|
                0 <= j < k && (#[trigger] list0[j]).name@ == path,
        forall|path: Seq<char>| !gone.contains(path) ==> #[trigger] agree_at(files0, files1, path),
        list1.len() == list0.len() - k + 1,
        list1[0].name@ == list0[k - 1].name@,
        forall|j: int| 1 <= j < list1.len() ==> (#[trigger] list1[j]) == list0[j + k - 1],
    ensures
        runs_complete(files1, list1),
{
    let temp = sstable_name(number as nat);
    let target = list0[k - 1].name@;
    crate::names::lemma_sstable_name(list0[k - 1].number as nat);
    crate::names::lemma_sstable_names_differ(list0[k - 1].number as nat, number as nat);
    if key_of(temp) == key_of(target) {
        lemma_key_of_injective(temp, target);
    }
    assert(run_names(list1)[0] == target);
    assert forall|name: Seq<char>| #[trigger] takes_run(files1, name) <==> run_names(
        list1,
    ).contains(name) by {
        if run_names(list1).contains(name) && name != target {
            let x = choose|x: int| 0 <= x < list1.len() && run_names(list1)[x] == name;
            assert(list1[x] == list0[x + k - 1]);
            assert(run_names(list0)[x + k - 1] == name);
            crate::names::lemma_sstable_names_differ(list0[x + k - 1].number as nat, number as nat);
            if gone.contains(name) {
                let j = choose|j: int| 0 <= j < k && (#[trigger] list0[j]).name@ == name;
                assert(list0[j].number < list0[x + k - 1].number);
                crate::names::lemma_sstable_names_differ(
                    list0[j].number as nat,
                    list0[x + k - 1].number as nat,
                );
            }
            assert(agree_at(files0, files1, name));
            assert(takes_run(files0, name));
        }
        if takes_run(files1, name) && name != target {
            if key_of(name) == key_of(target) {
                lemma_key_of_injective(name, target);
            }
            if gone.contains(name) {
                if name != temp {
                    let j = choose|j: int| 0 <= j < k && (#[trigger] list0[j]).name@ == name;
                    assert(!removed.contains_key(key_of(list0[j].name@)));
                }
                assert(false);
            }
            assert(agree_at(files0, files1, name));
            assert(takes_run(files0, name));
            let j = choose|j: int| 0 <= j < list0.len() && run_names(list0)[j] == name;
            if j < k {
                assert(gone.contains(list0[j].name@));
            }
            assert(list1[j - k + 1] == list0[j]);
            assert(run_names(list1)[j - k + 1] == name);
        }
    }
}

/// How many runs a merge takes where there are `count` runs: three, or
/// all of them where there are fewer.
pub open spec fn merge_width(count: nat) -> int {
    if count < 3 {
        count as int
    } else {
        3
    }
}

/// The filter answers yes for every key of the entries.
pub open spec fn holds_keys(filter: BloomFilter, entries: crate::table::Entries) -> bool {
    forall|key: Seq<u8>| crate::table::has_key(entries, key) ==> #[trigger] filter.items().contains(key)
}

/// The entries can be stored as a run: they are few enough for a filter,
/// and every filter of their keys can be serialized and fits a run with
/// them.
pub open spec fn storable(entries: crate::table::Entries) -> bool {
    &&& entries.len() <= crate::bloom::MAX_FILTER_KEYS
    &&& forall|filter: BloomFilter| #[trigger]
        holds_keys(filter, entries) ==> filter.json() is Some && crate::sstable::run_fits(
            crate::sstable::raw_of(entries),
            filter.json()->0,
        )
}

/// The error for which the entries are refused as a run: `BloomFilter`
/// where they are too many for a filter, or where a filter of their keys
/// cannot be serialized; `Internal` where they do not fit a run with their
/// serialized filter.
pub open spec fn store_refused(entries: crate::table::Entries, e: TreeError) -> bool {
    if entries.len() > crate::bloom::MAX_FILTER_KEYS {
        e is BloomFilter
    } else {
        exists|filter: BloomFilter| #[trigger]
            holds_keys(filter, entries) && if filter.json() is None {
                e is BloomFilter
            } else {
                e is Internal && !crate::sstable::run_fits(
                    crate::sstable::raw_of(entries),
                    filter.json()->0,
                )
            }
    }
}

/// The entries of the merge of the `k` oldest runs at `now`.
pub open spec fn merged_entries(runs: Seq<Seq<u8>>, k: int, now: Timestamp) -> crate::table::Entries {
    crate::table::entries_of(crate::merge::merged(oldest_maps(runs, k), now))
}

/// The error for which a merge of the `k` oldest runs at `now` is refused:
/// for a run that cannot be read, `Corruption` or `Serialization`, as the
/// reader says; else the error for which the merged entries are refused as
/// a run.
pub open spec fn merge_refused(runs: Seq<Seq<u8>>, k: int, now: Timestamp, e: TreeError) -> bool {
    if !oldest_readable(runs, k) {
        e is Corruption || e is Serialization
    } else {
        store_refused(merged_entries(runs, k, now), e)
    }
}

/// Makes the run of a table, flushed or merged, from the table, its filter
/// and what the serializer gave for the filter: the failure of the
/// serializer as it is; else the image of the run with its index, or an
/// `Internal` error where the table and the serialized filter do not fit a
/// run.
pub fn merged_run(merged: &Table, filter: BloomFilter, serialized: TreeResult<Vec<u8>>) -> (r:
    TreeResult<MergedRun>)
    ensures
        match serialized {
            Err(e) => r matches Err(same) && same == e,
            Ok(bloom) => match r {
                Ok(run) => crate::sstable::run_fits(crate::sstable::raw_of(merged@), bloom@)
                    && run.bytes@ == crate::sstable::run_image(
                    crate::sstable::raw_of(merged@),
                    bloom@,
                ) && run.index@ == crate::sstable::index_of(crate::sstable::raw_of(merged@))
                    && run.filter == filter,
                Err(e) => e is Internal && !crate::sstable::run_fits(
                    crate::sstable::raw_of(merged@),
                    bloom@,
                ),
            },
        },
{
    let bloom = match serialized {
        Ok(bloom) => bloom,
        Err(e) => {
            return Err(e);
        },
    };
    match crate::sstable::write_sstable(merged, bloom.as_slice()) {
        Ok((bytes, index)) => Ok(MergedRun { bytes, index, filter }),
        Err(e) => Err(e),
    }
}

/// The changes to the files that a merge asks for, in their order: the
/// merged run is written under a new name; then the files of the merged
/// runs are removed; then the new file takes the name of the last of them.
pub open spec fn merge_changes(temp: Seq<char>, image: Seq<u8>, names: Seq<Seq<char>>) -> Seq<
    Change,
> {
    seq![Change::Write { name: temp, bytes: image }] + Seq::new(
        names.len(),
        |j: int| Change::Remove { name: names[j] },
    ) + seq![Change::Rename { from: temp, to: names.last() }]
}

/// A merge removes nothing before the merged run is written. In the
/// changes that a merge asks for, the first is the write of the new run;
/// the removals of the merged runs follow, in the order of the runs; and
/// the last gives the new file the name of the last merged run.
pub proof fn lemma_merge_order(temp: Seq<char>, image: Seq<u8>, names: Seq<Seq<char>>)
    ensures
        merge_changes(temp, image, names).len() == names.len() + 2,
        merge_changes(temp, image, names)[0] == (Change::Write { name: temp, bytes: image }),
        forall|j: int|
            0 <= j < names.len() ==> #[trigger] merge_changes(temp, image, names)[j + 1] == (
            Change::Remove { name: names[j] }),
        merge_changes(temp, image, names).last() == (Change::Rename {
            from: temp,
            to: names.last(),
        }),
{
}

/// The run of a merge holds, for each key, the newest record of the key in
/// the merged runs, where that record is live at `now` and not empty: a
/// newer tombstone hides an older value, and a key without such a record
/// is not in the run. A reader gets from the run what the entries say.
pub proof fn lemma_merge_exact(
    image: Seq<u8>,
    runs: Seq<Seq<u8>>,
    k: int,
    now: Timestamp,
    key: Seq<u8>,
)
    requires
        is_merge_of(image, runs, k, now),
    ensures
        ({
            let maps = oldest_maps(runs, k);
            let newest = crate::merge::newest_holder(maps, key);
            let kept = newest >= 0 && crate::merge::survives(maps[newest][key], now);
            &&& crate::table::keys_ascending(crate::sstable::run_entries(image)->0)
            &&& crate::table::to_map(crate::sstable::run_entries(image)->0).contains_key(key)
                <==> kept
            &&& run_lookup(image, key) == Some(
                if kept {
                    Some(maps[newest][key])
                } else {
                    None
                },
            )
        }),
{
    crate::merge::lemma_merged_newest(oldest_maps(runs, k), now, key);
    crate::sstable::lemma_readable_run(image, key);
}

/// The `k` oldest runs of `before` have become the oldest run of `after`:
/// the run of their merge at `now`.
pub open spec fn merged_oldest(before: Tree, after: Tree, k: int, now: Timestamp) -> bool {
    &&& 2 <= k <= 3
    &&& k <= before.run_list().len()
    &&& k == 3 || k == before.run_list().len()
    &&& after.run_list().len() == before.run_list().len() - k + 1
    &&& after.runs().skip(1) == before.runs().skip(k)
    &&& is_merge_of(after.runs()[0], before.runs(), k, now)
}

impl Tree {
    /// Merges the three oldest runs, or the two where there are no more,
    /// into one run that takes their place as the oldest. A reader asks
    /// the runs from the newest to the oldest, so the run of the oldest
    /// records has to stand before the runs that were not merged; at the
    /// end of the list it would hide their newer records.
    ///
    /// The new run is written under a new name first; then the files of
    /// the merged runs are deleted; then the new run takes the name of the
    /// newest of them. A reader finds after the merge what it found before,
    /// except for tombstones, empty records and records that are expired at
    /// `now`: these are gone.
    ///
    /// Gives `false`, and changes nothing, where there are fewer than two
    /// runs. Fails, and changes nothing, as `prepare_merge` does, or with
    /// `Internal` where the numbers are used up or the new name is taken.
    #[verifier::rlimit(80)]
    fn merge_sstables(&mut self, now: &Timestamp) -> (r: TreeResult<bool>)
        requires
            old(self).wf(),
        ensures
            final(self).wf(),
            same_segments(old(self).files(), final(self).files()),
            final(self).mem_entries() == old(self).mem_entries(),
            final(self).frozen() == old(self).frozen(),
            final(self).segments() == old(self).segments(),
            final(self).configuration() == old(self).configuration(),
            final(self).transactions() == old(self).transactions(),
            forall|key: Seq<u8>|
                same_view(old(self).record_of(key), #[trigger] final(self).record_of(key), *now),
            match r {
                Ok(true) => merged_oldest(
                    *old(self),
                    *final(self),
                    if old(self).run_list().len() < 3 {
                        old(self).run_list().len() as int
                    } else {
                        3
                    },
                    *now,
                ) && exists|temp: Seq<char>|
                    !old(self).files().contains_key(key_of(temp)) && final(self).pending() == old(self).pending()
                        + #[trigger] merge_changes(
                        temp,
                        final(self).runs()[0],
                        old(self).run_list().take(merge_width(old(self).run_list().len())),
                    ),
                Ok(false) => old(self).run_list().len() < 2 && final(self).files() == old(self).files() && final(self).pending() == old(self).pending() && final(self).run_list() == old(self).run_list(),
                Err(e) => final(self).files() == old(self).files() && final(self).pending()
                    == old(self).pending() && final(self).run_list() == old(self).run_list()
                    && old(self).run_list().len() >= 2 && if old(self).next_run_number == u64::MAX
                    || old(self).files().contains_key(
                    key_of(sstable_name(old(self).next_run_number as nat)),
                ) {
                    e is Internal
                } else {
                    merge_refused(
                        old(self).runs(),
                        merge_width(old(self).run_list().len()),
                        *now,
                        e,
                    )
                },
            },
            old(self).run_list().len() >= 2 && old(self).merge_ready(*now) ==> r matches Ok(true),
            r is Ok && old(self).run_list().len() >= 2 ==> old(self).next_run_number < u64::MAX
                && !old(self).files().contains_key(
                key_of(sstable_name(old(self).next_run_number as nat)),
            ) && oldest_readable(old(self).runs(), merge_width(old(self).run_list().len())),
    {
        let n = self.ss_tables.len();
        let k: usize = if n < 3 {
            n
        } else {
            3
        };
        if k < 2 {
            return Ok(false);
        }
        let number = self.next_run_number;
        if number == u64::MAX {
            return Err(TreeError::internal("the numbers of sorted runs are used up"));
        }
        let temp = sstable_file_name(number);
        if self.dir.contains(&temp) {
            return Err(TreeError::internal("the name of the next sorted run is taken"));
        }
        let run = self.prepare_merge(k, now)?;
        let MergedRun { bytes, index, filter } = run;
        let ghost files0 = self.dir.files();
        let ghost image = bytes@;
        let ghost runs0 = self.runs();
        let ghost list0 = self.ss_tables@;
        let ghost mut gone: Set<Seq<char>> = Set::empty();
        proof {
            lemma_every_implies(
                self.value_cache.slots(),
                |slot: SlotView<DataValue>| value_slot_ok(files0, slot),
                |slot: SlotView<DataValue>| value_slot_ok(files0, slot) && !gone.contains(slot.path),
            );
            lemma_every_implies(
                self.index_cache.slots(),
                |slot: SlotView<RunIndex>| index_slot_ok(files0, slot),
                |slot: SlotView<RunIndex>| index_slot_ok(files0, slot) && !gone.contains(slot.path),
            );
        }
        forget_path(
            &mut self.value_cache,
            &mut self.index_cache,
            &mut self.bloom_filters,
            &temp,
            Ghost(files0),
            Ghost(gone),
        );
        self.dir.write(temp.clone(), bytes);
        proof {
            gone = gone.insert(temp@);
            assert forall|path: Seq<char>| !gone.contains(path) implies #[trigger] agree_at(
                files0,
                self.dir.files(),
                path,
            ) by {
                lemma_agree_elsewhere(files0, self.dir.files(), temp@, path);
            }
        }
        let mut i: usize = 0;
        while i < k
            invariant
                i <= k,
                k <= self.ss_tables@.len(),
                self.ss_tables@ == list0,
                runs_in_order(files0, list0),
                temp@ == sstable_name(number as nat),
                forall|j: int| 0 <= j < list0.len() ==> (#[trigger] list0[j]).number < number,
                gone.contains(temp@),
                forall|j: int| 0 <= j < i ==> gone.contains((#[trigger] list0[j]).name@),
                forall|j: int|
                    0 <= j < i ==> !self.dir.files().contains_key(
                        key_of((#[trigger] list0[j]).name@),
                    ),
                forall|path: Seq<char>|
                    gone.contains(path) ==> path == temp@ || exists|j: int|
                        0 <= j < i && (#[trigger] list0[j]).name@ == path,
                caches_clear_of(
                    files0,
                    gone,
                    self.value_cache.slots(),
                    self.index_cache.slots(),
                    self.bloom_filters@,
                ),
                forall|path: Seq<char>|
                    !gone.contains(path) ==> #[trigger] agree_at(files0, self.dir.files(), path),
                self.dir.files().contains_key(key_of(temp@)),
                self.dir.files()[key_of(temp@)] == image,
                self.dir.pending() == old(self).pending() + seq![
                    Change::Write { name: temp@, bytes: image },
                ] + Seq::new(i as nat, |j: int| Change::Remove { name: list0[j].name@ }),
                self.mem_table == old(self).mem_table,
                self.immutable_mem_tables == old(self).immutable_mem_tables,
                self.wal_segments == old(self).wal_segments,
                self.settings == old(self).settings,
                self.tx_manager == old(self).tx_manager,
                self.next_run_number == old(self).next_run_number,
                self.value_cache.capacity() == old(self).value_cache.capacity(),
                self.value_cache.limit() == old(self).value_cache.limit(),
                self.index_cache.capacity() == old(self).index_cache.capacity(),
                self.index_cache.limit() == old(self).index_cache.limit(),
            decreases k - i,
        {
            let name = self.ss_tables[i].name.clone();
            forget_path(
                &mut self.value_cache,
                &mut self.index_cache,
                &mut self.bloom_filters,
                &name,
                Ghost(files0),
                Ghost(gone),
            );
            let ghost before = self.dir.files();
            self.dir.remove(&name);
            proof {
                let ghost earlier = gone;
                gone = gone.insert(name@);
                crate::names::lemma_sstable_names_differ(list0[i as int].number as nat, number as nat);
                if key_of(name@) == key_of(temp@) {
                    lemma_key_of_injective(name@, temp@);
                }
                assert forall|path: Seq<char>| !gone.contains(path) implies #[trigger] agree_at(
                    files0,
                    self.dir.files(),
                    path,
                ) by {
                    assert(agree_at(files0, before, path));
                    lemma_agree_elsewhere(before, self.dir.files(), name@, path);
                }
                assert forall|path: Seq<char>| gone.contains(path) implies path == temp@
                    || exists|j: int| 0 <= j < i + 1 && (#[trigger] list0[j]).name@ == path by {
                    if path == name@ {
                        assert(list0[i as int].name@ == path);
                    } else if path != temp@ {
                        let j = choose|j: int| 0 <= j < i && (#[trigger] list0[j]).name@ == path;
                        assert(list0[j].name@ == path);
                    }
                }
            }
            i += 1;
        }
        let target_number = self.ss_tables[k - 1].number;
        let target = self.ss_tables[k - 1].name.clone();
        let ghost removed = self.dir.files();
        self.dir.rename(&temp, &target);
        let ghost files1 = self.dir.files();
        proof {
            assert(gone.contains(target@));
            assert forall|path: Seq<char>| !gone.contains(path) implies #[trigger] agree_at(
                files0,
                files1,
                path,
            ) by {
                assert(agree_at(files0, removed, path));
                if key_of(path) == key_of(temp@) {
                    lemma_key_of_injective(path, temp@);
                }
                if key_of(path) == key_of(target@) {
                    lemma_key_of_injective(path, target@);
                }
            }
            lemma_caches_follow(
                files0,
                files1,
                gone,
                self.value_cache.slots(),
                self.index_cache.slots(),
                self.bloom_filters@,
            );
            crate::names::lemma_sstable_name(target_number as nat);
        }
        let mut rest = self.ss_tables.split_off(k);
        let mut list: Vec<RunRef> = Vec::new();
        list.push(RunRef { name: target.clone(), number: target_number });
        list.append(&mut rest);
        self.ss_tables = list;
        self.next_run_number = number + 1;
        proof {
            let list1 = self.ss_tables@;
            assert(list1.len() == list0.len() - k + 1);
            assert forall|j: int| 1 <= j < list1.len() implies (#[trigger] list1[j]) == list0[j + k
                - 1] by {}
            assert forall|j: int| 1 <= j < list1.len() implies !gone.contains(
                (#[trigger] list1[j]).name@,
            ) by {
                let me = list0[j + k - 1];
                crate::names::lemma_sstable_names_differ(me.number as nat, number as nat);
                if gone.contains(me.name@) && me.name@ != temp@ {
                    let x = choose|x: int| 0 <= x < k && (#[trigger] list0[x]).name@ == me.name@;
                    assert(list0[x].number < list0[j + k - 1].number);
                    crate::names::lemma_sstable_names_differ(
                        list0[x].number as nat,
                        me.number as nat,
                    );
                }
            }
            assert forall|j: int| 0 <= j < list1.len() implies (#[trigger] list1[j]).name@
                == sstable_name(list1[j].number as nat) && files1.contains_key(
                key_of(list1[j].name@),
            ) by {
                if j >= 1 {
                    assert(agree_at(files0, files1, list1[j].name@));
                }
            }
            assert forall|a: int, b: int| 0 <= a < b < list1.len() implies (#[trigger] list1[a]).number
                < (#[trigger] list1[b]).number by {
                if a == 0 {
                    assert(list0[k as int - 1].number < list0[b + k - 1].number);
                } else {
                    assert(list0[a + k - 1].number < list0[b + k - 1].number);
                }
            }
            assert(self.runs().skip(1) =~= runs0.skip(k as int)) by {
                assert forall|j: int| 0 <= j < runs0.skip(k as int).len() implies self.runs().skip(
                    1,
                )[j] == runs0.skip(k as int)[j] by {
                    assert(agree_at(files0, files1, list1[j + 1].name@));
                }
            }
            assert(self.runs()[0] == image);
            lemma_merged_complete(
                files0,
                removed,
                files1,
                list0,
                list1,
                k as int,
                number,
                image,
                gone,
            );
            assert forall|path: Seq<char>| gone.contains(path) implies wal_number(
                path,
            ) is None by {
                crate::names::lemma_names_apart(path);
                crate::names::lemma_sstable_name(number as nat);
                if path != temp@ {
                    let j = choose|j: int| 0 <= j < k && (#[trigger] list0[j]).name@ == path;
                    crate::names::lemma_sstable_name(list0[j].number as nat);
                }
            }
            lemma_runs_changed(files0, files1, gone);
        }
        if self.settings.enable_index_cache {
            let ghost slots = self.index_cache.slots();
            let ghost slot = SlotView {
                path: target@,
                key: Seq::<u8>::empty(),
                value: index,
                size: crate::cache::index_size(index@),
            };
            proof {
                lemma_every_after_put(
                    slots,
                    self.index_cache.capacity(),
                    self.index_cache.limit(),
                    slot,
                    |slot: SlotView<RunIndex>| index_slot_ok(files1, slot),
                );
            }
            self.index_cache.put(target.clone(), index);
        }
        if self.settings.enable_bloom_filter_cache {
            self.bloom_filters.push(PathFilter { path: target, filter });
        }
        proof {
            let consumed = runs0.take(k as int);
            let rest_runs = runs0.skip(k as int);
            let maps = oldest_maps(runs0, k as int);
            assert(consumed + rest_runs =~= runs0);
            assert(seq![image] + rest_runs =~= self.runs());
            assert forall|key: Seq<u8>|
                same_view(old(self).record_of(key), #[trigger] self.record_of(key), *now) by {
                assert forall|x: int| 0 <= x < consumed.len() implies crate::sstable::run_entries(
                    #[trigger] consumed[x],
                ) is Some && crate::table::to_map(crate::sstable::run_entries(consumed[x])->0)
                    == maps[x] by {
                    assert(consumed[x] == runs0[x]);
                }
                lemma_merge_keeps(
                    self.mem(),
                    self.frozen(),
                    consumed,
                    rest_runs,
                    maps,
                    image,
                    *now,
                    key,
                );
            }
            let names = old(self).run_list().take(k as int);
            let asked = merge_changes(sstable_name(number as nat), image, names);
            assert(names.last() == list0[k as int - 1].name@);
            assert(self.pending() =~= old(self).pending() + asked);
            assert(merge_width(old(self).run_list().len()) == k);
            assert(self.runs()[0] == image);
            assert(!old(self).files().contains_key(key_of(sstable_name(number as nat))));
            assert(merged_oldest(*old(self), *self, k as int, *now));
        }
        Ok(true)
    }
}

/// Takes the filter of the run at `path` out of the list, if there is one.
pub fn take_filter(filters: &mut Vec<PathFilter>, path: &String) -> (r: Option<PathFilter>)
    ensures
        forall|i: int|
            0 <= i < final(filters)@.len() ==> listed(old(filters)@, #[trigger] final(filters)@[i]),
        r matches Some(found) ==> listed(old(filters)@, found) && found.path@ == path@,
        match r {
            Some(found) => exists|at: int|
                0 <= at < old(filters)@.len() && #[trigger] old(filters)@[at] == found
                    && found.path@ == path@ && final(filters)@ == old(filters)@.remove(at)
                    && forall|j: int| 0 <= j < at ==> (#[trigger] old(filters)@[j]).path@ != path@,
            None => final(filters)@ == old(filters)@ && forall|j: int|
                0 <= j < old(filters)@.len() ==> (#[trigger] old(filters)@[j]).path@ != path@,
        },
{
    let mut i: usize = 0;
    assert forall|k: int| 0 <= k < filters@.len() implies listed(
        old(filters)@,
        #[trigger] filters@[k],
    ) by {
        assert(old(filters)@[k] == filters@[k]);
    }
    while i < filters.len()
        invariant
            i <= filters@.len(),
            filters@ == old(filters)@,
            forall|j: int| 0 <= j < i ==> (#[trigger] filters@[j]).path@ != path@,
        decreases filters.len() - i,
    {
        if filters[i].path == *path {
            let ghost before = filters@;
            let found = filters.remove(i);
            proof {
                assert(old(filters)@[i as int] == found);
                assert(filters@ == before.remove(i as int));
                assert forall|k: int| 0 <= k < filters@.len() implies listed(
                    old(filters)@,
                    #[trigger] filters@[k],
                ) by {
                    let x = if k < i { k } else { k + 1 };
                    assert(filters@[k] == before[x]);
                    assert(old(filters)@[x] == filters@[k]);
                }
            }
            return Some(found);
        }
        i += 1;
    }
    None
}

/// After a run has been given another number the list of runs is complete
/// again: the file is gone under its old name and listed under the new one.
pub proof fn lemma_renumbered_complete(
    files: Files,
    files1: Files,
    list0: Seq<RunRef>,
    list1: Seq<RunRef>,
    at: int,
)
    requires
        runs_complete(files, list0),
        runs_in_order(files, list0),
        0 <= at < list0.len(),
        at < list0[at].number,
        !files.contains_key(key_of(sstable_name(at as nat))),
        files1 == files.remove(key_of(list0[at].name@)).insert(
            key_of(sstable_name(at as nat)),
            files[key_of(list0[at].name@)],
        ),
        list1.len() == list0.len(),
        list1[at].name@ == sstable_name(at as nat),
        forall|j: int| 0 <= j < list1.len() && j != at ==> (#[trigger] list1[j]) == list0[j],
    ensures
        runs_complete(files1, list1),
{
    let from = list0[at].name@;
    let to = sstable_name(at as nat);
    crate::names::lemma_sstable_name(at as nat);
    crate::names::lemma_sstable_name(list0[at].number as nat);
    crate::names::lemma_sstable_names_differ(list0[at].number as nat, at as nat);
    if key_of(from) == key_of(to) {
        lemma_key_of_injective(from, to);
    }
    assert(run_names(list0)[at] == from);
    assert(takes_run(files, from));
    assert(run_names(list1)[at] == to);
    assert(takes_run(files1, to));
    assert forall|name: Seq<char>| #[trigger] takes_run(files1, name) <==> run_names(
        list1,
    ).contains(name) by {
        if key_of(name) == key_of(from) {
            lemma_key_of_injective(name, from);
        }
        if key_of(name) == key_of(to) {
            lemma_key_of_injective(name, to);
        }
        if name != to && name != from {
            assert(agree_at(files, files1, name));
            assert(takes_run(files, name) <==> run_names(list0).contains(name));
            if run_names(list0).contains(name) {
                let j = choose|j: int| 0 <= j < list0.len() && run_names(list0)[j] == name;
                assert(list1[j] == list0[j]);
                assert(run_names(list1)[j] == name);
            }
            if run_names(list1).contains(name) {
                let j = choose|j: int| 0 <= j < list1.len() && run_names(list1)[j] == name;
                assert(list1[j] == list0[j]);
                assert(run_names(list0)[j] == name);
            }
        } else if name == from {
            if run_names(list1).contains(name) {
                let j = choose|j: int| 0 <= j < list1.len() && run_names(list1)[j] == name;
                assert(list1[j] == list0[j]);
                assert(list0[j].name@ == sstable_name(list0[j].number as nat));
                if j < at {
                    assert(list0[j].number < list0[at].number);
                } else {
                    assert(list0[at].number < list0[j].number);
                }
                crate::names::lemma_sstable_names_differ(
                    list0[j].number as nat,
                    list0[at].number as nat,
                );
            }
        }
    }
}

/// The changes to the files that numbering the runs anew up to the place
/// `m` asks for: each run before `m` whose number is not that of its place
/// is renamed to the name of its place, in the order of the places.
pub open spec fn renames_up_to(before: Seq<RunRef>, m: int) -> Seq<Change>
    decreases m,
{
    if m <= 0 {
        Seq::empty()
    } else if before[m - 1].number == m - 1 {
        renames_up_to(before, m - 1)
    } else {
        renames_up_to(before, m - 1).push(
            Change::Rename { from: before[m - 1].name@, to: sstable_name((m - 1) as nat) },
        )
    }
}

/// The runs were numbered anew from zero up to the place `m`: the runs
/// before it have the numbers of their places, the runs from it on are as
/// they were, and `m` is the end of the list or the first place whose file
/// name was taken.
pub open spec fn renumbered_to(before: Seq<RunRef>, after: Seq<RunRef>, files: Files, m: int) -> bool {
    &&& 0 <= m <= before.len()
    &&& after.len() == before.len()
    &&& forall|j: int| 0 <= j < m ==> (#[trigger] after[j]).number == j
    &&& forall|j: int| m <= j < before.len() ==> #[trigger] after[j] == before[j]
    &&& m < before.len() ==> before[m].number != m && files.contains_key(
        key_of(sstable_name(m as nat)),
    )
}

impl Tree {
    /// Gives the run at position `at` the number `at`, renaming its file,
    /// and lets what is cached of the run follow.
    #[verifier::rlimit(80)]
    fn renumber_run(&mut self, at: usize)
        requires
            old(self).wf(),
            at < old(self).ss_tables@.len(),
            at < old(self).ss_tables@[at as int].number,
            forall|j: int| 0 <= j < at ==> (#[trigger] old(self).ss_tables@[j]).number < at,
            !old(self).files().contains_key(key_of(sstable_name(at as nat))),
        ensures
            final(self).wf(),
            final(self).next_number() == old(self).next_number(),
            same_segments(old(self).files(), final(self).files()),
            final(self).mem_entries() == old(self).mem_entries(),
            final(self).frozen() == old(self).frozen(),
            final(self).runs() == old(self).runs(),
            final(self).segments() == old(self).segments(),
            final(self).configuration() == old(self).configuration(),
            final(self).transactions() == old(self).transactions(),
            final(self).ss_tables@.len() == old(self).ss_tables@.len(),
            final(self).ss_tables@[at as int].number == at,
            forall|j: int|
                0 <= j < final(self).ss_tables@.len() && j != at ==> #[trigger] final(self).ss_tables@[j] == old(self).ss_tables@[j],
            final(self).pending() == old(self).pending().push(
                Change::Rename {
                    from: old(self).ss_tables@[at as int].name@,
                    to: sstable_name(at as nat),
                },
            ),
    {
        let from = self.ss_tables[at].name.clone();
        let to = sstable_file_name(at as u64);
        let ghost files = self.dir.files();
        let ghost list0 = self.ss_tables@;
        let ghost runs0 = self.runs();
        let ghost bytes = files[key_of(from@)];
        let ghost files1 = files.remove(key_of(from@)).insert(key_of(to@), bytes);
        proof {
            crate::names::lemma_sstable_name(list0[at as int].number as nat);
            crate::names::lemma_sstable_names_differ(list0[at as int].number as nat, at as nat);
            if key_of(from@) == key_of(to@) {
                lemma_key_of_injective(from@, to@);
            }
            assert forall|path: Seq<char>| path != from@ && path != to@ implies #[trigger] agree_at(
                files,
                files1,
                path,
            ) by {
                if key_of(path) == key_of(from@) {
                    lemma_key_of_injective(path, from@);
                }
                if key_of(path) == key_of(to@) {
                    lemma_key_of_injective(path, to@);
                }
            }
        }
        let ghost values0 = self.value_cache.slots();
        self.value_cache.rename_sstable(&from, &to);
        proof {
            let p = |slot: SlotView<DataValue>| value_slot_ok(files, slot);
            let q = |slot: SlotView<DataValue>| value_slot_ok(files1, slot);
            assert forall|slot: SlotView<DataValue>| #[trigger]
                p(slot) && slot.path != to@ && slot.path != from@ implies q(slot) by {
                assert(agree_at(files, files1, slot.path));
            }
            assert forall|slot: SlotView<DataValue>| #[trigger]
                p(slot) && slot.path == from@ implies q(
                SlotView { path: to@, key: slot.key, value: slot.value, size: slot.size },
            ) by {
                assert(files.contains_key(key_of(from@)));
            }
            crate::lru::lemma_every_repathed(values0, from@, to@, p, q);
        }
        let ghost indexes0 = self.index_cache.slots();
        let moved_index = self.index_cache.remove(&from);
        let ghost mut gone: Set<Seq<char>> = Set::empty();
        proof {
            lemma_every_touched(
                indexes0,
                from@,
                Seq::<u8>::empty(),
                |slot: SlotView<RunIndex>| index_slot_ok(files, slot),
            );
            if moved_index is Some {
                assert(index_slot_ok(files, indexes0[place(indexes0, from@, Seq::<u8>::empty())]));
            }
        }
        let moved_filter = take_filter(&mut self.bloom_filters, &from);
        proof {
            assert forall|i: int| 0 <= i < self.bloom_filters@.len() implies filter_ok(
                files,
                (#[trigger] self.bloom_filters@[i]).path@,
                self.bloom_filters@[i].filter.items(),
            ) by {
                assert(listed(old(self).bloom_filters@, self.bloom_filters@[i]));
                let j = choose|j: int|
                    0 <= j < old(self).bloom_filters@.len() && #[trigger] old(self).bloom_filters@[j] == self.bloom_filters@[i];
                assert(filter_ok(
                    files,
                    old(self).bloom_filters@[j].path@,
                    old(self).bloom_filters@[j].filter.items(),
                ));
            }
            if moved_filter is Some {
                let found = moved_filter->0;
                assert(listed(old(self).bloom_filters@, found));
                let j = choose|j: int|
                    0 <= j < old(self).bloom_filters@.len() && #[trigger] old(self).bloom_filters@[j] == found;
                assert(filter_ok(
                    files,
                    old(self).bloom_filters@[j].path@,
                    old(self).bloom_filters@[j].filter.items(),
                ));
            }
        }
        let mut parked: LRUValueCache = LRUValueCache::new(0, 0);
        proof {
            lemma_every_implies(
                self.index_cache.slots(),
                |slot: SlotView<RunIndex>| index_slot_ok(files, slot),
                |slot: SlotView<RunIndex>| index_slot_ok(files, slot) && !gone.contains(slot.path),
            );
        }
        forget_path(
            &mut parked,
            &mut self.index_cache,
            &mut self.bloom_filters,
            &from,
            Ghost(files),
            Ghost(gone),
        );
        proof {
            gone = gone.insert(from@);
        }
        forget_path(
            &mut parked,
            &mut self.index_cache,
            &mut self.bloom_filters,
            &to,
            Ghost(files),
            Ghost(gone),
        );
        proof {
            gone = gone.insert(to@);
        }
        self.dir.rename(&from, &to);
        proof {
            assert(self.dir.files() =~= files1);
            lemma_caches_follow(
                files,
                files1,
                gone,
                parked.slots(),
                self.index_cache.slots(),
                self.bloom_filters@,
            );
        }
        match moved_index {
            Some(index) => {
                if self.settings.enable_index_cache {
                    let ghost slots = self.index_cache.slots();
                    let ghost slot = SlotView {
                        path: to@,
                        key: Seq::<u8>::empty(),
                        value: index,
                        size: crate::cache::index_size(index@),
                    };
                    proof {
                        lemma_every_after_put(
                            slots,
                            self.index_cache.capacity(),
                            self.index_cache.limit(),
                            slot,
                            |slot: SlotView<RunIndex>| index_slot_ok(files1, slot),
                        );
                    }
                    self.index_cache.put(to.clone(), index);
                }
            },
            None => {},
        }
        match moved_filter {
            Some(found) => {
                self.bloom_filters.push(PathFilter { path: to.clone(), filter: found.filter });
            },
            None => {},
        }
        self.ss_tables.set(at, RunRef { name: to, number: at as u64 });
        proof {
            let list1 = self.ss_tables@;
            assert forall|j: int| 0 <= j < list1.len() implies (#[trigger] list1[j]).name@
                == sstable_name(list1[j].number as nat) && files1.contains_key(
                key_of(list1[j].name@),
            ) by {
                if j != at {
                    assert(list1[j] == list0[j]);
                    crate::names::lemma_sstable_names_differ(
                        list0[j].number as nat,
                        list0[at as int].number as nat,
                    );
                    if j < at {
                        assert(list0[j].number < at);
                    } else {
                        assert(list0[at as int].number < list0[j].number);
                    }
                    crate::names::lemma_sstable_names_differ(list0[j].number as nat, at as nat);
                    assert(agree_at(files, files1, list0[j].name@));
                }
            }
            assert forall|a: int, b: int| 0 <= a < b < list1.len() implies (#[trigger] list1[a]).number
                < (#[trigger] list1[b]).number by {
                if a == at {
                    assert(list0[a].number < list0[b].number);
                } else if b == at {
                    assert(list0[a].number < at);
                } else {
                    assert(list0[a].number < list0[b].number);
                }
            }
            assert(self.runs() =~= runs0) by {
                assert forall|j: int| 0 <= j < runs0.len() implies self.runs()[j] == runs0[j] by {
                    if j != at {
                        assert(list1[j] == list0[j]);
                        crate::names::lemma_sstable_names_differ(
                            list0[j].number as nat,
                            list0[at as int].number as nat,
                        );
                        if j < at {
                            assert(list0[j].number < at);
                        } else {
                            assert(list0[at as int].number < list0[j].number);
                        }
                        crate::names::lemma_sstable_names_differ(list0[j].number as nat, at as nat);
                        assert(agree_at(files, files1, list0[j].name@));
                    }
                }
            }
            lemma_renumbered_complete(files, files1, list0, list1, at as int);
            let moved = set![from@, to@];
            crate::names::lemma_sstable_name(at as nat);
            crate::names::lemma_names_apart(from@);
            crate::names::lemma_names_apart(to@);
            lemma_runs_changed(files, files1, moved);
        }
    }

    /// Numbers the runs from zero on, in their order, where the number of
    /// the oldest run has grown beyond their count: each run whose number
    /// is not its place is renamed, and what is cached of it follows. A run
    /// whose new name is taken keeps its number, and so do the runs after
    /// it. Every run keeps its bytes and its place.
    fn rename_sstables_after_merge(&mut self)
        requires
            old(self).wf(),
        ensures
            final(self).wf(),
            final(self).next_number() == old(self).next_number(),
            same_segments(old(self).files(), final(self).files()),
            final(self).mem_entries() == old(self).mem_entries(),
            final(self).frozen() == old(self).frozen(),
            final(self).runs() == old(self).runs(),
            final(self).run_list().len() == old(self).run_list().len(),
            final(self).segments() == old(self).segments(),
            final(self).configuration() == old(self).configuration(),
            final(self).transactions() == old(self).transactions(),
            if old(self).ss_tables@.len() == 0 || old(self).ss_tables@[0].number <= old(self).ss_tables@.len() {
                final(self).ss_tables@ == old(self).ss_tables@ && final(self).files() == old(self).files() && final(self).pending() == old(self).pending()
            } else {
                exists|m: int| #[trigger]
                    renumbered_to(old(self).ss_tables@, final(self).ss_tables@, final(self).files(), m)
                        && final(self).pending() == old(self).pending() + renames_up_to(
                        old(self).ss_tables@,
                        m,
                    )
            },
    {
        let n = self.ss_tables.len();
        if n == 0 || self.ss_tables[0].number <= n as u64 {
            return ;
        }
        let mut i: usize = 0;
        let mut going = true;
        assert(self.pending() =~= old(self).pending() + renames_up_to(old(self).ss_tables@, 0));
        while i < n && going
            invariant
                i <= n,
                n == self.ss_tables@.len(),
                n == old(self).ss_tables@.len(),
                self.wf(),
                self.next_number() == old(self).next_number(),
                same_segments(old(self).files(), self.files()),
                self.mem_entries() == old(self).mem_entries(),
                self.frozen() == old(self).frozen(),
                self.runs() == old(self).runs(),
                self.run_list().len() == old(self).run_list().len(),
                self.segments() == old(self).segments(),
                self.configuration() == old(self).configuration(),
                self.transactions() == old(self).transactions(),
                forall|j: int| 0 <= j < i ==> (#[trigger] self.ss_tables@[j]).number == j,
                forall|j: int| i <= j < n ==> #[trigger] self.ss_tables@[j] == old(self).ss_tables@[j],
                self.pending() == old(self).pending() + renames_up_to(old(self).ss_tables@, i as int),
                !going ==> i < n && self.ss_tables@[i as int].number != i && self.dir.files().contains_key(
                    key_of(sstable_name(i as nat)),
                ),
            decreases
                    n - i + (if going {
                        1nat
                    } else {
                        0nat
                    }),
        {
            let number = self.ss_tables[i].number;
            proof {
                if i > 0 {
                    assert(self.ss_tables@[i as int - 1].number < self.ss_tables@[i as int].number);
                }
            }
            if number != i as u64 {
                let to = sstable_file_name(i as u64);
                if self.dir.contains(&to) {
                    going = false;
                } else {
                    let ghost before = self.dir.files();
                    let ghost listed = self.pending();
                    self.renumber_run(i);
                    proof {
                        crate::segments::lemma_same_segments_chain(
                            old(self).files(),
                            before,
                            self.dir.files(),
                        );
                        assert(self.pending() =~= old(self).pending() + renames_up_to(
                            old(self).ss_tables@,
                            i as int + 1,
                        ));
                    }
                    i += 1;
                }
            } else {
                i += 1;
            }
        }
        proof {
            assert(renumbered_to(old(self).ss_tables@, self.ss_tables@, self.dir.files(), i as int));
            assert(self.pending() == old(self).pending() + renames_up_to(
                old(self).ss_tables@,
                i as int,
            ));
        }
    }
}

/// The longest payload that a record can carry into a log frame and a
/// data block: the length of the encoded record must fit 32 bits.
pub const MAX_PAYLOAD: usize = 4294967252;

/// A key is not empty, and its length fits 32 bits.
pub open spec fn valid_key(key: Seq<u8>) -> bool {
    1 <= key.len() <= u32::MAX
}

/// Every key but `key` is found as before, except for records that do not
/// outlive a merge at `now`.
pub open spec fn others_kept(before: Tree, after: Tree, key: Seq<u8>, now: Timestamp) -> bool {
    forall|other: Seq<u8>|
        other != key ==> same_view(before.record_of(other), #[trigger] after.record_of(other), now)
}

/// The engine of `after` is that of `before` with `record` stored under
/// `key`.
pub open spec fn stored(
    before: Tree,
    after: Tree,
    key: Seq<u8>,
    record: Record,
    now: Timestamp,
) -> bool {
    &&& same_view(Some(Some(record)), after.record_of(key), now)
    &&& crate::merge::survives(record, now) ==> after.record_of(key) == Some(Some(record))
    &&& others_kept(before, after, key, now)
}

/// The two engines hold the same records, files and pending changes.
pub open spec fn unchanged(before: Tree, after: Tree) -> bool {
    &&& after.mem_entries() == before.mem_entries()
    &&& after.frozen() == before.frozen()
    &&& after.files() == before.files()
    &&& after.pending() == before.pending()
    &&& after.run_list() == before.run_list()
    &&& after.segments() == before.segments()
}

/// The name of the run that is `i` numbers after `next`.
pub open spec fn run_name_at(next: u64, i: int) -> Seq<char> {
    sstable_name((next + i) as nat)
}

/// Whether a flush of the tables, oldest first, is sure to succeed at
/// `now`, where `next` is the number of the next new run and `room` says
/// that the log can start one more segment. The numbers and names of the
/// runs to come are free, for each table and for the run of a merge; each
/// table can be stored as a run; and where more than two runs stand then,
/// the oldest of them can be read and their merge can be stored.
pub open spec fn flush_ready(
    next: u64,
    files: Files,
    runs: Seq<Seq<u8>>,
    tables: Seq<Map<Seq<u8>, Record>>,
    room: bool,
    now: Timestamp,
) -> bool {
    let below = oldest_maps(runs, runs.len() as int) + tables;
    &&& next + tables.len() < u64::MAX
    &&& forall|i: int|
        0 <= i <= tables.len() ==> !files.contains_key(key_of(#[trigger] run_name_at(next, i)))
    &&& forall|i: int|
        0 <= i < tables.len() ==> storable(crate::table::entries_of(#[trigger] tables[i]))
    &&& room
    &&& runs.len() + tables.len() > 2 ==> oldest_readable(runs, merge_width(runs.len()))
        && storable(crate::table::entries_of(crate::merge::merged(below.take(3), now)))
}

/// A flush that is sure to succeed has written `d` of its tables, and
/// `cur` is the engine then.
pub open spec fn draining(
    next: u64,
    runs: Seq<Seq<u8>>,
    tables: Seq<Map<Seq<u8>, Record>>,
    now: Timestamp,
    cur: Tree,
    d: int,
) -> bool {
    let below = oldest_maps(runs, runs.len() as int) + tables;
    &&& 0 <= d <= tables.len()
    &&& next + tables.len() < u64::MAX
    &&& cur.next_number() == next + d
    &&& cur.frozen() == tables.skip(d)
    &&& cur.runs().len() == runs.len() + d
    &&& forall|i: int|
        d <= i <= tables.len() ==> !cur.files().contains_key(key_of(#[trigger] run_name_at(next, i)))
    &&& forall|i: int|
        0 <= i < tables.len() ==> storable(crate::table::entries_of(#[trigger] tables[i]))
    &&& oldest_maps(cur.runs(), cur.runs().len() as int) + cur.frozen() == below
    &&& runs.len() + tables.len() > 2 ==> (forall|i: int|
        0 <= i < cur.runs().len() && (i >= runs.len() || i < merge_width(runs.len()))
            ==> crate::sstable::run_entries(#[trigger] cur.runs()[i]) is Some) && storable(
        crate::table::entries_of(crate::merge::merged(below.take(3), now)),
    )
}

/// A change to log segments leaves a flush as sure to succeed as it was.
pub proof fn lemma_ready_elsewhere(
    next: u64,
    files: Files,
    other: Files,
    runs: Seq<Seq<u8>>,
    tables: Seq<Map<Seq<u8>, Record>>,
    room: bool,
    now: Timestamp,
)
    requires
        logs_apart(files, other),
        flush_ready(next, files, runs, tables, room, now),
    ensures
        flush_ready(next, other, runs, tables, room, now),
{
    assert forall|i: int| 0 <= i <= tables.len() implies !other.contains_key(
        key_of(#[trigger] run_name_at(next, i)),
    ) by {
        crate::names::lemma_sstable_name((next + i) as nat);
        crate::names::lemma_names_apart(run_name_at(next, i));
        assert(agree_at(files, other, run_name_at(next, i)));
    }
}

/// A flush that is sure to succeed begins with none of its tables written.
pub proof fn lemma_draining_starts(tree: Tree, room: bool, now: Timestamp)
    requires
        flush_ready(tree.next_number(), tree.files(), tree.runs(), tree.frozen(), room, now),
    ensures
        draining(tree.next_number(), tree.runs(), tree.frozen(), now, tree, 0),
{
    assert(tree.frozen().skip(0) =~= tree.frozen());
    assert(run_name_at(tree.next_number(), 0) == tree.next_name());
}

/// The next table of a flush that is sure to succeed is not refused.
pub proof fn lemma_draining_goes(
    next: u64,
    runs: Seq<Seq<u8>>,
    tables: Seq<Map<Seq<u8>, Record>>,
    now: Timestamp,
    cur: Tree,
    d: int,
    e: TreeError,
)
    requires
        draining(next, runs, tables, now, cur, d),
        d < tables.len(),
    ensures
        !cur.write_refused(crate::table::entries_of(cur.frozen()[0]), e),
{
    assert(cur.frozen()[0] == tables[d]);
    assert(run_name_at(next, d) == cur.next_name());
    assert(!cur.files().contains_key(key_of(run_name_at(next, d))));
    assert(storable(crate::table::entries_of(tables[d])));
}

/// One more table of a flush that is sure to succeed is written.
pub proof fn lemma_draining_step(
    next: u64,
    runs: Seq<Seq<u8>>,
    tables: Seq<Map<Seq<u8>, Record>>,
    now: Timestamp,
    before: Tree,
    after: Tree,
    d: int,
)
    requires
        draining(next, runs, tables, now, before, d),
        d < tables.len(),
        flushed_one(before, after),
        after.next_number() == before.next_number() + 1,
        same_but(before.files(), after.files(), before.next_name()),
    ensures
        draining(next, runs, tables, now, after, d + 1),
{
    let below = oldest_maps(runs, runs.len() as int) + tables;
    let written = before.next_name();
    assert(after.frozen() =~= tables.skip(d + 1));
    assert(after.runs().len() == before.runs().len() + 1);
    assert forall|i: int| d + 1 <= i <= tables.len() implies !after.files().contains_key(
        key_of(#[trigger] run_name_at(next, i)),
    ) by {
        crate::names::lemma_sstable_names_differ((next + i) as nat, (next + d) as nat);
        lemma_agree_elsewhere(before.files(), after.files(), written, run_name_at(next, i));
        assert(!before.files().contains_key(key_of(run_name_at(next, i))));
    }
    let now_below = oldest_maps(after.runs(), after.runs().len() as int) + after.frozen();
    let was_below = oldest_maps(before.runs(), before.runs().len() as int) + before.frozen();
    assert(now_below =~= was_below) by {
        assert(now_below.len() == was_below.len());
        assert forall|j: int| 0 <= j < now_below.len() implies now_below[j] == was_below[j] by {
            if j < before.runs().len() {
                assert(after.runs().drop_last()[j] == before.runs()[j]);
            } else if j == before.runs().len() {
                assert(after.runs()[j] == after.runs().last());
                assert(was_below[j] == before.frozen()[0]);
            } else {
                assert(now_below[j] == after.frozen()[j - after.runs().len()]);
                assert(was_below[j] == before.frozen()[j - before.runs().len()]);
            }
        }
    }
    if runs.len() + tables.len() > 2 {
        assert forall|i: int|
            0 <= i < after.runs().len() && (i >= runs.len() || i < merge_width(
                runs.len(),
            )) implies crate::sstable::run_entries(#[trigger] after.runs()[i]) is Some by {
            if i < before.runs().len() {
                assert(after.runs().drop_last()[i] == before.runs()[i]);
            } else {
                assert(after.runs()[i] == after.runs().last());
            }
        }
    }
}

/// A reader finds under every key what it found before, except for records
/// that do not outlive a merge at `now`.
pub open spec fn view_kept(before: Tree, after: Tree, now: Timestamp) -> bool {
    forall|key: Seq<u8>| same_view(before.record_of(key), #[trigger] after.record_of(key), now)
}

/// The number of runs after a flush that has brought it to `count`: where
/// that is more than two, the three oldest runs are merged into one.
pub open spec fn runs_after_flush(count: nat, found: nat) -> bool {
    if count > 2 {
        found + 2 == count
    } else {
        found == count
    }
}

/// The errors of a flush: `Internal` where the numbers of runs are used up,
/// a name is taken or a table does not fit a run; `BloomFilter` where a
/// table has too many keys for a filter or the filter cannot be
/// serialized; `Wal` where the numbers of log segments are used up;
/// `Corruption` or `Serialization` where a run that is to be merged cannot
/// be read.
pub open spec fn flush_failure(e: TreeError) -> bool {
    e is Internal || e is BloomFilter || e is Wal || e is Corruption || e is Serialization
}

/// What storing `record` under `key` comes to: where the memtable is then
/// due for a flush, it is flushed, with the frozen memtables before it,
/// each into a run of its own; else the record stands in the memtable and
/// nothing else has changed.
pub open spec fn put_done(before: Tree, after: Tree, key: Seq<u8>, record: Record) -> bool {
    if before.due_with(key, record) {
        &&& after.mem_len() == 0
        &&& after.frozen().len() == 0
        &&& runs_after_flush(
            before.run_list().len() + before.frozen().len() + 1,
            after.run_list().len(),
        )
    } else {
        &&& after.mem() == before.mem().insert(key, record)
        &&& after.frozen() == before.frozen()
        &&& after.run_list() == before.run_list()
        &&& after.runs() == before.runs()
        &&& after.segments() == before.segments()
    }
}

/// What storing a payload under a valid key at `now` comes to. A payload of
/// more than `MAX_PAYLOAD` bytes is an `InvalidValue` error, and nothing
/// changes. Else the record is stored. Where the memtable is not due for a
/// flush then, that is all, and the result is `Ok`; where it is due, it is
/// flushed, and only the flush can fail.
pub open spec fn payload_stored(
    before: Tree,
    after: Tree,
    key: Seq<u8>,
    payload: Seq<u8>,
    ttl: Option<Span>,
    now: Timestamp,
    r: TreeResult<()>,
) -> bool {
    let record = Record::fresh(payload, ttl, now);
    if payload.len() > MAX_PAYLOAD {
        r matches Err(e) && e is InvalidValue && unchanged(before, after)
    } else {
        &&& stored(before, after, key, record, now)
        &&& r is Ok ==> put_done(before, after, key, record)
        &&& r matches Err(e) ==> flush_failure(e)
        &&& !before.due_with(key, record) ==> r is Ok
        &&& before.put_sure(key, record, now) ==> r is Ok
    }
}

/// What a put of `value` under `key` at `now` comes to. An invalid key is
/// an `InvalidKey` error, a value that the codec refuses a `Compression`
/// error: nothing changes then. Else what the codec made of the value is
/// stored as the payload, as `payload_stored` says.
pub open spec fn put_outcome(
    before: Tree,
    after: Tree,
    key: Seq<u8>,
    value: Seq<u8>,
    ttl: Option<Span>,
    now: Timestamp,
    r: TreeResult<()>,
) -> bool {
    if !valid_key(key) {
        r matches Err(e) && e is InvalidKey && unchanged(before, after)
    } else {
        match before.codec().encoded(value) {
            None => r matches Err(e) && e is Compression && unchanged(before, after),
            Some(payload) => payload_stored(before, after, key, payload, ttl, now, r) && (r is Ok
                ==> before.codec().decoded(payload) == Some(value) && (payload.len() > 0 || (
            before.codec().config.compression_type
                == crate::compression::CompressionType::Uncompressed && value.len() == 0))),
        }
    }
}

impl Tree {
    /// The length of the active log segment; zero where there is none.
    pub open spec fn log_size(self) -> nat {
        if self.segments().len() > 0 && self.files().contains_key(
            segment_key(self.segments().last()),
        ) {
            self.files()[segment_key(self.segments().last())].len()
        } else {
            0
        }
    }

    /// Whether the active log segment has outgrown its limit.
    pub open spec fn log_full(self) -> bool {
        self.configuration().enable_wal && self.log_size() > self.configuration().wal_max_size
    }

    /// Whether the memtable is due for a flush: it holds more entries than
    /// the settings allow, or the active log segment has outgrown its limit.
    pub open spec fn flush_due(self) -> bool {
        self.mem_len() > self.configuration().mem_table_max_size || self.log_full()
    }

    /// Whether the memtable is due for a flush once `record` is stored
    /// under `key`.
    pub open spec fn due_with(self, key: Seq<u8>, record: Record) -> bool {
        let entries = self.mem_len() + if self.mem().contains_key(key) {
            0nat
        } else {
            1nat
        };
        let logged = self.log_size() + crate::wal::FRAME_OVERHEAD + key.len()
            + record.encoding().len();
        entries > self.configuration().mem_table_max_size || (self.configuration().enable_wal
            && logged > self.configuration().wal_max_size)
    }

    /// Logs the operation and puts the record into the memtable.
    fn store(&mut self, op: crate::wal::WalOperation, key: Vec<u8>, record: DataValue)
        requires
            old(self).wf(),
            op != crate::wal::WalOperation::Checkpoint,
            key@.len() <= u32::MAX,
            record@.data.len() <= MAX_PAYLOAD,
        ensures
            final(self).wf(),
            final(self).next_number() == old(self).next_number(),
            final(self).mem() == old(self).mem().insert(key@, record@),
            final(self).mem_len() == old(self).mem_len() + if old(self).mem().contains_key(key@) {
                0nat
            } else {
                1nat
            },
            final(self).flush_due() == old(self).due_with(key@, record@),
            final(self).log_size() == old(self).log_size() + if old(self).configuration().enable_wal {
                crate::wal::FRAME_OVERHEAD + key@.len() + record@.encoding().len()
            } else {
                0
            },
            final(self).frozen() == old(self).frozen(),
            final(self).run_list() == old(self).run_list(),
            final(self).runs() == old(self).runs(),
            final(self).segments() == old(self).segments(),
            final(self).configuration() == old(self).configuration(),
            final(self).transactions() == old(self).transactions(),
            final(self).record_of(key@) == Some(Some(record@)),
            forall|other: Seq<u8>|
                other != key@ ==> #[trigger] final(self).record_of(other) == old(self).record_of(
                    other,
                ),
            final(self).pending() == if old(self).configuration().enable_wal {
                old(self).pending().push(
                    Change::Append {
                        name: wal_name(old(self).segments().last() as nat),
                        bytes: (crate::wal::WalRecord {
                            op,
                            key: key@,
                            value: record@.encoding(),
                        }).frame(),
                    },
                )
            } else {
                old(self).pending()
            },
            logs_apart(old(self).files(), final(self).files()),
            old(self).log_sound() ==> final(self).log_sound(),
            forall|t: Timestamp|
                old(self).in_step(t) && old(self).configuration().enable_wal
                    ==> #[trigger] final(self).in_step(t),
    {
        proof {
            crate::data_value::lemma_header_layout(record@);
        }
        let ghost files = self.dir.files();
        let ghost mem = self.mem();
        let ghost written = crate::wal::WalRecord { op, key: key@, value: record@.encoding() };
        if self.settings.enable_wal {
            let frame = match crate::wal::write_entry(op, key.as_slice(), Some(&record)) {
                Ok(frame) => frame,
                Err(_) => {
                    assert(false);
                    Vec::new()
                },
            };
            self.write_to_wal(frame);
            proof {
                let after = self.dir.files();
                let segments = self.segments();
                crate::data_value::lemma_decode_encode(record@);
                crate::wal::lemma_frame_layout(written);
                assert(self.log_size() == old(self).log_size() + written.frame().len());
                if log_sound(files, segments) {
                    crate::segments::lemma_last_segment(files, segments);
                    crate::segments::lemma_sound_appended(files, after, segments, written);
                }
                assert forall|t: Timestamp| log_in_step(files, segments, mem, t) implies log_in_step(
                    after,
                    segments,
                    mem.insert(key@, record@),
                    t,
                ) by {
                    crate::segments::lemma_last_segment(files, segments);
                    crate::segments::lemma_applied(mem, written, record@, t);
                    crate::segments::lemma_logged(files, after, segments, mem, written, t);
                }
            }
        } else {
            assert(logs_apart(self.dir.files(), self.dir.files()));
        }
        self.mem_table.insert(key, record);
    }

    /// Writes the frozen memtables as new runs, the oldest first; marks the
    /// log with a checkpoint once none is left; and merges the oldest runs
    /// where more than two stand.
    ///
    /// A run that cannot be written stops the work: its memtable stays in
    /// the queue, and the log is not marked. A merge that fails leaves the
    /// runs as they are, and its error is handed on.
    fn compact(&mut self, now: &Timestamp) -> (r: TreeResult<()>)
        requires
            old(self).wf(),
        ensures
            final(self).wf(),
            final(self).mem_entries() == old(self).mem_entries(),
            final(self).configuration() == old(self).configuration(),
            final(self).transactions() == old(self).transactions(),
            forall|key: Seq<u8>|
                same_view(old(self).record_of(key), #[trigger] final(self).record_of(key), *now),
            old(self).frozen().len() == 0 && old(self).run_list().len() <= 2
                && !old(self).configuration().enable_wal ==> r is Ok && unchanged(
                *old(self),
                *final(self),
            ),
            r is Ok ==> final(self).frozen().len() == 0,
            r is Ok ==> runs_after_flush(
                old(self).run_list().len() + old(self).frozen().len(),
                final(self).run_list().len(),
            ),
            r matches Err(e) ==> flush_failure(e),
            old(self).compact_ready(*now) ==> r is Ok,
            forall|t: Timestamp|
                old(self).configuration().enable_wal && log_sound(
                    old(self).files(),
                    old(self).segments(),
                ) && r is Ok ==> #[trigger] log_in_step(
                    final(self).files(),
                    final(self).segments(),
                    Map::empty(),
                    t,
                ),
    {
        let mut failed: Option<TreeError> = None;
        let ghost ready = self.compact_ready(*now);
        let ghost next = self.next_number();
        let ghost runs0 = self.runs();
        let ghost tables = self.frozen();
        let ghost mut d: int = 0;
        proof {
            if ready {
                lemma_draining_starts(*self, self.log_room(), *now);
            }
        }
        while self.immutable_mem_tables.len() > 0 && failed.is_none()
            invariant
                self.wf(),
                ready ==> failed is None && draining(next, runs0, tables, *now, *self, d),
                failed is None ==> self.run_list().len() + self.frozen().len() == old(self).run_list().len()
                    + old(self).frozen().len(),
                same_segments(old(self).files(), self.files()),
                self.mem_entries() == old(self).mem_entries(),
                self.configuration() == old(self).configuration(),
                self.transactions() == old(self).transactions(),
                self.segments() == old(self).segments(),
                self.frozen().len() == self.immutable_mem_tables@.len(),
                forall|key: Seq<u8>| #[trigger] self.record_of(key) == old(self).record_of(key),
                failed matches Some(e) ==> e is Internal || e is BloomFilter,
                old(self).frozen().len() == 0 ==> unchanged(*old(self), *self) && failed is None,
            decreases
                    self.immutable_mem_tables@.len() + (if failed is None {
                        1nat
                    } else {
                        0nat
                    }),
        {
            let ghost before = *self;
            assert(before.frozen().len() > 0);
            match self.compact_one() {
                Ok(_) => {
                    assert(flushed_one(before, *self));
                    assert(self.frozen().len() == before.frozen().len() - 1);
                    proof {
                        if ready {
                            lemma_draining_step(next, runs0, tables, *now, before, *self, d);
                            d = d + 1;
                        }
                    }
                },
                Err(e) => {
                    assert(self.frozen() == before.frozen());
                    proof {
                        if ready {
                            lemma_draining_goes(next, runs0, tables, *now, before, d, e);
                        }
                    }
                    failed = Some(e);
                },
            }
            proof {
                assert forall|key: Seq<u8>| #[trigger] self.record_of(key) == old(self).record_of(
                    key,
                ) by {
                    assert(self.record_of(key) == before.record_of(key));
                }
                crate::segments::lemma_same_segments_chain(
                    old(self).files(),
                    before.files(),
                    self.files(),
                );
            }
        }
        match failed {
            Some(e) => {
                return Err(e);
            },
            None => {},
        }
        let ghost drained = *self;
        proof {
            crate::segments::lemma_same_segments_keep(
                old(self).files(),
                drained.files(),
                drained.segments(),
                Map::empty(),
                arbitrary(),
            );
        }
        let r = self.checkpoint_wal();
        let ghost marked = *self;
        proof {
            if ready {
                assert(r is Ok);
                assert(d == tables.len());
                let below = oldest_maps(runs0, runs0.len() as int) + tables;
                let k = merge_width(marked.run_list().len());
                if marked.run_list().len() > 2 {
                    assert(marked.runs() == drained.runs());
                    assert(run_name_at(next, d) == marked.next_name());
                    crate::names::lemma_sstable_name(marked.next_number() as nat);
                    crate::names::lemma_names_apart(marked.next_name());
                    assert(agree_at(drained.files(), marked.files(), marked.next_name()));
                    assert(oldest_maps(marked.runs(), k) =~= below.take(3)) by {
                        assert(drained.frozen().len() == 0);
                        assert(oldest_maps(drained.runs(), drained.runs().len() as int)
                            + drained.frozen() =~= oldest_maps(
                            drained.runs(),
                            drained.runs().len() as int,
                        ));
                    }
                    assert(oldest_readable(marked.runs(), k));
                    assert(marked.merge_ready(*now));
                }
            }
            assert(marked.records_as(drained));
            assert forall|key: Seq<u8>| #[trigger] marked.record_of(key) == old(self).record_of(
                key,
            ) by {
                assert(marked.record_of(key) == drained.record_of(key));
            }
        }
        if r.is_ok() && self.ss_tables.len() > 2 {
            match self.merge_sstables(now) {
                Ok(true) => {
                    let ghost merged = *self;
                    self.rename_sstables_after_merge();
                    proof {
                        crate::segments::lemma_same_segments_chain(
                            marked.files(),
                            merged.files(),
                            self.files(),
                        );
                        assert forall|key: Seq<u8>|
                            same_view(
                                old(self).record_of(key),
                                #[trigger] self.record_of(key),
                                *now,
                            ) by {
                            assert(same_view(marked.record_of(key), merged.record_of(key), *now));
                            assert(self.record_of(key) == merged.record_of(key));
                        }
                    }
                },
                Ok(false) => {
                    proof {
                        assert forall|key: Seq<u8>|
                            same_view(
                                old(self).record_of(key),
                                #[trigger] self.record_of(key),
                                *now,
                            ) by {
                            assert(same_view(marked.record_of(key), self.record_of(key), *now));
                        }
                    }
                },
                Err(e) => {
                    proof {
                        assert forall|key: Seq<u8>|
                            same_view(
                                old(self).record_of(key),
                                #[trigger] self.record_of(key),
                                *now,
                            ) by {
                            assert(same_view(marked.record_of(key), self.record_of(key), *now));
                        }
                    }
                    return Err(e);
                },
            }
        }
        proof {
            assert forall|t: Timestamp|
                old(self).configuration().enable_wal && log_sound(
                    old(self).files(),
                    old(self).segments(),
                ) && r is Ok implies #[trigger] log_in_step(
                self.files(),
                self.segments(),
                Map::empty(),
                t,
            ) by {
                assert(log_in_step(marked.files(), marked.segments(), Map::empty(), t));
                crate::segments::lemma_same_segments_keep(
                    marked.files(),
                    self.files(),
                    marked.segments(),
                    Map::empty(),
                    t,
                );
            }
        }
        r
    }

    /// Freezes the memtable and writes what is frozen to new runs.
    fn flush_mem_table(&mut self, now: &Timestamp) -> (r: TreeResult<()>)
        requires
            old(self).wf(),
        ensures
            final(self).wf(),
            final(self).mem() == Map::<Seq<u8>, Record>::empty(),
            final(self).mem_len() == 0,
            final(self).configuration() == old(self).configuration(),
            final(self).transactions() == old(self).transactions(),
            forall|key: Seq<u8>|
                same_view(old(self).record_of(key), #[trigger] final(self).record_of(key), *now),
            r is Ok ==> final(self).frozen().len() == 0,
            r is Ok ==> runs_after_flush(
                old(self).run_list().len() + old(self).frozen().len() + 1,
                final(self).run_list().len(),
            ),
            r matches Err(e) ==> flush_failure(e),
            old(self).flush_sure(*now) ==> r is Ok,
            forall|t: Timestamp| old(self).log_sound() && r is Ok ==> #[trigger] final(self).in_step(t),
    {
        self.freeze();
        let ghost frozen = *self;
        assert(frozen.runs() == old(self).runs());
        let r = self.compact(now);
        proof {
            assert forall|key: Seq<u8>|
                same_view(old(self).record_of(key), #[trigger] self.record_of(key), *now) by {
                assert(frozen.record_of(key) == old(self).record_of(key));
                assert(same_view(frozen.record_of(key), self.record_of(key), *now));
            }
        }
        r
    }

    /// Writes the memtable to a new run, unless it is empty: then nothing
    /// changes, so that a second flush after a flush does nothing.
    ///
    /// A reader finds after the flush what it found before, except for
    /// records that a merge at `now` has dropped.
    pub fn flush_at(&mut self, now: &Timestamp) -> (r: TreeResult<()>)
        requires
            old(self).wf(),
        ensures
            final(self).wf(),
            final(self).mem_len() == 0,
            final(self).configuration() == old(self).configuration(),
            final(self).transactions() == old(self).transactions(),
            forall|key: Seq<u8>|
                same_view(old(self).record_of(key), #[trigger] final(self).record_of(key), *now),
            old(self).mem_len() == 0 ==> r is Ok && unchanged(*old(self), *final(self)),
            old(self).mem_len() > 0 && r is Ok ==> final(self).frozen().len() == 0
                && runs_after_flush(
                old(self).run_list().len() + old(self).frozen().len() + 1,
                final(self).run_list().len(),
            ),
            r matches Err(e) ==> flush_failure(e),
            old(self).mem_len() > 0 && old(self).flush_sure(*now) ==> r is Ok,
            forall|t: Timestamp| old(self).in_step(t) && r is Ok ==> #[trigger] final(self).in_step(t),
            forall|t: Timestamp|
                old(self).log_sound() && old(self).mem_len() > 0 && r is Ok
                    ==> #[trigger] final(self).in_step(t),
    {
        if self.mem_table.is_empty() {
            return Ok(());
        }
        proof {
            assert forall|t: Timestamp| old(self).in_step(t) implies old(self).log_sound() by {
                if self.configuration().enable_wal {
                    crate::segments::lemma_in_step_is_sound(
                        self.files(),
                        self.segments(),
                        self.mem(),
                        t,
                    );
                }
            }
        }
        self.flush_mem_table(now)
    }

    /// Writes the memtable to a new run, with the clock's reading as the
    /// time of a merge.
    pub fn flush(&mut self) -> (r: TreeResult<()>)
        requires
            old(self).wf(),
        ensures
            final(self).wf(),
            forall|t: Timestamp| old(self).in_step(t) && r is Ok ==> #[trigger] final(self).in_step(t),
            forall|t: Timestamp|
                old(self).log_sound() && old(self).mem_len() > 0 && r is Ok
                    ==> #[trigger] final(self).in_step(t),
            final(self).mem_len() == 0,
            old(self).mem_len() == 0 ==> r is Ok && unchanged(*old(self), *final(self)),
            old(self).mem_len() > 0 && r is Ok ==> final(self).frozen().len() == 0
                && runs_after_flush(
                old(self).run_list().len() + old(self).frozen().len() + 1,
                final(self).run_list().len(),
            ),
            r matches Err(e) ==> flush_failure(e),
            final(self).configuration() == old(self).configuration(),
            final(self).transactions() == old(self).transactions(),
            exists|now: Timestamp|
                #[trigger] view_kept(*old(self), *final(self), now) && (old(self).mem_len() > 0
                    && old(self).flush_sure(now) ==> r is Ok),
    {
        let t = now();
        let r = self.flush_at(&t);
        assert(view_kept(*old(self), *self, t));
        r
    }

    /// Stores `value` under `key` at `now`, to live for `ttl` or for ever.
    ///
    /// The payload is compressed, the record is logged and put into the
    /// memtable, and the memtable is flushed where it is due. Afterwards
    /// the record is the authoritative one for the key, and every other key
    /// is found as before.
    ///
    /// An empty or overlong key is an `InvalidKey` error, a payload that
    /// the codec refuses a `Compression` error, an overlong payload an
    /// `InvalidValue` error: nothing changes then. Other errors come from
    /// a flush that was due: the record is stored nevertheless.
    pub fn put_at(&mut self, key: Vec<u8>, value: Vec<u8>, ttl: Option<Span>, now: &Timestamp) -> (r:
        TreeResult<()>)
        requires
            old(self).wf(),
        ensures
            final(self).wf(),
            forall|t: Timestamp|
                old(self).in_step(t) && old(self).configuration().enable_wal && r is Ok
                    ==> #[trigger] final(self).in_step(t),
            final(self).configuration() == old(self).configuration(),
            final(self).transactions() == old(self).transactions(),
            !valid_key(key@) <==> (r matches Err(e) && e is InvalidKey),
            put_outcome(*old(self), *final(self), key@, value@, ttl, *now, r),
    {
        if key.len() == 0 {
            return Err(TreeError::invalid_key("a key must not be empty"));
        }
        if key.len() > u32::MAX as usize {
            return Err(TreeError::invalid_key("a key must fit 32 bits of length"));
        }
        let payload = self.settings.compressor.compress(value.as_slice());
        self.put_payload_at(key, payload, ttl, now)
    }

    /// Stores under `key` at `now` the payload that the codec gave for a
    /// value, to live for `ttl` or for ever; hands on the error where the
    /// codec gave one.
    ///
    /// An empty or overlong key is an `InvalidKey` error, a payload of more
    /// than `MAX_PAYLOAD` bytes an `InvalidValue` error: nothing changes
    /// then. Else the record is logged and put into the memtable, and the
    /// memtable is flushed where it is due; only that flush can fail, and
    /// the record is stored nevertheless.
    #[verifier::rlimit(80)]
    pub fn put_payload_at(
        &mut self,
        key: Vec<u8>,
        payload: TreeResult<Vec<u8>>,
        ttl: Option<Span>,
        now: &Timestamp,
    ) -> (r: TreeResult<()>)
        requires
            old(self).wf(),
        ensures
            final(self).wf(),
            forall|t: Timestamp|
                old(self).in_step(t) && old(self).configuration().enable_wal && r is Ok
                    ==> #[trigger] final(self).in_step(t),
            final(self).configuration() == old(self).configuration(),
            final(self).transactions() == old(self).transactions(),
            if !valid_key(key@) {
                r matches Err(e) && e is InvalidKey && unchanged(*old(self), *final(self))
            } else {
                match payload {
                    Ok(bytes) => payload_stored(*old(self), *final(self), key@, bytes@, ttl, *now, r),
                    Err(refused) => r matches Err(e) && e == refused && unchanged(
                        *old(self),
                        *final(self),
                    ),
                }
            },
    {
        if key.len() == 0 {
            return Err(TreeError::invalid_key("a key must not be empty"));
        }
        if key.len() > u32::MAX as usize {
            return Err(TreeError::invalid_key("a key must fit 32 bits of length"));
        }
        let payload = match payload {
            Ok(payload) => payload,
            Err(e) => {
                return Err(e);
            },
        };
        if payload.len() > MAX_PAYLOAD {
            return Err(TreeError::invalid_value("a value must fit 32 bits of length"));
        }
        let ghost bytes = payload@;
        let record = DataValue::new_at(payload, ttl, *now);
        let ghost fresh = record@;
        self.store(crate::wal::WalOperation::Put, key, record);
        let ghost kept = *self;
        proof {
            if old(self).put_sure(key@, fresh, *now) {
                lemma_ready_elsewhere(
                    old(self).next_number(),
                    old(self).files(),
                    kept.files(),
                    old(self).runs(),
                    old(self).frozen().push(old(self).mem().insert(key@, fresh)),
                    old(self).log_room(),
                    *now,
                );
                assert(kept.flush_sure(*now));
            }
        }
        let due = self.mem_table.len() > self.settings.mem_table_max_size
            || self.should_checkpoint_wal();
        let r = if due {
            self.flush_mem_table(now)
        } else {
            Ok(())
        };
        proof {
            assert(same_view(kept.record_of(key@), self.record_of(key@), *now));
            assert forall|other: Seq<u8>| other != key@ implies same_view(
                old(self).record_of(other),
                #[trigger] self.record_of(other),
                *now,
            ) by {
                assert(kept.record_of(other) == old(self).record_of(other));
                assert(same_view(kept.record_of(other), self.record_of(other), *now));
            }
            assert(stored(*old(self), *self, key@, Record::fresh(bytes, ttl, *now), *now));
            if r is Ok {
                assert(put_done(*old(self), *self, key@, Record::fresh(bytes, ttl, *now)));
            }
        }
        r
    }
}

impl Tree {
    /// Stores `value` under `key` now, by the clock, for ever.
    pub fn put(&mut self, key: Vec<u8>, value: Vec<u8>) -> (r: TreeResult<()>)
        requires
            old(self).wf(),
        ensures
            final(self).wf(),
            forall|t: Timestamp|
                old(self).in_step(t) && old(self).configuration().enable_wal && r is Ok
                    ==> #[trigger] final(self).in_step(t),
            final(self).configuration() == old(self).configuration(),
            final(self).transactions() == old(self).transactions(),
            !valid_key(key@) <==> (r matches Err(e) && e is InvalidKey),
            exists|now: Timestamp| #[trigger]
                put_outcome(*old(self), *final(self), key@, value@, None, now, r),
    {
        self.put_to_tree(key, value, None)
    }

    /// Stores `value` under `key` now, by the clock, to live for `ttl`.
    pub fn put_with_ttl(
        &mut self,
        key: Vec<u8>,
        value: Vec<u8>,
        ttl: Option<core::time::Duration>,
    ) -> (r: TreeResult<()>)
        requires
            old(self).wf(),
        ensures
            final(self).wf(),
            forall|t: Timestamp|
                old(self).in_step(t) && old(self).configuration().enable_wal && r is Ok
                    ==> #[trigger] final(self).in_step(t),
            final(self).configuration() == old(self).configuration(),
            final(self).transactions() == old(self).transactions(),
            !valid_key(key@) <==> (r matches Err(e) && e is InvalidKey),
            exists|span: Option<Span>, now: Timestamp|
                (span is Some <==> ttl is Some) && #[trigger] put_outcome(
                    *old(self),
                    *final(self),
                    key@,
                    value@,
                    span,
                    now,
                    r,
                ),
    {
        let span = match ttl {
            Some(d) => Some(span_of(d)),
            None => None,
        };
        let ghost before = *self;
        let r = self.put_to_tree(key, value, span);
        proof {
            let now = choose|now: Timestamp| #[trigger]
                put_outcome(before, *self, key@, value@, span, now, r);
            assert(put_outcome(before, *self, key@, value@, span, now, r));
        }
        r
    }

    /// Stores `value` under `key` now, by the clock, to live for `ttl` or
    /// for ever.
    pub fn put_to_tree(&mut self, key: Vec<u8>, value: Vec<u8>, ttl: Option<Span>) -> (r:
        TreeResult<()>)
        requires
            old(self).wf(),
        ensures
            final(self).wf(),
            forall|t: Timestamp|
                old(self).in_step(t) && old(self).configuration().enable_wal && r is Ok
                    ==> #[trigger] final(self).in_step(t),
            final(self).configuration() == old(self).configuration(),
            final(self).transactions() == old(self).transactions(),
            !valid_key(key@) <==> (r matches Err(e) && e is InvalidKey),
            exists|now: Timestamp| #[trigger]
                put_outcome(*old(self), *final(self), key@, value@, ttl, now, r),
    {
        let t = now();
        let r = self.put_at(key, value, ttl, &t);
        assert(put_outcome(*old(self), *self, key@, value@, ttl, t, r));
        r
    }

    /// Deletes `key` at `now`: where a reader finds something under the
    /// key, a tombstone is logged and put into the memtable, and `true`
    /// comes back. Where a reader finds nothing, nothing changes and
    /// `false` comes back.
    ///
    /// Fails, and changes nothing, where the key cannot be looked up, or
    /// with `InvalidKey` where it is too long for a log frame.
    pub fn delete_at(&mut self, key: &[u8], now: &Timestamp) -> (r: TreeResult<bool>)
        requires
            old(self).wf(),
        ensures
            final(self).wf(),
            forall|t: Timestamp|
                old(self).in_step(t) && old(self).configuration().enable_wal && r is Ok
                    ==> #[trigger] final(self).in_step(t),
            final(self).configuration() == old(self).configuration(),
            final(self).transactions() == old(self).transactions(),
            deleted(*old(self), *final(self), key@, *now, r),
    {
        let found = self.contains_key_at(key, now)?;
        if !found {
            return Ok(false);
        }
        if key.len() > u32::MAX as usize {
            return Err(TreeError::invalid_key("a key must fit 32 bits of length"));
        }
        let owned = copy_range(key, 0, key.len());
        assert(owned@ =~= key@);
        self.store(crate::wal::WalOperation::Delete, owned, DataValue::tombstone_at(*now));
        Ok(true)
    }

    /// Deletes `key` now, by the clock.
    pub fn delete(&mut self, key: &[u8]) -> (r: TreeResult<bool>)
        requires
            old(self).wf(),
        ensures
            final(self).wf(),
            final(self).configuration() == old(self).configuration(),
            final(self).transactions() == old(self).transactions(),
            forall|t: Timestamp|
                old(self).in_step(t) && old(self).configuration().enable_wal && r is Ok
                    ==> #[trigger] final(self).in_step(t),
            r matches Ok(false) ==> unchanged(*old(self), *final(self)),
            r is Err ==> unchanged(*old(self), *final(self)),
            exists|now: Timestamp| #[trigger] deleted(*old(self), *final(self), key@, now, r),
    {
        let t = now();
        let r = self.delete_at(key, &t);
        assert(deleted(*old(self), *self, key@, t, r));
        r
    }

    /// The time that the record of `key` in the memtable has left at `now`:
    /// none where the memtable holds no record of the key, or the record
    /// has no expiry or is expired.
    pub fn get_ttl_at(&self, key: &[u8], now: &Timestamp) -> (r: Option<Span>)
        ensures
            r == self.ttl_at(key@, *now),
    {
        match self.mem_table.get(key) {
            Some(value) => {
                if value.is_expired_at(now) {
                    None
                } else {
                    match value.expires_at {
                        Some(expiry) => expiry.remaining(now),
                        None => None,
                    }
                }
            },
            None => None,
        }
    }

    /// The time that the record of `key` in the memtable has left now, by
    /// the clock.
    pub fn get_ttl(&self, key: &[u8]) -> (r: Option<Span>)
        ensures
            exists|now: Timestamp| r == #[trigger] self.ttl_at(key@, now),
    {
        let t = now();
        let r = self.get_ttl_at(key, &t);
        assert(r == self.ttl_at(key@, t));
        r
    }

    /// Gives the record of `key` in the memtable a new time to live from
    /// `now` on, or none, and logs the record anew. Says whether it did:
    /// it does not where the memtable holds no record of the key, or the
    /// record is a tombstone or expired.
    pub fn update_ttl_at(&mut self, key: &[u8], new_ttl: Option<Span>, now: &Timestamp) -> (r:
        TreeResult<bool>)
        requires
            old(self).wf(),
        ensures
            final(self).wf(),
            forall|t: Timestamp|
                old(self).in_step(t) && old(self).configuration().enable_wal && r is Ok
                    ==> #[trigger] final(self).in_step(t),
            final(self).configuration() == old(self).configuration(),
            final(self).transactions() == old(self).transactions(),
            r is Ok,
            ttl_set(*old(self), *final(self), key@, new_ttl, *now, r),
    {
        let updated = match self.mem_table.get(key) {
            Some(value) => {
                if value.is_tombstone() || value.is_expired_at(now) || key.len() > u32::MAX as usize
                    || value.get_data().len() > MAX_PAYLOAD {
                    return Ok(false);
                }
                let copy = value.duplicate();
                DataValue {
                    data: copy.data,
                    expires_at: match new_ttl {
                        Some(span) => Some(now.plus(&span)),
                        None => None,
                    },
                    created_at: copy.created_at,
                    is_tombstone: copy.is_tombstone,
                    transaction_id: copy.transaction_id,
                }
            },
            None => {
                return Ok(false);
            },
        };
        let owned = copy_range(key, 0, key.len());
        assert(owned@ =~= key@);
        self.store(crate::wal::WalOperation::Put, owned, updated);
        Ok(true)
    }

    /// Gives the record of `key` in the memtable a new time to live from
    /// now on, by the clock.
    pub fn update_ttl(&mut self, key: &[u8], new_ttl: Option<core::time::Duration>) -> (r:
        TreeResult<bool>)
        requires
            old(self).wf(),
        ensures
            final(self).wf(),
            final(self).configuration() == old(self).configuration(),
            final(self).transactions() == old(self).transactions(),
            forall|t: Timestamp|
                old(self).in_step(t) && old(self).configuration().enable_wal && r is Ok
                    ==> #[trigger] final(self).in_step(t),
            r is Ok,
            r matches Ok(false) ==> unchanged(*old(self), *final(self)),
            exists|span: Option<Span>, now: Timestamp|
                (span is Some <==> new_ttl is Some) && #[trigger] ttl_set(
                    *old(self),
                    *final(self),
                    key@,
                    span,
                    now,
                    r,
                ),
    {
        let span = match new_ttl {
            Some(d) => Some(span_of(d)),
            None => None,
        };
        let t = now();
        let r = self.update_ttl_at(key, span, &t);
        assert(ttl_set(*old(self), *self, key@, span, t, r));
        r
    }

    /// The counters of the index cache.
    pub fn get_cache_stats(&self) -> (s: crate::cache::CacheStats)
        ensures
            s == self.index_counters(),
            s.memory_usage <= s.memory_limit,
    {
        self.index_cache.stats()
    }

    /// The counters of the index cache.
    pub fn get_index_cache_stats(&self) -> (s: crate::cache::CacheStats)
        ensures
            s == self.index_counters(),
            s.memory_usage <= s.memory_limit,
    {
        self.index_cache.stats()
    }

    /// The counters of the value cache.
    pub fn get_value_cache_stats(&self) -> (s: crate::cache::CacheStats)
        ensures
            s == self.value_counters(),
            s.memory_usage <= s.memory_limit,
    {
        self.value_cache.stats()
    }

    /// Empties the index cache. Every key is found as before.
    pub fn clear_index_cache(&mut self)
        requires
            old(self).wf(),
        ensures
            final(self).wf(),
            final(self).index_counters() == crate::cache::emptied(old(self).index_counters()),
            final(self).value_counters() == old(self).value_counters(),
            unchanged(*old(self), *final(self)),
            final(self).configuration() == old(self).configuration(),
            final(self).transactions() == old(self).transactions(),
    {
        self.index_cache.clear();
    }

    /// Empties the value cache. Every key is found as before.
    pub fn clear_value_cache(&mut self)
        requires
            old(self).wf(),
        ensures
            final(self).wf(),
            final(self).value_counters() == crate::cache::emptied(old(self).value_counters()),
            final(self).index_counters() == old(self).index_counters(),
            unchanged(*old(self), *final(self)),
            final(self).configuration() == old(self).configuration(),
            final(self).transactions() == old(self).transactions(),
    {
        self.value_cache.clear();
    }

    /// Empties the memtable. The frozen memtables, the runs and the log
    /// stay as they are: what the log holds of the memtable comes back
    /// when the engine is opened again.
    pub fn clear_mem_table(&mut self)
        requires
            old(self).wf(),
        ensures
            final(self).wf(),
            final(self).mem_len() == 0,
            final(self).mem() == Map::<Seq<u8>, Record>::empty(),
            final(self).frozen() == old(self).frozen(),
            final(self).files() == old(self).files(),
            final(self).pending() == old(self).pending(),
            final(self).run_list() == old(self).run_list(),
            final(self).segments() == old(self).segments(),
            final(self).configuration() == old(self).configuration(),
            final(self).transactions() == old(self).transactions(),
    {
        self.mem_table.clear();
    }

    /// Takes the records that are expired at `now` out of the memtable and
    /// out of the frozen memtables. The runs and the log stay as they are.
    pub fn cleanup_expired_at(&mut self, now: &Timestamp)
        requires
            old(self).wf(),
        ensures
            final(self).wf(),
            final(self).mem() == crate::merge::unexpired(old(self).mem(), *now),
            final(self).frozen().len() == old(self).frozen().len(),
            forall|i: int|
                0 <= i < old(self).frozen().len() ==> #[trigger] final(self).frozen()[i]
                    == crate::merge::unexpired(old(self).frozen()[i], *now),
            final(self).files() == old(self).files(),
            final(self).pending() == old(self).pending(),
            final(self).run_list() == old(self).run_list(),
            final(self).segments() == old(self).segments(),
            final(self).configuration() == old(self).configuration(),
            final(self).transactions() == old(self).transactions(),
    {
        self.mem_table = crate::merge::retain_unexpired(&self.mem_table, now);
        let n = self.immutable_mem_tables.len();
        let mut i: usize = 0;
        while i < n
            invariant
                i <= n,
                n == self.immutable_mem_tables@.len(),
                n == old(self).immutable_mem_tables@.len(),
                self.wf(),
                self.mem() == crate::merge::unexpired(old(self).mem(), *now),
                forall|j: int|
                    0 <= j < i ==> (#[trigger] self.immutable_mem_tables@[j]).map()
                        == crate::merge::unexpired(old(self).immutable_mem_tables@[j].map(), *now),
                forall|j: int|
                    i <= j < n ==> #[trigger] self.immutable_mem_tables@[j] == old(self).immutable_mem_tables@[j],
                self.files() == old(self).files(),
                self.pending() == old(self).pending(),
                self.run_list() == old(self).run_list(),
                self.segments() == old(self).segments(),
                self.configuration() == old(self).configuration(),
                self.transactions() == old(self).transactions(),
            decreases n - i,
        {
            let kept = crate::merge::retain_unexpired(&self.immutable_mem_tables[i], now);
            self.immutable_mem_tables.set(i, kept);
            i += 1;
        }
    }

    /// Takes the records that are expired now, by the clock, out of the
    /// memtable and out of the frozen memtables.
    pub fn cleanup_expired(&mut self) -> (r: TreeResult<()>)
        requires
            old(self).wf(),
        ensures
            final(self).wf(),
            r is Ok,
            final(self).files() == old(self).files(),
            final(self).pending() == old(self).pending(),
            final(self).run_list() == old(self).run_list(),
            final(self).segments() == old(self).segments(),
            final(self).configuration() == old(self).configuration(),
            final(self).transactions() == old(self).transactions(),
            final(self).frozen().len() == old(self).frozen().len(),
            exists|now: Timestamp|
                final(self).mem() == #[trigger] crate::merge::unexpired(old(self).mem(), now)
                    && forall|i: int|
                    0 <= i < old(self).frozen().len() ==> #[trigger] final(self).frozen()[i]
                        == crate::merge::unexpired(old(self).frozen()[i], now),
    {
        let t = now();
        self.cleanup_expired_at(&t);
        assert(self.mem() == crate::merge::unexpired(old(self).mem(), t));
        Ok(())
    }

    /// Hands out the changes to the files that are yet to be carried out,
    /// oldest first, and forgets them.
    pub fn take_pending(&mut self) -> (actions: Vec<DiskAction>)
        requires
            old(self).wf(),
        ensures
            final(self).wf(),
            crate::directory::changes_of(actions@) == old(self).pending(),
            final(self).pending().len() == 0,
            final(self).mem_entries() == old(self).mem_entries(),
            final(self).frozen() == old(self).frozen(),
            final(self).files() == old(self).files(),
            final(self).run_list() == old(self).run_list(),
            final(self).segments() == old(self).segments(),
            final(self).configuration() == old(self).configuration(),
            final(self).transactions() == old(self).transactions(),
    {
        self.dir.take_pending()
    }

    /// The settings of the engine.
    pub fn settings(&self) -> (s: &TreeSettings)
        ensures
            *s == self.configuration(),
            self.wf() ==> s.consistent(),
    {
        &self.settings
    }

    /// The settings of an engine that is in order are consistent, so that
    /// an engine can be opened with them again.
    pub proof fn lemma_settings_consistent(self)
        requires
            self.wf(),
        ensures
            self.configuration().consistent(),
    {
    }

    /// The number of sorted runs.
    pub fn run_count(&self) -> (n: usize)
        ensures
            n == self.run_list().len(),
    {
        self.ss_tables.len()
    }

    /// The names of the files of the sorted runs, from the oldest to the
    /// newest.
    pub fn run_names(&self) -> (names: Vec<String>)
        ensures
            names@.len() == self.run_list().len(),
            forall|i: int| 0 <= i < names@.len() ==> (#[trigger] names@[i])@ == self.run_list()[i],
    {
        let mut names: Vec<String> = Vec::new();
        let mut i: usize = 0;
        while i < self.ss_tables.len()
            invariant
                i <= self.ss_tables@.len(),
                names@.len() == i,
                forall|j: int| 0 <= j < i ==> (#[trigger] names@[j])@ == self.ss_tables@[j].name@,
            decreases self.ss_tables.len() - i,
        {
            names.push(self.ss_tables[i].name.clone());
            i += 1;
        }
        names
    }

    /// The numbers of the log segments, in ascending order.
    pub fn wal_segment_numbers(&self) -> (numbers: Vec<u16>)
        ensures
            numbers@ == self.segments(),
    {
        let mut numbers: Vec<u16> = Vec::new();
        let mut i: usize = 0;
        while i < self.wal_segments.len()
            invariant
                i <= self.wal_segments@.len(),
                numbers@ == self.wal_segments@.take(i as int),
            decreases self.wal_segments.len() - i,
        {
            numbers.push(self.wal_segments[i]);
            assert(self.wal_segments@.take(i as int + 1) =~= self.wal_segments@.take(
                i as int,
            ).push(self.wal_segments@[i as int]));
            i += 1;
        }
        assert(self.wal_segments@.take(i as int) =~= self.wal_segments@);
        numbers
    }

    /// The transactions in flight and the version stamps.
    pub fn transaction_manager(&self) -> (m: &TransactionManager)
        ensures
            *m == self.transactions(),
    {
        &self.tx_manager
    }

    /// The number of entries in the memtable.
    pub fn mem_table_len(&self) -> (n: usize)
        ensures
            n == self.mem_len(),
    {
        self.mem_table.len()
    }
}

/// The files of a directory listing; of two files with one name the later
/// one counts.
pub open spec fn listing(files: Seq<FileEntry>) -> Files
    decreases files.len(),
{
    if files.len() == 0 {
        Map::empty()
    } else {
        listing(files.drop_last()).insert(key_of(files.last().name@), files.last().bytes@)
    }
}

/// The memtable after the entries of a log segment were applied to it: a
/// put stores its record, a delete stores the tombstone that was logged or
/// else a tombstone made at `now`, and a checkpoint changes nothing.
pub open spec fn replayed_entries(
    mem: Map<Seq<u8>, Record>,
    records: Seq<crate::wal::WalRecord>,
    now: Timestamp,
) -> Map<Seq<u8>, Record>
    decreases records.len(),
{
    if records.len() == 0 {
        mem
    } else {
        let before = replayed_entries(mem, records.drop_last(), now);
        let entry = records.last().entry();
        match entry.op {
            crate::wal::WalOperation::Checkpoint => before,
            crate::wal::WalOperation::Put => match entry.value {
                Some(record) => before.insert(entry.key, record),
                None => before,
            },
            crate::wal::WalOperation::Delete => before.insert(
                entry.key,
                match entry.value {
                    Some(record) => record,
                    None => Record::tombstone_at(now),
                },
            ),
        }
    }
}

/// Every record of the segment can be read.
pub open spec fn all_readable_records(records: Seq<crate::wal::WalRecord>) -> bool {
    forall|i: int| 0 <= i < records.len() ==> (#[trigger] records[i]).readable()
}

/// The memtable that recovery builds from the log segments of these
/// numbers, taken in order: a segment that is missing or ends with a
/// checkpoint is left out, every other segment is replayed. Nothing where
/// a segment cannot be read.
pub open spec fn recovered(files: Files, numbers: Seq<u16>, now: Timestamp) -> Option<
    Map<Seq<u8>, Record>,
>
    decreases numbers.len(),
{
    if numbers.len() == 0 {
        Some(Map::empty())
    } else {
        match recovered(files, numbers.drop_last(), now) {
            None => None,
            Some(mem) => if !files.contains_key(key_of(wal_name(numbers.last() as nat))) {
                Some(mem)
            } else {
                let bytes = files[key_of(wal_name(numbers.last() as nat))];
                match crate::wal::records_of(bytes) {
                    Err(_) => None,
                    Ok(records) => if crate::wal::ends_with_checkpoint(bytes) {
                        Some(mem)
                    } else if all_readable_records(records) {
                        Some(replayed_entries(mem, records, now))
                    } else {
                        None
                    },
                }
            },
        }
    }
}

/// Applies the entries of a log segment to a memtable.
fn replay_entries(table: &mut Table, entries: Vec<crate::wal::WalEntry>, now: &Timestamp, Ghost(
    records,
): Ghost<Seq<crate::wal::WalRecord>>)
    requires
        entries@.len() == records.len(),
        forall|i: int|
            0 <= i < records.len() ==> (#[trigger] records[i]).readable() && entries@[i]@
                == records[i].entry(),
    ensures
        final(table).map() == replayed_entries(old(table).map(), records, *now),
{
    let mut entries = entries;
    let ghost all = entries@;
    let n = entries.len();
    let mut i: usize = 0;
    proof {
        assert(records.take(0) =~= Seq::<crate::wal::WalRecord>::empty());
        assert(all.skip(0) =~= all);
    }
    while i < n
        invariant
            i <= n,
            n == all.len(),
            n == records.len(),
            entries@ == all.skip(i as int),
            forall|k: int| 0 <= k < records.len() ==> (#[trigger] records[k]).readable() && all[k]@
                == records[k].entry(),
            table.map() == replayed_entries(old(table).map(), records.take(i as int), *now),
        decreases n - i,
    {
        let entry = entries.remove(0);
        proof {
            assert(entry == all[i as int]);
            assert(entries@ =~= all.skip(i as int + 1));
            assert(records.take(i as int + 1).drop_last() =~= records.take(i as int));
            assert(records.take(i as int + 1).last() == records[i as int]);
            assert(records[i as int].readable());
        }
        let crate::wal::WalEntry { op, key, value } = entry;
        match op {
            crate::wal::WalOperation::Checkpoint => {},
            crate::wal::WalOperation::Put => match value {
                Some(record) => {
                    table.insert(key, record);
                },
                None => {},
            },
            crate::wal::WalOperation::Delete => {
                let record = match value {
                    Some(record) => record,
                    None => DataValue::tombstone_at(*now),
                };
                table.insert(key, record);
            },
        }
        i += 1;
    }
    proof {
        assert(records.take(n as int) =~= records);
    }
}

/// Puts a number into a list of growing numbers, at its place; a number
/// that the list holds already is left out.
pub fn insert_number(numbers: &mut Vec<u16>, number: u16)
    requires
        ascending(old(numbers)@),
    ensures
        ascending(final(numbers)@),
        forall|x: u16| final(numbers)@.contains(x) <==> old(numbers)@.contains(x) || x == number,
{
    let mut i: usize = 0;
    while i < numbers.len() && numbers[i] < number
        invariant
            i <= numbers@.len(),
            numbers@ == old(numbers)@,
            forall|k: int| 0 <= k < i ==> numbers@[k] < number,
        decreases numbers.len() - i,
    {
        i += 1;
    }
    let ghost before = numbers@;
    if i < numbers.len() && numbers[i] == number {
        assert(before.contains(number)) by {
            assert(before[i as int] == number);
        }
        return ;
    }
    numbers.insert(i, number);
    proof {
        let after = numbers@;
        assert forall|a: int, b: int| 0 <= a < b < after.len() implies after[a] < after[b] by {
            if b < i {
                assert(after[a] == before[a] && after[b] == before[b]);
            } else if b == i {
                assert(after[a] == before[a]);
            } else if a < i {
                assert(after[a] == before[a] && after[b] == before[b - 1]);
                if b - 1 > i {
                    assert(before[i as int] < before[b - 1]);
                }
            } else if a == i {
                assert(after[b] == before[b - 1]);
                if b - 1 > i {
                    assert(before[i as int] < before[b - 1]);
                }
            } else {
                assert(after[a] == before[a - 1] && after[b] == before[b - 1]);
            }
        }
        assert forall|x: u16| after.contains(x) <==> before.contains(x) || x == number by {
            if after.contains(x) {
                let k = choose|k: int| 0 <= k < after.len() && after[k] == x;
                if k < i {
                    assert(before[k] == x);
                } else if k > i {
                    assert(before[k - 1] == x);
                }
            }
            if before.contains(x) {
                let k = choose|k: int| 0 <= k < before.len() && before[k] == x;
                if k < i {
                    assert(after[k] == x);
                } else {
                    assert(after[k + 1] == x);
                }
            }
            if x == number {
                assert(after[i as int] == x);
            }
        }
    }
}

/// Puts a run into a list of runs with growing numbers, at its place; a
/// run whose number the list holds already is left out.
fn insert_run(runs: &mut Vec<RunRef>, run: RunRef, Ghost(files): Ghost<Files>)
    requires
        runs_in_order(files, old(runs)@),
        run.name@ == sstable_name(run.number as nat),
        files.contains_key(key_of(run.name@)),
    ensures
        runs_in_order(files, final(runs)@),
        forall|x: u64|
            run_numbers(final(runs)@).contains(x) <==> run_numbers(old(runs)@).contains(x) || x
                == run.number,
{
    let mut i: usize = 0;
    while i < runs.len() && runs[i].number < run.number
        invariant
            i <= runs@.len(),
            runs@ == old(runs)@,
            forall|k: int| 0 <= k < i ==> (#[trigger] runs@[k]).number < run.number,
        decreases runs.len() - i,
    {
        i += 1;
    }
    let ghost before = runs@;
    let ghost number = run.number;
    if i < runs.len() && runs[i].number == run.number {
        assert(run_numbers(before).contains(number)) by {
            assert(run_numbers(before)[i as int] == number);
        }
        return ;
    }
    runs.insert(i, run);
    proof {
        let after = runs@;
        assert forall|k: int| 0 <= k < after.len() implies (#[trigger] after[k]).name@
            == sstable_name(after[k].number as nat) && files.contains_key(key_of(after[k].name@)) by {
            if k < i {
                assert(after[k] == before[k]);
            } else if k > i {
                assert(after[k] == before[k - 1]);
            }
        }
        assert forall|a: int, b: int| 0 <= a < b < after.len() implies (#[trigger] after[a]).number
            < (#[trigger] after[b]).number by {
            if b < i {
                assert(after[a] == before[a] && after[b] == before[b]);
            } else if b == i {
                assert(after[a] == before[a]);
            } else if a < i {
                assert(after[a] == before[a] && after[b] == before[b - 1]);
                if b - 1 > i {
                    assert(before[i as int].number < before[b - 1].number);
                }
            } else if a == i {
                assert(after[b] == before[b - 1]);
                if b - 1 > i {
                    assert(before[i as int].number < before[b - 1].number);
                }
            } else {
                assert(after[a] == before[a - 1] && after[b] == before[b - 1]);
            }
        }
        assert forall|x: u64| run_numbers(after).contains(x) <==> run_numbers(before).contains(x)
            || x == number by {
            if run_numbers(after).contains(x) {
                let k = choose|k: int| 0 <= k < after.len() && run_numbers(after)[k] == x;
                if k < i {
                    assert(run_numbers(before)[k] == x);
                } else if k > i {
                    assert(run_numbers(before)[k - 1] == x);
                }
            }
            if run_numbers(before).contains(x) {
                let k = choose|k: int| 0 <= k < before.len() && run_numbers(before)[k] == x;
                if k < i {
                    assert(run_numbers(after)[k] == x);
                } else {
                    assert(run_numbers(after)[k + 1] == x);
                }
            }
            if x == number {
                assert(run_numbers(after)[i as int] == x);
            }
        }
    }
}

/// The numbers of the runs.
pub open spec fn run_numbers(runs: Seq<RunRef>) -> Seq<u64> {
    Seq::new(runs.len(), |i: int| runs[i].number)
}

/// Whether the file of the name `name` is a sorted run that the engine
/// takes into its list: the name is that of a run, written without leading
/// zeros, and the file has a sound header and footer.
pub open spec fn is_listed_run(files: Files, name: Seq<char>) -> bool {
    &&& sstable_number(name) matches Some(n)
    &&& name == sstable_name(n)
    &&& files.contains_key(key_of(name))
    &&& crate::sstable::header_valid(files[key_of(name)])
    &&& crate::sstable::footer_of(files[key_of(name)]) is Some
}

/// Recovery that fails on the first segments fails on all of them.
pub proof fn lemma_recovered_prefix(files: Files, numbers: Seq<u16>, i: int, now: Timestamp)
    requires
        0 <= i <= numbers.len(),
        recovered(files, numbers.take(i), now) is None,
    ensures
        recovered(files, numbers, now) is None,
    decreases numbers.len() - i,
{
    if i == numbers.len() {
        assert(numbers.take(i) =~= numbers);
    } else {
        assert(numbers.take(i + 1).drop_last() =~= numbers.take(i));
        lemma_recovered_prefix(files, numbers, i + 1, now);
    }
}

impl Tree {
    /// An engine on an empty directory.
    ///
    /// Where the log is on, its first segment is started. Inconsistent
    /// settings are refused with a `Configuration` error.
    pub fn new_with_settings(settings: TreeSettings) -> (r: TreeResult<Tree>)
        ensures
            match r {
                Ok(tree) => {
                    &&& tree.wf()
                    &&& settings.consistent()
                    &&& tree.configuration() == settings
                    &&& tree.mem_len() == 0
                    &&& tree.frozen().len() == 0
                    &&& tree.run_list().len() == 0
                    &&& forall|key: Seq<u8>| #[trigger] tree.record_of(key) == Some(None::<Record>)
                    &&& tree.segments() == if settings.enable_wal {
                        seq![1u16]
                    } else {
                        Seq::<u16>::empty()
                    }
                    &&& forall|t: Timestamp| #[trigger] tree.in_step(t)
                    &&& first_state(tree.transactions())
                },
                Err(e) => e is Configuration && !settings.consistent(),
            },
    {
        settings.validate()?;
        let mut dir = Directory::new();
        let mut wal_segments: Vec<u16> = Vec::new();
        if settings.enable_wal {
            let name = wal_file_name(1);
            dir.append(&name, Vec::new());
            wal_segments.push(1);
        }
        let index_cache = LRUIndexCache::new(
            settings.index_cache_max_capacity,
            settings.index_cache_memory_limit,
        );
        let value_cache = LRUValueCache::new(
            settings.value_cache_max_capacity,
            settings.value_cache_memory_limit,
        );
        let tree = Tree {
            mem_table: Table::new(),
            immutable_mem_tables: Vec::new(),
            ss_tables: Vec::new(),
            bloom_filters: Vec::new(),
            settings,
            index_cache,
            value_cache,
            wal_segments,
            next_run_number: 0,
            dir,
            tx_manager: TransactionManager::new(),
        };
        proof {
            assert(tree.frozen() =~= Seq::<Map<Seq<u8>, Record>>::empty());
            assert(tree.runs() =~= Seq::<Seq<u8>>::empty());
            assert(tree.segments() =~= if settings.enable_wal {
                seq![1u16]
            } else {
                Seq::<u16>::empty()
            });
            assert forall|t: Timestamp| #[trigger] tree.in_step(t) by {
                if settings.enable_wal {
                    crate::segments::lemma_first_segment(
                        Map::<Seq<u8>, Seq<u8>>::empty(),
                        tree.files(),
                        1,
                        t,
                    );
                }
            }
        }
        Ok(tree)
    }

    /// An engine on an empty directory, with the default settings.
    pub fn new() -> (r: TreeResult<Tree>)
        ensures
            r matches Ok(tree) && tree.wf() && tree.mem_len() == 0 && tree.run_list().len() == 0
                && (forall|key: Seq<u8>| #[trigger] tree.record_of(key) == Some(None::<Record>))
                && forall|t: Timestamp| #[trigger] tree.in_step(t),
            r matches Ok(tree) && tree.frozen().len() == 0 && tree.configuration().limits()
                == TreeSettings::default_limits() && tree.configuration().db_path@
                == crate::settings::default_path() && first_state(tree.transactions()),
    {
        Self::new_with_settings(TreeSettings::default())
    }

    /// An engine on an empty directory at `path`, with the default settings
    /// otherwise.
    pub fn new_with_path(path: &str) -> (r: TreeResult<Tree>)
        ensures
            r matches Ok(tree) && tree.wf() && tree.mem_len() == 0 && tree.run_list().len() == 0
                && tree.configuration().db_path@ == path@ && (forall|key: Seq<u8>| #[trigger]
                tree.record_of(key) == Some(None::<Record>)) && forall|t: Timestamp| #[trigger]
                tree.in_step(t),
            r matches Ok(tree) && tree.frozen().len() == 0 && tree.configuration().limits()
                == TreeSettings::default_limits() && first_state(tree.transactions()),
    {
        let d = TreeSettings::default();
        Self::new_with_settings(TreeSettings { db_path: path.to_owned(), ..d })
    }
}

/// A file of a listing has the name of one of its entries.
pub proof fn lemma_listing_keys(files: Seq<FileEntry>, key: Seq<u8>)
    requires
        listing(files).contains_key(key),
    ensures
        exists|i: int| 0 <= i < files.len() && key_of((#[trigger] files[i]).name@) == key,
    decreases files.len(),
{
    if files.len() > 0 {
        if key == key_of(files.last().name@) {
            assert(key_of(files[files.len() - 1].name@) == key);
        } else {
            lemma_listing_keys(files.drop_last(), key);
            let i = choose|i: int|
                0 <= i < files.drop_last().len() && key_of(
                    (#[trigger] files.drop_last()[i]).name@,
                ) == key;
            assert(files[i] == files.drop_last()[i]);
        }
    }
}

/// Every entry of a listing has its file.
pub proof fn lemma_listing_has(files: Seq<FileEntry>, i: int)
    requires
        0 <= i < files.len(),
    ensures
        listing(files).contains_key(key_of(files[i].name@)),
    decreases files.len(),
{
    if i < files.len() - 1 {
        lemma_listing_has(files.drop_last(), i);
        assert(files.drop_last()[i] == files[i]);
    }
}

/// Takes a directory listing in: the files, and their names in the order
/// of the listing.
pub fn read_listing(files: Vec<FileEntry>) -> (r: (Directory, Vec<String>))
    ensures
        r.0.files() == listing(files@),
        r.0.pending().len() == 0,
        r.1@.len() == files@.len(),
        forall|i: int| 0 <= i < files@.len() ==> (#[trigger] r.1@[i])@ == files@[i].name@,
{
    let mut files = files;
    let ghost all = files@;
    let mut dir = Directory::new();
    let mut names: Vec<String> = Vec::new();
    let n = files.len();
    let mut i: usize = 0;
    proof {
        assert(all.take(0) =~= Seq::<FileEntry>::empty());
        assert(all.skip(0) =~= all);
    }
    while i < n
        invariant
            i <= n,
            n == all.len(),
            files@ == all.skip(i as int),
            dir.files() == listing(all.take(i as int)),
            dir.pending().len() == 0,
            names@.len() == i,
            forall|j: int| 0 <= j < i ==> (#[trigger] names@[j])@ == all[j].name@,
        decreases n - i,
    {
        let entry = files.remove(0);
        proof {
            assert(entry == all[i as int]);
            assert(files@ =~= all.skip(i as int + 1));
            assert(all.take(i as int + 1).drop_last() =~= all.take(i as int));
            assert(all.take(i as int + 1).last() == all[i as int]);
        }
        let FileEntry { name, bytes } = entry;
        dir.load(&name, bytes);
        names.push(name);
        i += 1;
    }
    proof {
        assert(all.take(n as int) =~= all);
    }
    (dir, names)
}

/// Whether the engine takes the file of the name `name` into its list of
/// runs: see `is_listed_run`; the number must leave room for a next one.
pub open spec fn takes_run(files: Files, name: Seq<char>) -> bool {
    is_listed_run(files, name) && sstable_number(name)->0 < u64::MAX
}

/// Finds the sorted runs among the files of the given names, in the order
/// of their numbers, and a number beyond the numbers of all files that are
/// named as runs.
pub fn find_runs(dir: &Directory, names: &Vec<String>) -> (r: (Vec<RunRef>, u64))
    requires
        forall|i: int| 0 <= i < names@.len() ==> dir.files().contains_key(
            key_of((#[trigger] names@[i])@),
        ),
    ensures
        runs_in_order(dir.files(), r.0@),
        forall|i: int| 0 <= i < r.0@.len() ==> (#[trigger] r.0@[i]).number < r.1,
        forall|i: int| 0 <= i < r.0@.len() ==> takes_run(dir.files(), (#[trigger] r.0@[i]).name@),
        forall|i: int|
            0 <= i < names@.len() && takes_run(dir.files(), (#[trigger] names@[i])@)
                ==> run_numbers(r.0@).contains(sstable_number(names@[i]@)->0 as u64),
        forall|i: int|
            0 <= i < names@.len() && sstable_number((#[trigger] names@[i])@) is Some
                && sstable_number(names@[i]@)->0 < u64::MAX ==> sstable_number(names@[i]@)->0
                < r.1,
{
    let mut runs: Vec<RunRef> = Vec::new();
    let mut top: u64 = 0;
    let mut i: usize = 0;
    while i < names.len()
        invariant
            i <= names@.len(),
            forall|j: int| 0 <= j < names@.len() ==> dir.files().contains_key(
                key_of((#[trigger] names@[j])@),
            ),
            runs_in_order(dir.files(), runs@),
            forall|j: int| 0 <= j < runs@.len() ==> (#[trigger] runs@[j]).number < top,
            forall|j: int| 0 <= j < runs@.len() ==> takes_run(
                dir.files(),
                (#[trigger] runs@[j]).name@,
            ),
            forall|j: int|
                0 <= j < i && takes_run(dir.files(), (#[trigger] names@[j])@) ==> run_numbers(
                    runs@,
                ).contains(sstable_number(names@[j]@)->0 as u64),
            forall|j: int|
                0 <= j < i && sstable_number((#[trigger] names@[j])@) is Some && sstable_number(
                    names@[j]@,
                )->0 < u64::MAX ==> sstable_number(names@[j]@)->0 < top,
        decreases names.len() - i,
    {
        let name = &names[i];
        let ghost before = runs@;
        match crate::names::parse_sstable_name(name.as_str()) {
            Some(number) => {
                if number < u64::MAX {
                    if top <= number {
                        top = number + 1;
                    }
                    let canon = sstable_file_name(number);
                    if canon == *name {
                        let bytes = match dir.read(&canon) {
                            Some(bytes) => bytes,
                            None => {
                                assert(false);
                                return (runs, top);
                            },
                        };
                        if crate::sstable::validate_sstable(bytes.as_slice()) {
                            insert_run(
                                &mut runs,
                                RunRef { name: canon, number },
                                Ghost(dir.files()),
                            );
                            proof {
                                assert forall|j: int| 0 <= j < runs@.len() implies (
                                #[trigger] runs@[j]).number < top && takes_run(
                                    dir.files(),
                                    runs@[j].name@,
                                ) by {
                                    let x = runs@[j].number;
                                    assert(run_numbers(runs@)[j] == x);
                                    assert(run_numbers(runs@).contains(x));
                                    if run_numbers(before).contains(x) {
                                        let k = choose|k: int|
                                            0 <= k < before.len() && run_numbers(before)[k] == x;
                                        assert(before[k].number == x);
                                        assert(takes_run(dir.files(), before[k].name@));
                                    }
                                }
                            }
                        }
                    }
                }
            },
            None => {},
        }
        proof {
            assert forall|j: int|
                0 <= j < i + 1 && takes_run(dir.files(), (#[trigger] names@[j])@) implies run_numbers(
                runs@,
            ).contains(sstable_number(names@[j]@)->0 as u64) by {
                if j < i {
                    assert(run_numbers(before).contains(sstable_number(names@[j]@)->0 as u64));
                }
            }
        }
        i += 1;
    }
    (runs, top)
}

/// Finds the numbers of the log segments among the given names, in
/// ascending order.
pub fn find_wal_segments(names: &Vec<String>) -> (numbers: Vec<u16>)
    ensures
        ascending(numbers@),
        forall|x: u16|
            numbers@.contains(x) <==> exists|i: int|
                0 <= i < names@.len() && (#[trigger] names@[i])@ == wal_name(x as nat),
{
    let mut numbers: Vec<u16> = Vec::new();
    let mut i: usize = 0;
    while i < names.len()
        invariant
            i <= names@.len(),
            ascending(numbers@),
            forall|x: u16|
                numbers@.contains(x) <==> exists|j: int|
                    0 <= j < i && (#[trigger] names@[j])@ == wal_name(x as nat),
        decreases names.len() - i,
    {
        let name = &names[i];
        let ghost before = numbers@;
        let found = match crate::names::parse_wal_name(name.as_str()) {
            Some(number) => {
                let canon = wal_file_name(number);
                if canon == *name {
                    insert_number(&mut numbers, number);
                    Some(number)
                } else {
                    None
                }
            },
            None => None,
        };
        proof {
            assert forall|x: u16|
                numbers@.contains(x) <==> exists|j: int|
                    0 <= j < i + 1 && (#[trigger] names@[j])@ == wal_name(x as nat) by {
                if before.contains(x) {
                    let j = choose|j: int|
                        0 <= j < i && (#[trigger] names@[j])@ == wal_name(x as nat);
                    assert(names@[j]@ == wal_name(x as nat));
                }
                if names@[i as int]@ == wal_name(x as nat) {
                    crate::names::lemma_wal_name(x as nat);
                    assert(found == Some(x));
                }
                if exists|j: int| 0 <= j < i + 1 && (#[trigger] names@[j])@ == wal_name(x as nat) {
                    let j = choose|j: int|
                        0 <= j < i + 1 && (#[trigger] names@[j])@ == wal_name(x as nat);
                    if j < i {
                        assert(before.contains(x));
                    }
                }
                if found == Some(x) {
                    assert(names@[i as int]@ == wal_name(x as nat));
                }
            }
        }
        i += 1;
    }
    numbers
}

/// Rebuilds the memtable from the log segments of the given numbers, in
/// their order: a segment that ends with a checkpoint is left out, every
/// other segment is replayed.
///
/// Fails where a segment cannot be read: with `Corruption` for a wrong
/// checksum before the last frame, with `Wal` for an unknown operation or a
/// put without a value, with `Serialization` for a value that does not
/// decode.
pub fn recover_from_wal(dir: &Directory, numbers: &Vec<u16>, now: &Timestamp) -> (r: TreeResult<
    Table,
>)
    ensures
        match r {
            Ok(table) => recovered(dir.files(), numbers@, *now) == Some(table.map()),
            Err(e) => recovered(dir.files(), numbers@, *now) is None && (e is Corruption || e is Wal
                || e is Serialization),
        },
{
    let mut table = Table::new();
    let ghost files = dir.files();
    let mut i: usize = 0;
    proof {
        assert(numbers@.take(0) =~= Seq::<u16>::empty());
    }
    while i < numbers.len()
        invariant
            i <= numbers@.len(),
            files == dir.files(),
            recovered(files, numbers@.take(i as int), *now) == Some(table.map()),
        decreases numbers.len() - i,
    {
        let name = wal_file_name(numbers[i]);
        proof {
            assert(numbers@.take(i as int + 1).drop_last() =~= numbers@.take(i as int));
            assert(numbers@.take(i as int + 1).last() == numbers@[i as int]);
        }
        let bytes = match dir.read(&name) {
            Some(bytes) => bytes,
            None => {
                i += 1;
                continue ;
            },
        };
        let ended = match crate::wal::has_checkpoint_at_end(bytes.as_slice()) {
            Ok(ended) => ended,
            Err(e) => {
                proof {
                    lemma_recovered_prefix(files, numbers@, i as int + 1, *now);
                }
                return Err(e);
            },
        };
        if !ended {
            let entries = match crate::wal::read_entries(bytes.as_slice()) {
                Ok(entries) => entries,
                Err(e) => {
                    proof {
                        lemma_recovered_prefix(files, numbers@, i as int + 1, *now);
                    }
                    return Err(e);
                },
            };
            let ghost records = crate::wal::records_of(bytes@)->Ok_0;
            replay_entries(&mut table, entries, now, Ghost(records));
        }
        i += 1;
    }
    proof {
        assert(numbers@.take(i as int) =~= numbers@);
    }
    Ok(table)
}

/// Chooses the active log segment after recovery: the first segment where
/// there is none; a new segment after the last one where that ends with a
/// checkpoint; else the last one. A write that was cut short at the end of
/// the last segment is cut off, so that the next frame follows a whole one.
///
/// Fails with `Wal` where the numbers of segments are used up, and as
/// `has_checkpoint_at_end` does where the last segment cannot be read.
pub fn init_wal(dir: &mut Directory, numbers: &mut Vec<u16>) -> (r: TreeResult<()>)
    requires
        ascending(old(numbers)@),
    ensures
        logs_apart(old(dir).files(), final(dir).files()),
        match r {
            Ok(_) => ascending(final(numbers)@) && final(numbers)@.len() > 0 && (final(numbers)@
                == old(numbers)@ || final(numbers)@.drop_last() == old(numbers)@),
            Err(e) => e is Wal || e is Corruption,
        },
        r is Err <==> old(numbers)@.len() > 0 && old(dir).files().contains_key(
            segment_key(old(numbers)@.last()),
        ) && (crate::wal::records_of(old(dir).files()[segment_key(old(numbers)@.last())]) is Err
            || (old(numbers)@.last() == u16::MAX && crate::wal::ends_with_checkpoint(
            old(dir).files()[segment_key(old(numbers)@.last())],
        ))),
        r is Ok ==> forall|mem: Map<Seq<u8>, Record>, t: Timestamp|
            crate::segments::segments_listed(old(dir).files(), old(numbers)@)
                && crate::segments::segments_closed(old(dir).files()) && recovered(
                old(dir).files(),
                old(numbers)@,
                t,
            ) == Some(mem) ==> #[trigger] log_in_step(final(dir).files(), final(numbers)@, mem, t),
{
    assert(logs_apart(dir.files(), dir.files()));
    let ghost files0 = dir.files();
    let ghost numbers0 = numbers@;
    let ghost mut trimmed = dir.files();
    let ghost mut closed = false;
    let n = numbers.len();
    let next: u16 = if n == 0 {
        1
    } else {
        let last = numbers[n - 1];
        let name = wal_file_name(last);
        let (ended, sound) = match dir.read(&name) {
            Some(bytes) => {
                let frames = crate::wal::scan_frames(bytes.as_slice())?;
                let whole = crate::wal::frames_length(&frames);
                let ended = frames.len() > 0 && frames[frames.len() - 1].op
                    == crate::wal::WalOperation::Checkpoint;
                proof {
                    let records = crate::wal::records_in(frames@);
                    crate::wal::lemma_scanned_frames(bytes@, 0);
                    if frames@.len() > 0 {
                        assert(records.last() == frames@[frames@.len() - 1]@);
                    }
                    closed = crate::wal::ends_with_checkpoint(bytes@);
                    trimmed = files0.insert(segment_key(last), crate::wal::frames_of(records));
                    if whole >= bytes@.len() {
                        assert(bytes@.subrange(0, bytes@.len() as int) =~= bytes@);
                        assert(trimmed =~= files0);
                    }
                }
                if whole < bytes.len() {
                    (ended, Some(copy_range(bytes.as_slice(), 0, whole)))
                } else {
                    (ended, None)
                }
            },
            None => (false, None),
        };
        let ghost files = dir.files();
        match sound {
            Some(bytes) => {
                dir.write(name.clone(), bytes);
                proof {
                    lemma_one_log_changed(files, dir.files(), name@);
                }
            },
            None => {},
        }
        if !ended {
            proof {
                assert forall|mem: Map<Seq<u8>, Record>, t: Timestamp|
                    crate::segments::segments_listed(files0, numbers0)
                        && crate::segments::segments_closed(files0) && recovered(
                        files0,
                        numbers0,
                        t,
                    ) == Some(mem) implies #[trigger] log_in_step(
                    dir.files(),
                    numbers@,
                    mem,
                    t,
                ) by {
                    crate::segments::lemma_last_segment(files0, numbers0);
                    crate::segments::lemma_last_trimmed(files0, trimmed, numbers0, mem, t);
                }
            }
            return Ok(());
        }
        if last == u16::MAX {
            return Err(TreeError::wal("the numbers of log segments are used up"));
        }
        last + 1
    };
    let name = wal_file_name(next);
    let ghost files = dir.files();
    let ghost before = numbers@;
    dir.append(&name, Vec::new());
    numbers.push(next);
    proof {
        lemma_one_log_changed(files, dir.files(), name@);
        lemma_logs_apart_chain(old(dir).files(), files, dir.files());
        assert(numbers@.drop_last() =~= before);
        assert forall|a: int, b: int| 0 <= a < b < numbers@.len() implies numbers@[a]
            < numbers@[b] by {
            if b < before.len() {
                assert(before[a] < before[b]);
            } else if a < before.len() - 1 {
                assert(before[a] < before[before.len() - 1]);
            }
        }
        assert forall|mem: Map<Seq<u8>, Record>, t: Timestamp|
            crate::segments::segments_listed(files0, numbers0)
                && crate::segments::segments_closed(files0) && recovered(files0, numbers0, t)
                == Some(mem) implies #[trigger] log_in_step(dir.files(), numbers@, mem, t) by {
            if n == 0 {
                assert forall|x: u16| !files0.contains_key(#[trigger] segment_key(x)) by {
                    assert(files0.contains_key(segment_key(x)) <==> numbers0.contains(x));
                }
                assert(dir.files() =~= files0.insert(segment_key(next), Seq::empty()));
                assert(numbers@ =~= seq![next]);
                crate::segments::lemma_first_segment(files0, dir.files(), next, t);
            } else {
                crate::segments::lemma_last_segment(files0, numbers0);
                crate::segments::lemma_last_trimmed(files0, trimmed, numbers0, mem, t);
                crate::segments::lemma_last_segment(trimmed, numbers0);
                assert(!trimmed.contains_key(segment_key(next))) by {
                    assert(trimmed.contains_key(segment_key(next)) <==> numbers0.contains(next));
                    if numbers0.contains(next) {
                        assert(next <= numbers0.last());
                    }
                }
                assert(dir.files() =~= trimmed.insert(segment_key(next), Seq::empty()));
                crate::segments::lemma_new_segment(trimmed, dir.files(), numbers0, next, t);
            }
        }
    }
    Ok(())
}

/// No transaction is in flight and none has been: the counters stand at
/// one, and no key has a stamp.
pub open spec fn first_state(manager: TransactionManager) -> bool {
    &&& manager.active() == Map::<u64, crate::transaction::TransactionContext>::empty()
    &&& manager.version() == 1
    &&& manager.next_id() == 1
    &&& manager.versions() == Map::<Seq<u8>, crate::transaction::VersionStamp>::empty()
}

/// Whether the log in the segments of these numbers can be opened at
/// `now`: recovery can read every segment, and a new segment can be started
/// where the last one ends with a checkpoint.
pub open spec fn log_opens(files: Files, numbers: Seq<u16>, now: Timestamp) -> bool {
    &&& recovered(files, numbers, now) is Some
    &&& !(numbers.len() > 0 && numbers.last() == u16::MAX && files.contains_key(
        segment_key(numbers.last()),
    ) && crate::wal::ends_with_checkpoint(files[segment_key(numbers.last())]))
}

/// Whether the engine can be opened on the files with the settings at
/// `now`: the settings are consistent and, where the log is on, the log
/// among the files can be opened.
pub open spec fn openable(settings: TreeSettings, files: Files, now: Timestamp) -> bool {
    &&& settings.consistent()
    &&& settings.enable_wal ==> exists|numbers: Seq<u16>|
        ascending(numbers) && crate::segments::segments_listed(files, numbers) && #[trigger] log_opens(
            files,
            numbers,
            now,
        )
}

/// The engine was opened on the files with the settings at `now`: its runs
/// are the sorted runs among the files, in the order of their numbers; its
/// memtable is what recovery builds from the log segments among the files;
/// and no memtable is frozen. Where every segment that has a later one
/// ends with a checkpoint, the log is in step with the memtable.
pub open spec fn opened(tree: Tree, settings: TreeSettings, files: Files, now: Timestamp) -> bool {
    &&& tree.wf()
    &&& tree.configuration() == settings
    &&& tree.frozen().len() == 0
    &&& logs_apart(files, tree.files())
    &&& forall|name: Seq<char>| #[trigger]
        tree.run_list().contains(name) <==> takes_run(files, name)
    &&& if settings.enable_wal {
        exists|numbers: Seq<u16>|
            ascending(numbers) && (forall|x: u16|
                numbers.contains(x) <==> files.contains_key(key_of(#[trigger] wal_name(x as nat))))
                && #[trigger] recovered(files, numbers, now) == Some(tree.mem())
    } else {
        tree.mem_len() == 0
    }
    &&& !settings.enable_wal || crate::segments::segments_closed(files) ==> tree.in_step(now)
    &&& first_state(tree.transactions())
}

/// Two lists of runs in the order of their numbers that hold the same
/// names are one list of names.
pub proof fn lemma_same_runs(files: Files, other: Files, a: Seq<RunRef>, b: Seq<RunRef>)
    requires
        runs_in_order(files, a),
        runs_in_order(other, b),
        forall|name: Seq<char>| run_names(a).contains(name) <==> run_names(b).contains(name),
    ensures
        run_names(a) == run_names(b),
    decreases a.len(),
{
    if a.len() == 0 {
        if b.len() > 0 {
            assert(run_names(b)[0] == b[0].name@);
            assert(run_names(b).contains(b[0].name@));
            let i = choose|i: int| 0 <= i < run_names(a).len() && run_names(a)[i] == b[0].name@;
        }
        assert(run_names(a) =~= run_names(b));
    } else {
        let top = a.last();
        assert(run_names(a)[a.len() - 1] == top.name@);
        assert(run_names(b).contains(top.name@));
        let j = choose|j: int| 0 <= j < run_names(b).len() && run_names(b)[j] == top.name@;
        assert(b[j].name@ == top.name@);
        if b[j].number != top.number {
            crate::names::lemma_sstable_names_differ(b[j].number as nat, top.number as nat);
        }
        if j < b.len() - 1 {
            let more = b[b.len() - 1];
            assert(b[j].number < more.number);
            assert(run_names(b)[b.len() - 1] == more.name@);
            assert(run_names(a).contains(more.name@));
            let i = choose|i: int| 0 <= i < run_names(a).len() && run_names(a)[i] == more.name@;
            assert(a[i].name@ == more.name@);
            if a[i].number != more.number {
                crate::names::lemma_sstable_names_differ(a[i].number as nat, more.number as nat);
            }
            if i < a.len() - 1 {
                assert(a[i].number < a[a.len() - 1].number);
            }
        }
        let head = a.drop_last();
        let front = b.drop_last();
        assert forall|name: Seq<char>| run_names(head).contains(name) <==> run_names(
            front,
        ).contains(name) by {
            if run_names(head).contains(name) {
                let i = choose|i: int| 0 <= i < run_names(head).len() && run_names(head)[i] == name;
                assert(a[i].name@ == name);
                assert(a[i].number < a[a.len() - 1].number);
                crate::names::lemma_sstable_names_differ(a[i].number as nat, top.number as nat);
                assert(run_names(a)[i] == name);
                assert(run_names(b).contains(name));
                let k = choose|k: int| 0 <= k < run_names(b).len() && run_names(b)[k] == name;
                assert(b[k].name@ == name);
                assert(run_names(front)[k] == name);
            }
            if run_names(front).contains(name) {
                let k = choose|k: int|
                    0 <= k < run_names(front).len() && run_names(front)[k] == name;
                assert(b[k].name@ == name);
                assert(b[k].number < b[b.len() - 1].number);
                crate::names::lemma_sstable_names_differ(b[k].number as nat, top.number as nat);
                assert(run_names(b)[k] == name);
                assert(run_names(a).contains(name));
                let i = choose|i: int| 0 <= i < run_names(a).len() && run_names(a)[i] == name;
                assert(a[i].name@ == name);
                assert(run_names(head)[i] == name);
            }
        }
        lemma_same_runs(files, other, head, front);
        assert(run_names(a) =~= run_names(head).push(top.name@));
        assert(run_names(b) =~= run_names(front).push(top.name@));
    }
}

impl Tree {
    /// An engine that is opened on files from which recovery gives the
    /// memtable of this engine, and which hold the runs of this engine and
    /// no others, has the same memtable and the same runs.
    proof fn lemma_opened_alike(self, again: Tree, found: Files, t: Timestamp)
        requires
            self.wf(),
            self.frozen().len() == 0,
            logs_apart(self.files(), found),
            opened(again, self.configuration(), found, t),
            if self.configuration().enable_wal {
                crate::segments::segments_listed(found, self.segments()) && recovered(
                    found,
                    self.segments(),
                    t,
                ) == Some(self.mem())
            } else {
                self.mem() == Map::<Seq<u8>, Record>::empty()
            },
        ensures
            again.mem() == self.mem(),
            again.run_list() == self.run_list(),
            again.runs() == self.runs(),
            forall|key: Seq<u8>| #[trigger] again.record_of(key) == self.record_of(key),
            forall|key: Seq<u8>, now: Timestamp| #[trigger]
                again.visible(key, now) == self.visible(key, now),
    {
        let files = self.files();
        if self.configuration().enable_wal {
            let numbers = choose|numbers: Seq<u16>|
                ascending(numbers) && (forall|x: u16|
                    numbers.contains(x) <==> found.contains_key(
                        key_of(#[trigger] wal_name(x as nat)),
                    )) && #[trigger] recovered(found, numbers, t) == Some(again.mem());
            assert forall|x: u16| numbers.contains(x) <==> self.segments().contains(x) by {
                assert(numbers.contains(x) <==> found.contains_key(key_of(wal_name(x as nat))));
                assert(found.contains_key(segment_key(x)) <==> self.segments().contains(x));
            }
            crate::segments::lemma_same_members(numbers, self.segments());
        } else {
            assert(again.mem_entries() =~= Seq::empty());
            assert(again.mem() =~= Map::<Seq<u8>, Record>::empty());
        }
        assert forall|name: Seq<char>|
            run_names(again.ss_tables@).contains(name) <==> run_names(self.ss_tables@).contains(
                name,
            ) by {
            assert(again.run_list().contains(name) <==> takes_run(found, name));
            assert(takes_run(files, name) <==> run_names(self.ss_tables@).contains(name));
            if sstable_number(name) is Some {
                crate::names::lemma_names_apart(name);
                assert(agree_at(files, found, name));
            }
        }
        lemma_same_runs(again.dir.files(), files, again.ss_tables@, self.ss_tables@);
        assert(again.runs() =~= self.runs()) by {
            assert forall|i: int| 0 <= i < self.runs().len() implies again.runs()[i]
                == self.runs()[i] by {
                let name = self.ss_tables@[i].name@;
                crate::names::lemma_sstable_name(self.ss_tables@[i].number as nat);
                crate::names::lemma_names_apart(name);
                assert(agree_at(files, found, name));
                assert(agree_at(found, again.files(), name));
            }
        }
        assert(again.frozen() =~= self.frozen());
    }

    /// Reopening finds what was there. Where the files are in step with
    /// what the engine holds in memory, an engine that is opened on these
    /// files with the same settings has the same memtable and the same
    /// runs, so that every key has the record that it had and a reader
    /// gets at every time what it would have got; and the files are in
    /// step with the new engine too.
    ///
    /// This holds of an engine that is dropped without notice, and of one
    /// that is closed in order: `in_step` holds of a new engine and after
    /// every operation that succeeded.
    pub proof fn lemma_reopened(self, again: Tree, t: Timestamp)
        requires
            self.wf(),
            self.in_step(t),
            opened(again, self.configuration(), self.files(), t),
        ensures
            again.mem() == self.mem(),
            again.run_list() == self.run_list(),
            again.runs() == self.runs(),
            again.in_step(t),
            forall|key: Seq<u8>| #[trigger] again.record_of(key) == self.record_of(key),
            forall|key: Seq<u8>, now: Timestamp| #[trigger]
                again.visible(key, now) == self.visible(key, now),
    {
        if self.configuration().enable_wal {
            crate::segments::lemma_recovered_in_step(
                self.files(),
                self.segments(),
                self.mem(),
                t,
            );
        }
        assert(logs_apart(self.files(), self.files()));
        self.lemma_opened_alike(again, self.files(), t);
    }

    /// A write to the log that was cut short is lost and nothing else.
    /// Where the files are in step with what the engine holds in memory,
    /// and the last segment of the log has, behind what the engine wrote,
    /// the first `cut` bytes of one more frame, an engine that is opened on
    /// these files has the same memtable and the same runs.
    pub proof fn lemma_reopened_after_torn_write(
        self,
        again: Tree,
        found: Files,
        frame: crate::wal::WalRecord,
        cut: int,
        t: Timestamp,
    )
        requires
            self.wf(),
            self.in_step(t),
            self.configuration().enable_wal,
            frame.fits(),
            0 <= cut < frame.frame().len(),
            found == self.files().insert(
                segment_key(self.segments().last()),
                self.files()[segment_key(self.segments().last())] + frame.frame().subrange(0, cut),
            ),
            opened(again, self.configuration(), found, t),
        ensures
            again.mem() == self.mem(),
            again.run_list() == self.run_list(),
            again.runs() == self.runs(),
            again.in_step(t),
            forall|key: Seq<u8>| #[trigger] again.record_of(key) == self.record_of(key),
            forall|key: Seq<u8>, now: Timestamp| #[trigger]
                again.visible(key, now) == self.visible(key, now),
    {
        let files = self.files();
        crate::segments::lemma_torn_tail(files, found, self.segments(), self.mem(), frame, cut, t);
        assert forall|path: Seq<char>| wal_number(path) is None implies #[trigger] agree_at(
            files,
            found,
            path,
        ) by {
            crate::segments::lemma_not_a_segment(path, self.segments().last());
        }
        self.lemma_opened_alike(again, found, t);
    }
}

impl Tree {
    /// Opens the engine on the files of its directory at `now`.
    ///
    /// The sorted runs are the files named `sstable_N.sst` with a sound
    /// header and footer, in the order of their numbers; a damaged file is
    /// left out and stays where it is. Where the log is on, the memtable is
    /// rebuilt from the log segments, and the active segment is chosen or
    /// started.
    ///
    /// Inconsistent settings are a `Configuration` error. A log that cannot
    /// be read fails the opening as `recover_from_wal` says.
    #[verifier::rlimit(80)]
    pub fn load_at(settings: TreeSettings, files: Vec<FileEntry>, now: &Timestamp) -> (r:
        TreeResult<Tree>)
        ensures
            r is Ok <==> openable(settings, listing(files@), *now),
            match r {
                Ok(tree) => settings.consistent() && opened(tree, settings, listing(files@), *now),
                Err(e) => (e is Configuration <==> !settings.consistent()) && (e is Configuration
                    || e is Corruption || e is Wal || e is Serialization),
            },
    {
        settings.validate()?;
        let (mut dir, names) = read_listing(files);
        let ghost listed = dir.files();
        proof {
            assert forall|i: int| 0 <= i < names@.len() implies listed.contains_key(
                key_of((#[trigger] names@[i])@),
            ) by {
                lemma_listing_has(files@, i);
            }
        }
        let (runs, top) = find_runs(&dir, &names);
        let mut wal_segments: Vec<u16> = Vec::new();
        let mut mem_table = Table::new();
        if settings.enable_wal {
            wal_segments = find_wal_segments(&names);
            let ghost numbers = wal_segments@;
            let found = recover_from_wal(&dir, &wal_segments, now);
            proof {
                assert forall|x: u16|
                    numbers.contains(x) <==> listed.contains_key(
                        key_of(#[trigger] wal_name(x as nat)),
                    ) by {
                    if numbers.contains(x) {
                        let i = choose|i: int|
                            0 <= i < names@.len() && (#[trigger] names@[i])@ == wal_name(x as nat);
                        assert(names@[i]@ == wal_name(x as nat));
                    }
                    if listed.contains_key(key_of(wal_name(x as nat))) {
                        lemma_listing_keys(files@, key_of(wal_name(x as nat)));
                        let i = choose|i: int|
                            0 <= i < files@.len() && key_of((#[trigger] files@[i]).name@)
                                == key_of(wal_name(x as nat));
                        lemma_key_of_injective(files@[i].name@, wal_name(x as nat));
                        assert(names@[i]@ == wal_name(x as nat));
                    }
                }
            }
            proof {
                assert(crate::segments::segments_listed(listed, numbers));
                assert forall|other: Seq<u16>|
                    ascending(other) && crate::segments::segments_listed(
                        listed,
                        other,
                    ) implies other == numbers by {
                    assert forall|x: u16| other.contains(x) <==> numbers.contains(x) by {
                        assert(listed.contains_key(segment_key(x)) <==> other.contains(x));
                        assert(listed.contains_key(segment_key(x)) <==> numbers.contains(x));
                    }
                    crate::segments::lemma_same_members(other, numbers);
                }
            }
            mem_table = match found {
                Ok(table) => table,
                Err(e) => {
                    return Err(e);
                },
            };
            match init_wal(&mut dir, &mut wal_segments) {
                Ok(_) => {},
                Err(e) => {
                    return Err(e);
                },
            }
            proof {
                assert(log_opens(listed, numbers, *now));
                if crate::segments::segments_closed(listed) {
                    assert(crate::segments::segments_listed(listed, numbers));
                    assert(log_in_step(dir.files(), wal_segments@, mem_table.map(), *now));
                }
            }
        }
        let index_cache = LRUIndexCache::new(
            settings.index_cache_max_capacity,
            settings.index_cache_memory_limit,
        );
        let value_cache = LRUValueCache::new(
            settings.value_cache_max_capacity,
            settings.value_cache_memory_limit,
        );
        let ghost found = runs@;
        proof {
            lemma_log_change_keeps(
                listed,
                dir.files(),
                value_cache.slots(),
                index_cache.slots(),
                Seq::<PathFilter>::empty(),
                found,
            );
        }
        let tree = Tree {
            mem_table,
            immutable_mem_tables: Vec::new(),
            ss_tables: runs,
            bloom_filters: Vec::new(),
            settings,
            index_cache,
            value_cache,
            wal_segments,
            next_run_number: top,
            dir,
            tx_manager: TransactionManager::new(),
        };
        proof {
            assert(tree.frozen() =~= Seq::<Map<Seq<u8>, Record>>::empty());
            assert forall|name: Seq<char>| #[trigger]
                tree.run_list().contains(name) <==> takes_run(listed, name) by {
                if tree.run_list().contains(name) {
                    let k = choose|k: int|
                        0 <= k < tree.run_list().len() && tree.run_list()[k] == name;
                    assert(takes_run(listed, found[k].name@));
                }
                if takes_run(listed, name) {
                    lemma_listing_keys(files@, key_of(name));
                    let i = choose|i: int|
                        0 <= i < files@.len() && key_of((#[trigger] files@[i]).name@) == key_of(
                            name,
                        );
                    lemma_key_of_injective(files@[i].name@, name);
                    assert(names@[i]@ == name);
                    let n = sstable_number(name)->0 as u64;
                    assert(run_numbers(found).contains(n));
                    let k = choose|k: int| 0 <= k < found.len() && run_numbers(found)[k] == n;
                    assert(found[k].name@ == sstable_name(n as nat));
                    assert(tree.run_list()[k] == name);
                }
            }
        }
        Ok(tree)
    }

    /// Opens the engine on the files of its directory, with the clock's
    /// reading as the time of recovery.
    pub fn load_with_settings(settings: TreeSettings, files: Vec<FileEntry>) -> (r: TreeResult<
        Tree,
    >)
        ensures
            exists|now: Timestamp|
                (r is Ok <==> #[trigger] openable(settings, listing(files@), now)) && (r matches Ok(
                    tree,
                ) ==> opened(tree, settings, listing(files@), now)),
            match r {
                Ok(tree) => settings.consistent() && exists|now: Timestamp| #[trigger]
                    opened(tree, settings, listing(files@), now),
                Err(e) => (e is Configuration <==> !settings.consistent()) && (e is Configuration
                    || e is Corruption || e is Wal || e is Serialization),
            },
    {
        let t = now();
        let r = Self::load_at(settings, files, &t);
        proof {
            if r is Ok {
                assert(opened(r->Ok_0, settings, listing(files@), t));
            }
            assert(r is Ok <==> openable(settings, listing(files@), t));
        }
        r
    }

    /// Opens the engine on the files of its directory, with the default
    /// settings.
    pub fn load(files: Vec<FileEntry>) -> (r: TreeResult<Tree>)
        ensures
            exists|settings: TreeSettings, now: Timestamp|
                settings.limits() == TreeSettings::default_limits() && settings.db_path@
                    == crate::settings::default_path() && (r is Ok <==> #[trigger] openable(
                    settings,
                    listing(files@),
                    now,
                )) && (r matches Ok(tree) ==> opened(tree, settings, listing(files@), now)),
            r matches Ok(tree) ==> exists|now: Timestamp| #[trigger]
                opened(tree, tree.configuration(), listing(files@), now),
            r matches Err(e) ==> e is Corruption || e is Wal || e is Serialization,
    {
        let settings = TreeSettings::default();
        let ghost given = settings;
        let r = Self::load_with_settings(settings, files);
        proof {
            let now = choose|now: Timestamp|
                (r is Ok <==> #[trigger] openable(given, listing(files@), now)) && (r matches Ok(
                    tree,
                ) ==> opened(tree, given, listing(files@), now));
            assert(r is Ok <==> openable(given, listing(files@), now));
        }
        r
    }

    /// Opens the engine on the files of the directory at `path`, with the
    /// default settings otherwise.
    pub fn load_with_path(path: &str, files: Vec<FileEntry>) -> (r: TreeResult<Tree>)
        ensures
            exists|settings: TreeSettings, now: Timestamp|
                settings.limits() == TreeSettings::default_limits() && settings.db_path@ == path@
                    && (r is Ok <==> #[trigger] openable(settings, listing(files@), now)) && (r matches Ok(
                    tree,
                ) ==> opened(tree, settings, listing(files@), now)),
            r matches Ok(tree) ==> tree.configuration().db_path@ == path@ && exists|
                now: Timestamp,
            | #[trigger] opened(tree, tree.configuration(), listing(files@), now),
            r matches Err(e) ==> e is Corruption || e is Wal || e is Serialization,
    {
        let d = TreeSettings::default();
        let settings = TreeSettings { db_path: path.to_owned(), ..d };
        let ghost given = settings;
        let r = Self::load_with_settings(settings, files);
        proof {
            let now = choose|now: Timestamp|
                (r is Ok <==> #[trigger] openable(given, listing(files@), now)) && (r matches Ok(
                    tree,
                ) ==> opened(tree, given, listing(files@), now));
            assert(r is Ok <==> openable(given, listing(files@), now));
        }
        r
    }
}

/// What a transaction sees of a record of its own write set at `now`:
/// nothing where the record is a tombstone or expired, else its payload as
/// it was written.
pub open spec fn seen_locally(record: Record, now: Timestamp) -> Option<Seq<u8>> {
    if record.live_at(now) {
        Some(record.data)
    } else {
        None
    }
}

/// The record that a commit at `now` stores for a record of the write set:
/// a tombstone for a tombstone, nothing for a record that is expired, else
/// a fresh record with the payload compressed and the time to live that is
/// left.
pub open spec fn planned_ok(
    codec: Compressor,
    written: Record,
    planned: Option<Record>,
    now: Timestamp,
) -> bool {
    if written.is_tombstone {
        planned == Some(Record::tombstone_at(now))
    } else if written.expired_at(now) {
        planned is None
    } else {
        &&& planned is Some
        &&& codec.encoded(written.data) is Some
        &&& codec.decoded(codec.encoded(written.data)->0) == Some(written.data)
        &&& codec.encoded(written.data)->0.len() > 0 || written.data.len() == 0
        &&& planned->0 == Record::fresh(
            codec.encoded(written.data)->0,
            time_left(written, now),
            now,
        )
    }
}

/// The time to live that a record has left at `now`, where it has an
/// expiry.
pub open spec fn time_left(record: Record, now: Timestamp) -> Option<Span> {
    match record.expires_at {
        Some(expiry) => expiry.remaining_spec(now),
        None => None,
    }
}

/// What beginning a transaction comes to: a new transaction of the next
/// number is in flight, with nothing read and nothing written; the other
/// transactions and the stamps of the keys stay as they are. Where the
/// numbers are used up, a `Transaction` error, and nothing changes.
pub open spec fn begun(before: TransactionManager, after: TransactionManager, r: TreeResult<u64>) -> bool {
    &&& after.version() == before.version()
    &&& after.versions() == before.versions()
    &&& match r {
        Ok(id) => {
            &&& id == before.next_id()
            &&& id < u64::MAX
            &&& after.next_id() == id + 1
            &&& !before.active().contains_key(id)
            &&& after.active().dom() == before.active().dom().insert(id)
            &&& after.active()[id].read_set.map() == Map::<
                Seq<u8>,
                crate::transaction::VersionStamp,
            >::empty()
            &&& after.active()[id].write_set@.len() == 0
            &&& forall|other: u64|
                other != id && before.active().contains_key(other) ==> #[trigger] after.active()[other]
                    == before.active()[other]
        },
        Err(e) => {
            &&& e is Transaction
            &&& before.next_id() == u64::MAX
            &&& after.active() == before.active()
            &&& after.next_id() == before.next_id()
        },
    }
}

/// What a write of `record` under `key` in a transaction comes to: the
/// write set of the transaction holds the record under the key, and the
/// transaction has noted the stamp that the key had when it first touched
/// it. Nothing else changes. A transaction that is not in flight is a
/// `Transaction` error.
pub open spec fn written_in(
    before: TransactionManager,
    after: TransactionManager,
    tx_id: u64,
    key: Seq<u8>,
    record: Record,
    r: TreeResult<()>,
) -> bool {
    &&& after.version() == before.version()
    &&& after.versions() == before.versions()
    &&& after.next_id() == before.next_id()
    &&& after.active().dom() == before.active().dom()
    &&& forall|other: u64|
        other != tx_id && before.active().contains_key(other) ==> #[trigger] after.active()[other]
            == before.active()[other]
    &&& match r {
        Ok(_) => {
            &&& before.active().contains_key(tx_id)
            &&& after.active()[tx_id].write_set.map() == before.active()[tx_id].write_set.map().insert(
                key,
                record,
            )
            &&& after.active()[tx_id].read_set.map() == crate::transaction::observed(
                before.active()[tx_id].read_set.map(),
                key,
                before.versions(),
            )
        },
        Err(e) => e is Transaction && !before.active().contains_key(tx_id) && after.active()
            == before.active(),
    }
}

/// What a read of `key` in a transaction at `now` comes to. The
/// transaction sees its own write where it has one; else it sees what a
/// reader gets, and notes the stamp that the key had when it first touched
/// it. A transaction that is not in flight is a `Transaction` error.
pub open spec fn got_in(
    before: Tree,
    after: Tree,
    tx_id: u64,
    key: Seq<u8>,
    now: Timestamp,
    r: TreeResult<Option<Vec<u8>>>,
) -> bool {
    let manager = before.transactions();
    let later = after.transactions();
    if !manager.active().contains_key(tx_id) {
        r matches Err(e) && e is Transaction && later == manager
    } else {
        let written = manager.active()[tx_id].write_set.map();
        let seen = if written.contains_key(key) {
            Some(seen_locally(written[key], now))
        } else {
            before.visible(key, now)
        };
        &&& match r {
            Ok(Some(bytes)) => seen == Some(Some(bytes@)),
            Ok(None) => seen == Some(None::<Seq<u8>>),
            Err(e) => seen is None,
        }
        &&& if written.contains_key(key) || r is Err {
            later == manager
        } else {
            &&& later.version() == manager.version()
            &&& later.versions() == manager.versions()
            &&& later.next_id() == manager.next_id()
            &&& later.active().dom() == manager.active().dom()
            &&& forall|other: u64|
                other != tx_id && manager.active().contains_key(other) ==> #[trigger] later.active()[other]
                    == manager.active()[other]
            &&& later.active()[tx_id].write_set == manager.active()[tx_id].write_set
            &&& later.active()[tx_id].read_set.map() == crate::transaction::observed(
                manager.active()[tx_id].read_set.map(),
                key,
                manager.versions(),
            )
        }
    }
}

/// The record that a commit at `now` stores for a record of the write set:
/// a tombstone for a tombstone, nothing for a record that is expired, else
/// a fresh record with what the codec makes of the payload and the time to
/// live that is left.
pub open spec fn plan(codec: Compressor, written: Record, now: Timestamp) -> Option<Record> {
    if written.is_tombstone {
        Some(Record::tombstone_at(now))
    } else if written.expired_at(now) {
        None
    } else {
        Some(Record::fresh(codec.encoded(written.data)->0, time_left(written, now), now))
    }
}

/// The records that a commit at `now` stores for the records of the write
/// set, in their order.
pub open spec fn plans(codec: Compressor, written: crate::table::Entries, now: Timestamp) -> Seq<
    Option<Record>,
> {
    Seq::new(written.len(), |i: int| plan(codec, written[i].1, now))
}

/// The memtable after the first `n` writes of a commit.
pub open spec fn mem_after(
    mem: Map<Seq<u8>, Record>,
    keys: crate::table::Entries,
    planned: Seq<Option<Record>>,
    n: int,
) -> Map<Seq<u8>, Record>
    decreases n,
{
    if n <= 0 {
        mem
    } else {
        let before = mem_after(mem, keys, planned, n - 1);
        match planned[n - 1] {
            Some(record) => before.insert(keys[n - 1].0, record),
            None => before,
        }
    }
}

/// The number of entries of the memtable after the first `n` writes of a
/// commit, where it had `len` entries before.
pub open spec fn len_after(
    mem: Map<Seq<u8>, Record>,
    len: nat,
    keys: crate::table::Entries,
    planned: Seq<Option<Record>>,
    n: int,
) -> nat
    decreases n,
{
    if n <= 0 {
        len
    } else {
        let before = len_after(mem, len, keys, planned, n - 1);
        if planned[n - 1] is Some && !mem_after(mem, keys, planned, n - 1).contains_key(
            keys[n - 1].0,
        ) {
            before + 1
        } else {
            before
        }
    }
}

/// The length of the active log segment after the first `n` writes of a
/// commit, where it was `size` bytes long before.
pub open spec fn log_after(
    size: nat,
    keys: crate::table::Entries,
    planned: Seq<Option<Record>>,
    n: int,
) -> nat
    decreases n,
{
    if n <= 0 {
        size
    } else {
        let before = log_after(size, keys, planned, n - 1);
        match planned[n - 1] {
            Some(record) => before + crate::wal::FRAME_OVERHEAD as nat + keys[n - 1].0.len()
                + record.encoding().len(),
            None => before,
        }
    }
}

/// Whether a write of a commit can be made ready at `now`: the key is
/// valid and, where the record is neither a tombstone nor expired, the
/// codec takes its payload and what it makes of it is not too long.
pub open spec fn write_fine(codec: Compressor, key: Seq<u8>, written: Record, now: Timestamp) -> bool {
    &&& valid_key(key)
    &&& !written.is_tombstone && !written.expired_at(now) ==> codec.encoded(written.data) is Some
        && codec.encoded(written.data)->0.len() <= MAX_PAYLOAD
}

/// The error for a write that cannot be made ready: `InvalidKey` for an
/// invalid key, else `Compression` where the codec refuses the payload,
/// else `InvalidValue` for a payload that is too long.
pub open spec fn write_refused(
    codec: Compressor,
    key: Seq<u8>,
    written: Record,
    now: Timestamp,
    e: TreeError,
) -> bool {
    if !valid_key(key) {
        e is InvalidKey
    } else if codec.encoded(written.data) is None {
        e is Compression
    } else {
        e is InvalidValue
    }
}

/// Every write of the commit can be made ready.
pub open spec fn writes_fine(codec: Compressor, written: crate::table::Entries, now: Timestamp) -> bool {
    forall|i: int|
        0 <= i < written.len() ==> write_fine(codec, (#[trigger] written[i]).0, written[i].1, now)
}

/// The error is that of the first write of the commit that cannot be made
/// ready.
pub open spec fn first_refusal(
    codec: Compressor,
    written: crate::table::Entries,
    now: Timestamp,
    e: TreeError,
) -> bool {
    exists|i: int|
        0 <= i < written.len() && !write_fine(codec, (#[trigger] written[i]).0, written[i].1, now)
            && write_refused(codec, written[i].0, written[i].1, now, e) && forall|j: int|
            0 <= j < i ==> write_fine(codec, (#[trigger] written[j]).0, written[j].1, now)
}

/// What a commit of the transaction at `now` comes to. A transaction that
/// is not in flight is a `Transaction` error, and nothing changes. One
/// whose stamps are no longer valid is rolled back, with a `Transaction`
/// error. A write that cannot be made ready gives its error, and a version
/// counter that is used up a `Transaction` error: nothing changes then.
/// Else the transaction is committed; only a flush that is then due can
/// fail.
pub open spec fn commit_outcome(
    before: Tree,
    after: Tree,
    tx_id: u64,
    now: Timestamp,
    r: TreeResult<()>,
) -> bool {
    let manager = before.transactions();
    if !manager.active().contains_key(tx_id) {
        r matches Err(e) && e is Transaction && unchanged(before, after) && same_transactions(
            after.transactions(),
            manager,
        )
    } else if !crate::transaction::stamps_valid(
        manager.active()[tx_id].read_set.map(),
        manager.versions(),
    ) {
        r matches Err(e) && e is Transaction && unchanged(before, after)
            && after.transactions().active() == manager.active().remove(tx_id)
            && after.transactions().versions() == manager.versions()
    } else {
        let written = manager.active()[tx_id].write_set@;
        if !writes_fine(before.codec(), written, now) {
            r matches Err(e) && first_refusal(before.codec(), written, now, e) && unchanged(
                before,
                after,
            ) && same_transactions(after.transactions(), manager)
        } else if manager.version() + written.len() > u64::MAX {
            r matches Err(e) && e is Transaction && unchanged(before, after) && same_transactions(
                after.transactions(),
                manager,
            )
        } else {
            &&& committed(before, after, tx_id, now)
            &&& r matches Err(e) ==> flush_failure(e)
            &&& !before.commit_due(written, now) ==> r is Ok
            &&& before.commit_sure(written, now) ==> r is Ok
        }
    }
}

/// One write of a commit, ready to be stored.
pub struct Prepared {
    pub key: Vec<u8>,
    pub record: Option<DataValue>,
}

/// The records of the prepared writes.
pub open spec fn plans_of(writes: Seq<Prepared>) -> Seq<Option<Record>> {
    Seq::new(
        writes.len(),
        |i: int|
            match writes[i].record {
                Some(v) => Some(v@),
                None => None,
            },
    )
}

impl Tree {
    /// Starts a transaction and gives its id.
    pub fn begin_transaction(&mut self) -> (r: TreeResult<u64>)
        requires
            old(self).wf(),
        ensures
            final(self).wf(),
            unchanged(*old(self), *final(self)),
            final(self).configuration() == old(self).configuration(),
            match r {
                Ok(id) => id == old(self).transactions().next_id() && final(self).transactions().active().contains_key(id) && !old(self).transactions().active().contains_key(id),
                Err(e) => e is Transaction && final(self).transactions().active() == old(self).transactions().active(),
            },
            begun(old(self).transactions(), final(self).transactions(), r),
    {
        self.tx_manager.begin_transaction()
    }

    /// Puts `value` under `key` into the write set of the transaction, to
    /// live for `ttl` from `now` on. Neither the memtable nor the log is
    /// touched. An unknown transaction is a `Transaction` error.
    pub fn put_tx_at(
        &mut self,
        tx_id: u64,
        key: Vec<u8>,
        value: Vec<u8>,
        ttl: Option<Span>,
        now: &Timestamp,
    ) -> (r: TreeResult<()>)
        requires
            old(self).wf(),
        ensures
            final(self).wf(),
            unchanged(*old(self), *final(self)),
            final(self).configuration() == old(self).configuration(),
            written_in(
                old(self).transactions(),
                final(self).transactions(),
                tx_id,
                key@,
                Record::fresh(value@, ttl, *now),
                r,
            ),
    {
        let record = DataValue::new_at(value, ttl, *now);
        self.tx_manager.write_transaction(tx_id, key, record)
    }

    /// Puts `value` under `key` into the write set of the transaction, by
    /// the clock.
    pub fn put_tx(
        &mut self,
        tx_id: u64,
        key: Vec<u8>,
        value: Vec<u8>,
        ttl: Option<core::time::Duration>,
    ) -> (r: TreeResult<()>)
        requires
            old(self).wf(),
        ensures
            final(self).wf(),
            unchanged(*old(self), *final(self)),
            final(self).configuration() == old(self).configuration(),
            r is Err <==> !old(self).transactions().active().contains_key(tx_id),
            r matches Err(e) ==> e is Transaction,
            exists|span: Option<Span>, now: Timestamp|
                (span is Some <==> ttl is Some) && written_in(
                    old(self).transactions(),
                    final(self).transactions(),
                    tx_id,
                    key@,
                    #[trigger] Record::fresh(value@, span, now),
                    r,
                ),
    {
        let span = match ttl {
            Some(d) => Some(span_of(d)),
            None => None,
        };
        let t = now();
        let r = self.put_tx_at(tx_id, key, value, span, &t);
        assert(written_in(
            old(self).transactions(),
            self.transactions(),
            tx_id,
            key@,
            Record::fresh(value@, span, t),
            r,
        ));
        r
    }

    /// Puts a tombstone for `key` into the write set of the transaction.
    pub fn delete_tx_at(&mut self, tx_id: u64, key: Vec<u8>, now: &Timestamp) -> (r: TreeResult<
        (),
    >)
        requires
            old(self).wf(),
        ensures
            final(self).wf(),
            unchanged(*old(self), *final(self)),
            final(self).configuration() == old(self).configuration(),
            written_in(
                old(self).transactions(),
                final(self).transactions(),
                tx_id,
                key@,
                Record::tombstone_at(*now),
                r,
            ),
    {
        self.tx_manager.write_transaction(tx_id, key, DataValue::tombstone_at(*now))
    }

    /// Puts a tombstone for `key` into the write set of the transaction, by
    /// the clock.
    pub fn delete_tx(&mut self, tx_id: u64, key: Vec<u8>) -> (r: TreeResult<()>)
        requires
            old(self).wf(),
        ensures
            final(self).wf(),
            unchanged(*old(self), *final(self)),
            final(self).configuration() == old(self).configuration(),
            r is Err <==> !old(self).transactions().active().contains_key(tx_id),
            r matches Err(e) ==> e is Transaction,
            exists|now: Timestamp|
                written_in(
                    old(self).transactions(),
                    final(self).transactions(),
                    tx_id,
                    key@,
                    #[trigger] Record::tombstone_at(now),
                    r,
                ),
    {
        let t = now();
        let r = self.delete_tx_at(tx_id, key, &t);
        assert(written_in(
            old(self).transactions(),
            self.transactions(),
            tx_id,
            key@,
            Record::tombstone_at(t),
            r,
        ));
        r
    }

    /// Reads `key` within the transaction at `now`: what the transaction
    /// itself wrote under the key, or else what the engine holds. A read
    /// from the engine notes the version stamp of the key, against which
    /// the commit is validated.
    ///
    /// An unknown transaction is a `Transaction` error; the engine's read
    /// fails as `get_at` does.
    pub fn get_tx_at(&mut self, tx_id: u64, key: &[u8], now: &Timestamp) -> (r: TreeResult<
        Option<Vec<u8>>,
    >)
        requires
            old(self).wf(),
        ensures
            final(self).wf(),
            unchanged(*old(self), *final(self)),
            final(self).configuration() == old(self).configuration(),
            !old(self).transactions().active().contains_key(tx_id) ==> (r matches Err(e)
                && e is Transaction),
            got_in(*old(self), *final(self), tx_id, key@, *now, r),
    {
        match self.tx_manager.local_value(tx_id, key)? {
            Some(value) => {
                if value.is_tombstone() || value.is_expired_at(now) {
                    return Ok(None);
                }
                return Ok(Some(value.data));
            },
            None => {},
        }
        let found = self.get_at(key, now)?;
        match self.tx_manager.record_read(tx_id, key) {
            Ok(_) => {},
            Err(_) => {
                assert(false);
            },
        }
        Ok(found)
    }

    /// Reads `key` within the transaction, by the clock.
    pub fn get_tx(&mut self, tx_id: u64, key: &[u8]) -> (r: TreeResult<Option<Vec<u8>>>)
        requires
            old(self).wf(),
        ensures
            final(self).wf(),
            unchanged(*old(self), *final(self)),
            final(self).configuration() == old(self).configuration(),
            !old(self).transactions().active().contains_key(tx_id) ==> (r matches Err(e)
                && e is Transaction),
            exists|now: Timestamp| #[trigger] got_in(*old(self), *final(self), tx_id, key@, now, r),
    {
        let t = now();
        let r = self.get_tx_at(tx_id, key, &t);
        assert(got_in(*old(self), *self, tx_id, key@, t, r));
        r
    }

    /// Discards the transaction with everything it wanted to write.
    pub fn rollback_transaction(&mut self, tx_id: u64) -> (r: TreeResult<()>)
        requires
            old(self).wf(),
        ensures
            final(self).wf(),
            unchanged(*old(self), *final(self)),
            final(self).configuration() == old(self).configuration(),
            r is Ok,
            final(self).transactions().active() == old(self).transactions().active().remove(
                tx_id,
            ),
            final(self).transactions().version() == old(self).transactions().version(),
            final(self).transactions().versions() == old(self).transactions().versions(),
            final(self).transactions().next_id() == old(self).transactions().next_id(),
    {
        self.tx_manager.rollback_transaction(tx_id)
    }

    /// Makes the writes of a commit ready: compresses each payload and
    /// works out the time to live that is left. Nothing changes.
    ///
    /// Fails with `InvalidKey`, `Compression` or `InvalidValue` as `put_at`
    /// does.
    fn prepare_writes(&self, written: &Table, now: &Timestamp) -> (r: TreeResult<Vec<Prepared>>)
        requires
            self.wf(),
        ensures
            match r {
                Ok(writes) => writes@.len() == written@.len() && forall|i: int|
                    0 <= i < writes@.len() ==> (#[trigger] writes@[i]).key@ == written@[i].0
                        && writes@[i].key@.len() <= u32::MAX && planned_ok(
                        self.codec(),
                        written@[i].1,
                        plans_of(writes@)[i],
                        *now,
                    ) && (writes@[i].record matches Some(v) ==> v@.data.len() <= MAX_PAYLOAD),
                Err(e) => e is InvalidKey || e is Compression || e is InvalidValue,
            },
            match r {
                Ok(_) => writes_fine(self.codec(), written@, *now),
                Err(e) => first_refusal(self.codec(), written@, *now, e),
            },
    {
        let mut writes: Vec<Prepared> = Vec::new();
        let n = written.len();
        let mut i: usize = 0;
        while i < n
            invariant
                i <= n,
                n == written@.len(),
                self.wf(),
                writes@.len() == i,
                forall|j: int|
                    0 <= j < i ==> (#[trigger] writes@[j]).key@ == written@[j].0
                        && writes@[j].key@.len() <= u32::MAX && planned_ok(
                        self.codec(),
                        written@[j].1,
                        plans_of(writes@)[j],
                        *now,
                    ) && (writes@[j].record matches Some(v) ==> v@.data.len() <= MAX_PAYLOAD),
                forall|j: int|
                    0 <= j < i ==> write_fine(
                        self.codec(),
                        (#[trigger] written@[j]).0,
                        written@[j].1,
                        *now,
                    ),
            decreases n - i,
        {
            let key = written.key_at(i);
            let value = written.value_at(i);
            if key.len() == 0 || key.len() > u32::MAX as usize {
                return Err(TreeError::invalid_key("a key must have 1 to 2^32 - 1 bytes"));
            }
            let owned = copy_range(key, 0, key.len());
            assert(owned@ =~= key@);
            let record = if value.is_tombstone() {
                Some(DataValue::tombstone_at(*now))
            } else if value.is_expired_at(now) {
                None
            } else {
                let payload = match self.settings.compressor.compress(value.get_data()) {
                    Ok(payload) => payload,
                    Err(e) => {
                        return Err(e);
                    },
                };
                if payload.len() > MAX_PAYLOAD {
                    return Err(TreeError::invalid_value("a value must fit 32 bits of length"));
                }
                let left = match value.expires_at {
                    Some(expiry) => expiry.remaining(now),
                    None => None,
                };
                let ghost bytes = payload@;
                let fresh = DataValue::new_at(payload, left, *now);
                proof {
                    assert(fresh@ == Record::fresh(bytes, time_left(written@[i as int].1, *now), *now));
                }
                Some(fresh)
            };
            let ghost before = writes@;
            writes.push(Prepared { key: owned, record });
            proof {
                assert forall|j: int| 0 <= j < i + 1 implies (#[trigger] writes@[j]).key@
                    == written@[j].0 && writes@[j].key@.len() <= u32::MAX && planned_ok(
                    self.codec(),
                    written@[j].1,
                    plans_of(writes@)[j],
                    *now,
                ) && (writes@[j].record matches Some(v) ==> v@.data.len() <= MAX_PAYLOAD) by {
                    if j < i {
                        assert(writes@[j] == before[j]);
                        assert(plans_of(writes@)[j] == plans_of(before)[j]);
                    }
                }
            }
            i += 1;
        }
        Ok(writes)
    }

    /// Stores the prepared writes of a commit, in their order.
    #[verifier::rlimit(80)]
    fn apply_writes(&mut self, writes: Vec<Prepared>, Ghost(keys): Ghost<crate::table::Entries>)
        requires
            old(self).wf(),
            crate::table::keys_ascending(keys),
            keys.len() == writes@.len(),
            forall|i: int|
                0 <= i < writes@.len() ==> (#[trigger] writes@[i]).key@ == keys[i].0
                    && writes@[i].key@.len() <= u32::MAX && (writes@[i].record matches Some(v)
                    ==> v@.data.len() <= MAX_PAYLOAD),
        ensures
            final(self).wf(),
            forall|t: Timestamp|
                old(self).in_step(t) && old(self).configuration().enable_wal
                    ==> #[trigger] final(self).in_step(t),
            final(self).frozen() == old(self).frozen(),
            final(self).run_list() == old(self).run_list(),
            final(self).runs() == old(self).runs(),
            final(self).configuration() == old(self).configuration(),
            final(self).transactions() == old(self).transactions(),
            writes@.len() == 0 ==> unchanged(*old(self), *final(self)),
            final(self).next_number() == old(self).next_number(),
            final(self).segments() == old(self).segments(),
            logs_apart(old(self).files(), final(self).files()),
            final(self).mem() == mem_after(
                old(self).mem(),
                keys,
                plans_of(writes@),
                writes@.len() as int,
            ),
            final(self).mem_len() == len_after(
                old(self).mem(),
                old(self).mem_len(),
                keys,
                plans_of(writes@),
                writes@.len() as int,
            ),
            old(self).configuration().enable_wal ==> final(self).log_size() == log_after(
                old(self).log_size(),
                keys,
                plans_of(writes@),
                writes@.len() as int,
            ),
            forall|i: int|
                0 <= i < writes@.len() ==> match plans_of(writes@)[i] {
                    Some(record) => final(self).record_of(#[trigger] keys[i].0) == Some(
                        Some(record),
                    ),
                    None => final(self).record_of(keys[i].0) == old(self).record_of(keys[i].0),
                },
            forall|key: Seq<u8>|
                !crate::table::has_key(keys, key) ==> #[trigger] final(self).record_of(key) == old(self).record_of(key),
    {
        let mut writes = writes;
        let ghost all = writes@;
        let n = writes.len();
        let mut i: usize = 0;
        proof {
            assert(all.skip(0) =~= all);
        }
        while i < n
            invariant
                i <= n,
                n == all.len(),
                writes@ == all.skip(i as int),
                self.wf(),
                i == 0 ==> unchanged(*old(self), *self),
                self.next_number() == old(self).next_number(),
                self.segments() == old(self).segments(),
                logs_apart(old(self).files(), self.files()),
                self.mem() == mem_after(old(self).mem(), keys, plans_of(all), i as int),
                self.mem_len() == len_after(
                    old(self).mem(),
                    old(self).mem_len(),
                    keys,
                    plans_of(all),
                    i as int,
                ),
                old(self).configuration().enable_wal ==> self.log_size() == log_after(
                    old(self).log_size(),
                    keys,
                    plans_of(all),
                    i as int,
                ),
                forall|t: Timestamp|
                    old(self).in_step(t) && old(self).configuration().enable_wal
                        ==> #[trigger] self.in_step(t),
                crate::table::keys_ascending(keys),
                keys.len() == all.len(),
                forall|k: int|
                    0 <= k < all.len() ==> (#[trigger] all[k]).key@ == keys[k].0
                        && all[k].key@.len() <= u32::MAX && (all[k].record matches Some(v)
                        ==> v@.data.len() <= MAX_PAYLOAD),
                self.frozen() == old(self).frozen(),
                self.run_list() == old(self).run_list(),
                self.runs() == old(self).runs(),
                self.configuration() == old(self).configuration(),
                self.transactions() == old(self).transactions(),
                forall|k: int|
                    0 <= k < i ==> match plans_of(all)[k] {
                        Some(record) => self.record_of(#[trigger] keys[k].0) == Some(Some(record)),
                        None => self.record_of(keys[k].0) == old(self).record_of(keys[k].0),
                    },
                forall|key: Seq<u8>|
                    !(exists|k: int| 0 <= k < i && (#[trigger] keys[k]).0 == key)
                        ==> #[trigger] self.record_of(key) == old(self).record_of(key),
            decreases n - i,
        {
            let write = writes.remove(0);
            proof {
                assert(write == all[i as int]);
                assert(writes@ =~= all.skip(i as int + 1));
            }
            let ghost before = *self;
            let Prepared { key, record } = write;
            match record {
                Some(v) => {
                    let op = if v.is_tombstone() {
                        crate::wal::WalOperation::Delete
                    } else {
                        crate::wal::WalOperation::Put
                    };
                    self.store(op, key, v);
                },
                None => {
                    assert(logs_apart(before.files(), self.files()));
                },
            }
            proof {
                lemma_logs_apart_chain(old(self).files(), before.files(), self.files());
                assert(plans_of(all)[i as int] == match all[i as int].record {
                    Some(v) => Some(v@),
                    None => None::<Record>,
                });
                assert forall|k: int| 0 <= k < i + 1 implies match plans_of(all)[k] {
                    Some(record) => self.record_of(#[trigger] keys[k].0) == Some(Some(record)),
                    None => self.record_of(keys[k].0) == old(self).record_of(keys[k].0),
                } by {
                    if k < i {
                        assert(crate::bytes::lex_lt(keys[k].0, keys[i as int].0));
                        crate::bytes::lemma_lex_irreflexive(keys[k].0);
                        assert(self.record_of(keys[k].0) == before.record_of(keys[k].0));
                    } else {
                        assert(!(exists|x: int| 0 <= x < i && (#[trigger] keys[x]).0 == keys[k].0))
                            by {
                            if exists|x: int| 0 <= x < i && (#[trigger] keys[x]).0 == keys[k].0 {
                                let x = choose|x: int|
                                    0 <= x < i && (#[trigger] keys[x]).0 == keys[k].0;
                                assert(crate::bytes::lex_lt(keys[x].0, keys[k].0));
                                crate::bytes::lemma_lex_irreflexive(keys[k].0);
                            }
                        }
                    }
                }
                assert forall|key: Seq<u8>|
                    !(exists|k: int|
                        0 <= k < i + 1 && (#[trigger] keys[k]).0 == key) implies #[trigger] self.record_of(
                    key,
                ) == old(self).record_of(key) by {
                    assert(keys[i as int].0 != key);
                    if exists|k: int| 0 <= k < i && (#[trigger] keys[k]).0 == key {
                        let k = choose|k: int| 0 <= k < i && (#[trigger] keys[k]).0 == key;
                        assert(keys[k].0 == key);
                    }
                    assert(self.record_of(key) == before.record_of(key));
                }
            }
            i += 1;
        }
        proof {
            assert forall|key: Seq<u8>|
                !crate::table::has_key(keys, key) implies #[trigger] self.record_of(key) == old(self).record_of(key) by {
                if exists|k: int| 0 <= k < n && (#[trigger] keys[k]).0 == key {
                    let k = choose|k: int| 0 <= k < n && (#[trigger] keys[k]).0 == key;
                    assert(keys[k].0 == key);
                }
            }
        }
    }
}

/// The transaction of `before` is committed in `after`: it was valid, its
/// writes are stored, its keys carry new version stamps, and it is no
/// longer in flight. Every other transaction in flight that has touched
/// one of the written keys is no longer valid.
pub open spec fn committed(before: Tree, after: Tree, tx_id: u64, now: Timestamp) -> bool {
    let manager = before.transactions();
    let written = manager.active()[tx_id].write_set@;
    &&& manager.active().contains_key(tx_id)
    &&& crate::transaction::stamps_valid(
        manager.active()[tx_id].read_set.map(),
        manager.versions(),
    )
    &&& after.transactions().active() == manager.active().remove(tx_id)
    &&& after.transactions().version() == manager.version() + written.len()
    &&& forall|i: int|
        0 <= i < written.len() ==> after.transactions().versions()[#[trigger] written[i].0]
            == crate::transaction::commit_stamp(manager.version(), i, now)
    &&& exists|plans: Seq<Option<Record>>| #[trigger] writes_stored(before, after, written, plans, now)
    &&& forall|key: Seq<u8>|
        !crate::table::has_key(written, key) ==> same_view(
            before.record_of(key),
            #[trigger] after.record_of(key),
            now,
        )
    &&& forall|other: u64, key: Seq<u8>|
        other != tx_id && manager.active().contains_key(other) && crate::table::has_key(
            written,
            key,
        ) && #[trigger] manager.active()[other].read_set.map().contains_key(key)
            ==> !crate::transaction::stamps_valid(
            manager.active()[other].read_set.map(),
            after.transactions().versions(),
        )
}

/// Of two transactions that write one key, one commits at most. Where one
/// transaction is committed, another transaction in flight that has
/// touched one of its keys stays in flight with stamps that are no longer
/// valid, so that its own commit is refused.
pub proof fn lemma_second_committer_conflicts(
    before: Tree,
    after: Tree,
    first: u64,
    second: u64,
    key: Seq<u8>,
    now: Timestamp,
)
    requires
        committed(before, after, first, now),
        second != first,
        before.transactions().active().contains_key(second),
        before.transactions().active()[first].write_set.map().contains_key(key),
        before.transactions().active()[second].read_set.map().contains_key(key),
    ensures
        after.transactions().active().contains_key(second),
        !crate::transaction::stamps_valid(
            after.transactions().active()[second].read_set.map(),
            after.transactions().versions(),
        ),
{
    assert(crate::table::has_key(before.transactions().active()[first].write_set@, key));
}

/// The two managers hold the same transactions and version stamps.
pub open spec fn same_transactions(a: TransactionManager, b: TransactionManager) -> bool {
    &&& a.active() == b.active()
    &&& a.versions() == b.versions()
    &&& a.version() == b.version()
    &&& a.next_id() == b.next_id()
}

/// The writes of a transaction are stored as planned: a record that was
/// planned for a key is the authoritative one for the key, and a key whose
/// write was left out is found as before.
pub open spec fn writes_stored(
    before: Tree,
    after: Tree,
    written: crate::table::Entries,
    plans: Seq<Option<Record>>,
    now: Timestamp,
) -> bool {
    &&& plans.len() == written.len()
    &&& forall|i: int|
        0 <= i < written.len() ==> planned_ok(
            before.codec(),
            (#[trigger] written[i]).1,
            plans[i],
            now,
        ) && match plans[i] {
            Some(record) => same_view(Some(Some(record)), after.record_of(written[i].0), now),
            None => same_view(
                before.record_of(written[i].0),
                after.record_of(written[i].0),
                now,
            ),
        }
}

impl Tree {
    /// Commits the transaction at `now`.
    ///
    /// The transaction is validated first: where a key that it has seen
    /// carries a newer version stamp by now, the transaction is rolled back
    /// and the commit fails with a `Transaction` error. Otherwise every
    /// write of the write set is stored through the log and the memtable,
    /// a record with an expiry with the time to live that is left, and a
    /// record that is expired already not at all; every key of the write
    /// set gets a new version stamp; and the transaction ends.
    ///
    /// An unknown transaction is a `Transaction` error. A write that cannot
    /// be made ready fails the commit as `put_at` would, and a version
    /// counter that is used up fails it with a `Transaction` error: nothing
    /// changes then and the transaction stays in flight. An error of a
    /// flush that was due comes after the commit: the commit stands.
    #[verifier::rlimit(80)]
    pub fn commit_transaction_at(&mut self, tx_id: u64, now: &Timestamp) -> (r: TreeResult<()>)
        requires
            old(self).wf(),
        ensures
            final(self).wf(),
            forall|t: Timestamp|
                old(self).in_step(t) && old(self).configuration().enable_wal && r is Ok
                    ==> #[trigger] final(self).in_step(t),
            final(self).configuration() == old(self).configuration(),
            r is Ok ==> committed(*old(self), *final(self), tx_id, *now),
            commit_outcome(*old(self), *final(self), tx_id, *now, r),
    {
        let valid = self.tx_manager.validate_transaction(tx_id)?;
        if !valid {
            let _ = self.tx_manager.rollback_transaction(tx_id);
            return Err(
                TreeError::transaction("Transaction validation failed - conflicts detected"),
            );
        }
        let written = match self.tx_manager.write_set_of(tx_id) {
            Ok(written) => written,
            Err(e) => {
                return Err(e);
            },
        };
        let _ = written.len();
        let writes = match self.prepare_writes(&written, now) {
            Ok(writes) => writes,
            Err(e) => {
                return Err(e);
            },
        };
        let ghost plans = plans_of(writes@);
        match self.tx_manager.apply_transaction_changes(tx_id, *now) {
            Ok(_) => {},
            Err(e) => {
                return Err(e);
            },
        }
        let ghost stamped = *self;
        proof {
            assert(unchanged(*old(self), stamped));
            assert forall|key: Seq<u8>| #[trigger] stamped.record_of(key) == old(self).record_of(
                key,
            ) by {}
        }
        self.apply_writes(writes, Ghost(written@));
        let ghost applied = *self;
        let _ = self.tx_manager.finalize_transaction(tx_id);
        let ghost stood = *self;
        proof {
            assert(stood.records_as(applied));
            assert forall|key: Seq<u8>| #[trigger] stood.record_of(key) == applied.record_of(
                key,
            ) by {}
            let entries = written@;
            let planned = crate::tree::plans(old(self).codec(), entries, *now);
            assert(plans =~= planned) by {
                assert forall|i: int| 0 <= i < entries.len() implies plans[i] == planned[i] by {
                    assert(planned_ok(old(self).codec(), entries[i].1, plans[i], *now));
                }
            }
            assert(stood.mem() == mem_after(old(self).mem(), entries, planned, entries.len() as int));
            assert(stood.mem_len() == len_after(
                old(self).mem(),
                old(self).mem_len(),
                entries,
                planned,
                entries.len() as int,
            ));
            assert(stood.flush_due() == old(self).commit_due(entries, *now));
            if old(self).commit_sure(entries, *now) {
                lemma_ready_elsewhere(
                    old(self).next_number(),
                    old(self).files(),
                    stood.files(),
                    old(self).runs(),
                    old(self).frozen().push(stood.mem()),
                    old(self).log_room(),
                    *now,
                );
                assert(stood.flush_sure(*now));
            }
        }
        let due = self.mem_table.len() > self.settings.mem_table_max_size
            || self.should_checkpoint_wal();
        let r = if due {
            self.flush_mem_table(now)
        } else {
            Ok(())
        };
        proof {
            let entries = written@;
            assert forall|i: int| 0 <= i < entries.len() implies planned_ok(
                old(self).codec(),
                (#[trigger] entries[i]).1,
                plans[i],
                *now,
            ) && match plans[i] {
                Some(record) => same_view(Some(Some(record)), self.record_of(entries[i].0), *now),
                None => same_view(
                    old(self).record_of(entries[i].0),
                    self.record_of(entries[i].0),
                    *now,
                ),
            } by {
                assert(stood.record_of(entries[i].0) == applied.record_of(entries[i].0));
                assert(stamped.record_of(entries[i].0) == old(self).record_of(entries[i].0));
                assert(same_view(stood.record_of(entries[i].0), self.record_of(entries[i].0), *now));
            }
            assert(writes_stored(*old(self), *self, entries, plans, *now));
            assert forall|key: Seq<u8>| !crate::table::has_key(entries, key) implies same_view(
                old(self).record_of(key),
                #[trigger] self.record_of(key),
                *now,
            ) by {
                assert(stood.record_of(key) == applied.record_of(key));
                assert(applied.record_of(key) == stamped.record_of(key));
                assert(stamped.record_of(key) == old(self).record_of(key));
                assert(same_view(stood.record_of(key), self.record_of(key), *now));
            }
            assert forall|t: Timestamp|
                old(self).in_step(t) && old(self).configuration().enable_wal
                    && r is Ok implies #[trigger] self.in_step(t) by {
                assert(stamped.in_step(t));
                assert(applied.in_step(t));
                assert(stood.in_step(t));
                crate::segments::lemma_in_step_is_sound(
                    stood.files(),
                    stood.segments(),
                    stood.mem(),
                    t,
                );
            }
        }
        r
    }

    /// Commits the transaction, by the clock.
    pub fn commit_transaction(&mut self, tx_id: u64) -> (r: TreeResult<()>)
        requires
            old(self).wf(),
        ensures
            final(self).wf(),
            forall|t: Timestamp|
                old(self).in_step(t) && old(self).configuration().enable_wal && r is Ok
                    ==> #[trigger] final(self).in_step(t),
            final(self).configuration() == old(self).configuration(),
            exists|now: Timestamp| #[trigger]
                commit_outcome(*old(self), *final(self), tx_id, now, r),
            r is Ok ==> exists|now: Timestamp| #[trigger]
                committed(*old(self), *final(self), tx_id, now),
            !old(self).transactions().active().contains_key(tx_id) ==> (r matches Err(e)
                && e is Transaction) && unchanged(*old(self), *final(self)),
            old(self).transactions().active().contains_key(tx_id)
                && !crate::transaction::stamps_valid(
                old(self).transactions().active()[tx_id].read_set.map(),
                old(self).transactions().versions(),
            ) ==> (r matches Err(e) && e is Transaction) && unchanged(*old(self), *final(self))
                && !final(self).transactions().active().contains_key(tx_id),
    {
        let t = now();
        let r = self.commit_transaction_at(tx_id, &t);
        proof {
            if r is Ok {
                assert(committed(*old(self), *self, tx_id, t));
            }
            assert(commit_outcome(*old(self), *self, tx_id, t, r));
        }
        r
    }
}

/// The number of entries whose record is visible at `now`.
pub open spec fn live_count(entries: crate::table::Entries, now: Timestamp) -> nat
    decreases entries.len(),
{
    if entries.len() == 0 {
        0
    } else {
        live_count(entries.drop_last(), now) + if entries.last().1.live_at(now) {
            1nat
        } else {
            0nat
        }
    }
}

impl Tree {
    /// The layers of the engine as tables, from the oldest to the newest:
    /// the runs, the frozen memtables, the memtable. Meaningful where every
    /// run can be read in full.
    pub open spec fn layers(self) -> Seq<Map<Seq<u8>, Record>> {
        oldest_maps(self.runs(), self.runs().len() as int) + self.frozen() + seq![self.mem()]
    }

    /// The number of keys under which a reader finds something at `now`:
    /// the keys whose newest record across all layers is neither a
    /// tombstone nor expired. Every run is read in full for it.
    ///
    /// Fails with `Corruption` or `Serialization` where a run cannot be
    /// read in full.
    pub fn len_at(&self, now: &Timestamp) -> (r: TreeResult<usize>)
        requires
            self.wf(),
        ensures
            self.counted(*now, r),
            self.mem_len() == 0 && self.frozen().len() == 0 && self.run_list().len() == 0 ==> r
                == Ok::<usize, TreeError>(0),
    {
        let tables = self.load_oldest(self.ss_tables.len())?;
        let mut all = crate::merge::merge_tables_raw(&tables);
        let ghost below = oldest_maps(self.runs(), self.runs().len() as int);
        let ghost frozen = self.frozen();
        let mut i: usize = 0;
        proof {
            assert(below + frozen.take(0) =~= below);
        }
        while i < self.immutable_mem_tables.len()
            invariant
                i <= self.immutable_mem_tables@.len(),
                frozen == maps_of(self.immutable_mem_tables@),
                all.map() == stacked(below + frozen.take(i as int)),
            decreases self.immutable_mem_tables.len() - i,
        {
            let next = crate::merge::merge_two(&all, &self.immutable_mem_tables[i]);
            proof {
                let more = below + frozen.take(i as int + 1);
                assert(more.drop_last() =~= below + frozen.take(i as int));
                assert(more.last() == self.immutable_mem_tables@[i as int].map());
            }
            all = next;
            i += 1;
        }
        let whole = crate::merge::merge_two(&all, &self.mem_table);
        proof {
            assert(frozen.take(i as int) =~= frozen);
            assert(self.layers().drop_last() =~= below + frozen);
            assert(self.layers().last() == self.mem());
        }
        let n = whole.len();
        let mut count: usize = 0;
        let mut j: usize = 0;
        proof {
            assert(whole@.take(0) =~= Seq::<(Seq<u8>, Record)>::empty());
        }
        while j < n
            invariant
                j <= n,
                n == whole@.len(),
                count <= j,
                count == live_count(whole@.take(j as int), *now),
            decreases n - j,
        {
            let value = whole.value_at(j);
            proof {
                assert(whole@.take(j as int + 1).drop_last() =~= whole@.take(j as int));
                assert(whole@.take(j as int + 1).last() == whole@[j as int]);
            }
            if !value.is_tombstone() && !value.is_expired_at(now) {
                count += 1;
            }
            j += 1;
        }
        proof {
            assert(whole@.take(n as int) =~= whole@);
            if self.mem_len() == 0 && self.frozen().len() == 0 && self.run_list().len() == 0 {
                assert(n == 0) by {
                    if n > 0 {
                        crate::table::lemma_position(whole@, 0);
                        assert(stacked(self.layers()).contains_key(whole@[0].0));
                        crate::merge::lemma_stacked_newest(self.layers(), whole@[0].0);
                        let h = crate::merge::newest_holder(self.layers(), whole@[0].0);
                        assert(self.layers()[h].contains_key(whole@[0].0));
                        assert(self.layers() =~= seq![self.mem()]);
                        assert(crate::table::has_key(self.mem_entries(), whole@[0].0));
                    }
                }
            }
        }
        Ok(count)
    }

    /// The number of keys under which a reader finds something now, by the
    /// clock.
    pub fn len(&self) -> (r: TreeResult<usize>)
        requires
            self.wf(),
        ensures
            exists|now: Timestamp| #[trigger] self.counted(now, r),
            self.mem_len() == 0 && self.frozen().len() == 0 && self.run_list().len() == 0 ==> r
                == Ok::<usize, TreeError>(0),
    {
        let t = now();
        let r = self.len_at(&t);
        assert(self.counted(t, r));
        r
    }
}

} // verus!
