//! The two caches of the engine: the indexes of sorted runs by path, and
//! value records by path and key.
//!
//! Both are bounded by a number of entries and by an estimate of the memory
//! they take, and both bounds hold whenever an operation returns.

use crate::data_value::DataValue;
use crate::lru::{
    after_put, bumped_spec, distinct, every, holds, is_for, lemma_every_after_put,
    lemma_every_off_path, lemma_every_shrunk, lemma_every_skip, lemma_every_touched, off_path,
    place, repathed, shrunk, touched, weight, within, without, Lru, SlotView,
};
use crate::sstable::{IndexPairs, RunIndex};
use vstd::prelude::*;

verus! {

pub const DEFAULT_INDEX_CACHE_LRU_MAX_CAPACITY: usize = 100;

pub const DEFAULT_INDEX_CACHE_MEMORY_LIMIT: usize = 104857600;

pub const DEFAULT_VALUE_CACHE_LRU_MAX_CAPACITY: usize = 200000;

pub const DEFAULT_VALUE_CACHE_MEMORY_LIMIT: usize = 209715200;

/// The estimated size of a value record without its payload.
pub const DATA_VALUE_SIZE: usize = 80;

/// The estimated size of an index without its keys.
pub const INDEX_BASE_SIZE: usize = 24;

/// The estimated size of one index entry without its key.
pub const INDEX_ENTRY_SIZE: usize = 60;

/// What identifies a cached value: the path of a sorted run and a key in it.
#[derive(Clone, Debug)]
pub struct CacheKey {
    pub sstable_path: String,
    pub key: Vec<u8>,
}

/// The counters of a cache.
#[derive(Clone, Copy, Debug, PartialEq, Eq, Structural)]
pub struct CacheStats {
    pub size: usize,
    pub hit_count: u64,
    pub miss_count: u64,
    pub eviction_count: u64,
    pub memory_limit: usize,
    pub memory_usage: usize,
}

/// The counters of a cache that was emptied: nothing is held, nothing was
/// counted, and the limit is what it was.
pub open spec fn emptied(stats: CacheStats) -> CacheStats {
    CacheStats {
        size: 0,
        hit_count: 0,
        miss_count: 0,
        eviction_count: 0,
        memory_limit: stats.memory_limit,
        memory_usage: 0,
    }
}

impl CacheStats {
    /// The share of lookups that hit, in percent and rounded down; zero
    /// where there was no lookup.
    pub open spec fn hit_rate(self) -> int {
        if self.hit_count + self.miss_count > 0 {
            self.hit_count * 100 / (self.hit_count + self.miss_count)
        } else {
            0
        }
    }

    /// The share of lookups that hit, in percent.
    pub fn hit_rate_percent(&self) -> (p: u8)
        ensures
            p == self.hit_rate(),
            p <= 100,
    {
        let total: u128 = self.hit_count as u128 + self.miss_count as u128;
        if total > 0 {
            let hundredfold: u128 = self.hit_count as u128 * 100u128;
            let p: u128 = hundredfold / total;
            assert(p <= 100) by (nonlinear_arith)
                requires
                    p == hundredfold / total,
                    hundredfold <= total * 100,
                    total > 0,
            ;
            p as u8
        } else {
            0
        }
    }

    /// The share of the memory limit in use, in percent and rounded down;
    /// zero where the limit is zero.
    pub open spec fn memory_utilization(self) -> int {
        if self.memory_limit > 0 {
            self.memory_usage * 100 / (self.memory_limit as int)
        } else {
            0
        }
    }

    /// The share of the memory limit in use, in percent.
    pub fn memory_utilization_percent(&self) -> (p: u128)
        ensures
            p == self.memory_utilization(),
    {
        if self.memory_limit > 0 {
            self.memory_usage as u128 * 100u128 / (self.memory_limit as u128)
        } else {
            0
        }
    }
}

/// The estimated size of a cached value with a payload of `len` bytes.
pub open spec fn value_size(len: nat) -> nat {
    if 80 + len <= usize::MAX {
        80 + len
    } else {
        usize::MAX as nat
    }
}

/// The estimated size of the first `n` entries of an index, and of the
/// index itself.
pub open spec fn index_size_up_to(pairs: IndexPairs, n: int) -> nat
    decreases n,
{
    if n <= 0 {
        24
    } else {
        let before = index_size_up_to(pairs, n - 1);
        let more = before + 60 + 2 * pairs[n - 1].0.len();
        if more <= usize::MAX {
            more
        } else {
            usize::MAX as nat
        }
    }
}

/// The estimated size of an index: 24 bytes, and for each key 60 bytes and
/// twice its length; at most the largest machine integer.
pub open spec fn index_size(pairs: IndexPairs) -> nat {
    index_size_up_to(pairs, pairs.len() as int)
}

/// A cache of value records, by the path of a sorted run and a key.
pub struct LRUValueCache {
    cache: Lru<DataValue>,
}

impl LRUValueCache {
    /// The cached values, from the least recently used on.
    pub closed spec fn slots(self) -> Seq<SlotView<DataValue>> {
        self.cache.slots()
    }

    pub closed spec fn capacity(self) -> nat {
        self.cache.capacity()
    }

    pub closed spec fn limit(self) -> nat {
        self.cache.limit()
    }

    /// The counters as a mathematical value.
    pub closed spec fn counters(self) -> CacheStats {
        CacheStats {
            size: self.cache.slots().len() as usize,
            hit_count: self.cache.hits() as u64,
            miss_count: self.cache.misses() as u64,
            eviction_count: self.cache.evictions() as u64,
            memory_limit: self.cache.limit() as usize,
            memory_usage: weight(self.cache.slots()) as usize,
        }
    }

    pub fn new(max_capacity: usize, memory_limit: usize) -> (cache: Self)
        ensures
            cache.slots().len() == 0,
            cache.capacity() == max_capacity,
            cache.limit() == memory_limit,
            cache.counters() == (CacheStats {
                size: 0,
                hit_count: 0,
                miss_count: 0,
                eviction_count: 0,
                memory_limit,
                memory_usage: 0,
            }),
    {
        LRUValueCache { cache: Lru::new(max_capacity, memory_limit) }
    }

    /// The number of cached values. Whenever it is asked, the cache is
    /// within both of its bounds.
    pub fn len(&self) -> (n: usize)
        ensures
            n == self.slots().len(),
            distinct(self.slots()),
            within(self.slots(), self.capacity(), self.limit()),
    {
        self.cache.len()
    }

    /// A copy of the value cached for `key` in the run at `sstable_path`,
    /// which becomes the most recently used one.
    pub fn get(&mut self, sstable_path: &String, key: &[u8]) -> (r: Option<DataValue>)
        ensures
            final(self).slots() == touched(old(self).slots(), sstable_path@, key@),
            final(self).capacity() == old(self).capacity(),
            final(self).limit() == old(self).limit(),
            match r {
                Some(v) => holds(old(self).slots(), sstable_path@, key@) && v@ == old(self).slots()[place(old(self).slots(), sstable_path@, key@)].value@,
                None => !holds(old(self).slots(), sstable_path@, key@),
            },
    {
        match self.cache.get(sstable_path, key) {
            Some(v) => Some(v.duplicate()),
            None => None,
        }
    }

    /// The estimated size of a value.
    pub fn estimate_value_size(value: &DataValue) -> (size: usize)
        ensures
            size == value_size(value@.data.len()),
    {
        let len = value.get_data().len();
        if len <= usize::MAX - DATA_VALUE_SIZE {
            DATA_VALUE_SIZE + len
        } else {
            usize::MAX
        }
    }

    /// Caches `value` for `key` in the run at `sstable_path`, evicting the
    /// least recently used values as far as the bounds ask for it.
    pub fn put(&mut self, sstable_path: String, key: Vec<u8>, value: DataValue)
        ensures
            final(self).slots() == after_put(
                old(self).slots(),
                old(self).capacity(),
                old(self).limit(),
                SlotView {
                    path: sstable_path@,
                    key: key@,
                    value,
                    size: value_size(value@.data.len()),
                },
            ),
            final(self).capacity() == old(self).capacity(),
            final(self).limit() == old(self).limit(),
    {
        let size = Self::estimate_value_size(&value);
        self.cache.put(sstable_path, key, value, size);
    }

    /// Forgets the value cached for `key` in the run at `sstable_path`.
    pub fn remove(&mut self, sstable_path: &String, key: &[u8])
        ensures
            final(self).slots() == without(old(self).slots(), sstable_path@, key@),
            final(self).capacity() == old(self).capacity(),
            final(self).limit() == old(self).limit(),
    {
        let _ = self.cache.remove(sstable_path, key);
    }

    /// Forgets every value of the run at `sstable_path`.
    pub fn invalidate_sstable(&mut self, sstable_path: &String)
        ensures
            final(self).slots() == off_path(old(self).slots(), sstable_path@),
            final(self).capacity() == old(self).capacity(),
            final(self).limit() == old(self).limit(),
    {
        self.cache.remove_path(sstable_path);
    }

    /// Follows the renaming of a run from `old_path` to `new_path`.
    pub fn rename_sstable(&mut self, old_path: &String, new_path: &String)
        ensures
            final(self).slots() == repathed(old(self).slots(), old_path@, new_path@),
            final(self).capacity() == old(self).capacity(),
            final(self).limit() == old(self).limit(),
    {
        self.cache.rename_path(old_path, new_path);
    }

    /// Makes the cached value of `cache_key` the most recently used one.
    pub fn move_to_back(&mut self, cache_key: &CacheKey)
        ensures
            final(self).slots() == touched(
                old(self).slots(),
                cache_key.sstable_path@,
                cache_key.key@,
            ),
            final(self).capacity() == old(self).capacity(),
            final(self).limit() == old(self).limit(),
    {
        let _ = self.cache.get(&cache_key.sstable_path, cache_key.key.as_slice());
    }

    /// Evicts the least recently used value, if there is one.
    pub fn evict_lru(&mut self) -> (evicted: bool)
        ensures
            evicted == (old(self).slots().len() > 0),
            final(self).slots() == if evicted {
                old(self).slots().skip(1)
            } else {
                old(self).slots()
            },
            final(self).capacity() == old(self).capacity(),
            final(self).limit() == old(self).limit(),
    {
        self.cache.evict_lru()
    }

    /// The counters of the cache.
    pub fn stats(&self) -> (s: CacheStats)
        ensures
            s == self.counters(),
            s.size <= self.capacity(),
            s.memory_usage <= s.memory_limit,
    {
        CacheStats {
            size: self.cache.len(),
            hit_count: self.cache.hit_count(),
            miss_count: self.cache.miss_count(),
            eviction_count: self.cache.eviction_count(),
            memory_limit: self.cache.memory_limit(),
            memory_usage: self.cache.memory_usage(),
        }
    }

    /// Forgets everything, the counters too.
    pub fn clear(&mut self)
        ensures
            final(self).slots().len() == 0,
            final(self).capacity() == old(self).capacity(),
            final(self).limit() == old(self).limit(),
            final(self).counters() == emptied(old(self).counters()),
    {
        self.cache.clear();
    }
}

impl Default for LRUValueCache {
    fn default() -> (cache: Self)
        ensures
            cache.slots().len() == 0,
            cache.capacity() == DEFAULT_VALUE_CACHE_LRU_MAX_CAPACITY,
            cache.limit() == DEFAULT_VALUE_CACHE_MEMORY_LIMIT,
    {
        LRUValueCache::new(DEFAULT_VALUE_CACHE_LRU_MAX_CAPACITY, DEFAULT_VALUE_CACHE_MEMORY_LIMIT)
    }
}

/// A cache of the complete indexes of sorted runs, by path.
pub struct LRUIndexCache {
    cache: Lru<RunIndex>,
}

impl LRUIndexCache {
    /// The cached indexes, from the least recently used on. The key of each
    /// slot is empty.
    pub closed spec fn slots(self) -> Seq<SlotView<RunIndex>> {
        self.cache.slots()
    }

    pub closed spec fn capacity(self) -> nat {
        self.cache.capacity()
    }

    /// Every slot has the empty key, so that a path stands for one slot at
    /// most. This holds of a new cache, and every method keeps it.
    pub closed spec fn keyless(self) -> bool {
        every(self.cache.slots(), |slot: SlotView<RunIndex>| slot.key.len() == 0)
    }

    pub closed spec fn limit(self) -> nat {
        self.cache.limit()
    }

    /// The counters as a mathematical value.
    pub closed spec fn counters(self) -> CacheStats {
        CacheStats {
            size: self.cache.slots().len() as usize,
            hit_count: self.cache.hits() as u64,
            miss_count: self.cache.misses() as u64,
            eviction_count: self.cache.evictions() as u64,
            memory_limit: self.cache.limit() as usize,
            memory_usage: weight(self.cache.slots()) as usize,
        }
    }

    pub fn new(max_capacity: usize, memory_limit: usize) -> (cache: Self)
        ensures
            cache.slots().len() == 0,
            cache.capacity() == max_capacity,
            cache.limit() == memory_limit,
            cache.counters() == (CacheStats {
                size: 0,
                hit_count: 0,
                miss_count: 0,
                eviction_count: 0,
                memory_limit,
                memory_usage: 0,
            }),
            cache.keyless(),
    {
        LRUIndexCache { cache: Lru::new(max_capacity, memory_limit) }
    }

    /// The index cached for the run at `path`, which becomes the most
    /// recently used one.
    pub fn get(&mut self, path: &String) -> (r: Option<&RunIndex>)
        ensures
            final(self).slots() == touched(old(self).slots(), path@, Seq::<u8>::empty()),
            final(self).capacity() == old(self).capacity(),
            final(self).limit() == old(self).limit(),
            old(self).keyless() ==> final(self).keyless(),
            match r {
                Some(index) => holds(old(self).slots(), path@, Seq::<u8>::empty()) && *index
                    == old(self).slots()[place(
                    old(self).slots(),
                    path@,
                    Seq::<u8>::empty(),
                )].value,
                None => !holds(old(self).slots(), path@, Seq::<u8>::empty()),
            },
    {
        let key: Vec<u8> = Vec::new();
        proof {
            if self.keyless() {
                lemma_every_touched(self.cache.slots(), path@, key@, |slot: SlotView<RunIndex>| slot.key.len() == 0);
            }
        }
        self.cache.get(path, key.as_slice())
    }

    /// The estimated size of an index.
    pub fn estimate_index_size(index: &RunIndex) -> (size: usize)
        ensures
            size == index_size(index@),
    {
        let n = index.len();
        let mut size: usize = INDEX_BASE_SIZE;
        let mut i: usize = 0;
        while i < n
            invariant
                i <= n,
                n == index@.len(),
                size == index_size_up_to(index@, i as int),
            decreases n - i,
        {
            let len = index.key_at(i).len();
            size = if len <= (usize::MAX - INDEX_ENTRY_SIZE) / 2 && size <= usize::MAX
                - INDEX_ENTRY_SIZE - 2 * len {
                size + INDEX_ENTRY_SIZE + 2 * len
            } else {
                usize::MAX
            };
            i += 1;
        }
        size
    }

    /// Caches the index of the run at `path`, evicting the least recently
    /// used indexes as far as the bounds ask for it.
    pub fn put(&mut self, path: String, index: RunIndex)
        ensures
            final(self).slots() == after_put(
                old(self).slots(),
                old(self).capacity(),
                old(self).limit(),
                SlotView {
                    path: path@,
                    key: Seq::<u8>::empty(),
                    value: index,
                    size: index_size(index@),
                },
            ),
            final(self).capacity() == old(self).capacity(),
            final(self).limit() == old(self).limit(),
            old(self).keyless() ==> final(self).keyless(),
    {
        let size = Self::estimate_index_size(&index);
        proof {
            if self.keyless() {
                lemma_every_after_put(
                    self.cache.slots(),
                    self.cache.capacity(),
                    self.cache.limit(),
                    SlotView {
                        path: path@,
                        key: Seq::<u8>::empty(),
                        value: index,
                        size: index_size(index@),
                    },
                    |slot: SlotView<RunIndex>| slot.key.len() == 0,
                );
            }
        }
        self.cache.put(path, Vec::new(), index, size);
    }

    /// Forgets the index of the run at `path` and hands it out.
    pub fn remove(&mut self, path: &String) -> (r: Option<RunIndex>)
        ensures
            final(self).slots() == without(old(self).slots(), path@, Seq::<u8>::empty()),
            final(self).capacity() == old(self).capacity(),
            final(self).limit() == old(self).limit(),
            old(self).keyless() ==> final(self).keyless(),
            match r {
                Some(index) => holds(old(self).slots(), path@, Seq::<u8>::empty()) && index
                    == old(self).slots()[place(
                    old(self).slots(),
                    path@,
                    Seq::<u8>::empty(),
                )].value,
                None => !holds(old(self).slots(), path@, Seq::<u8>::empty()),
            },
    {
        let key: Vec<u8> = Vec::new();
        proof {
            if self.keyless() {
                lemma_every_touched(self.cache.slots(), path@, key@, |slot: SlotView<RunIndex>| slot.key.len() == 0);
            }
        }
        self.cache.remove(path, key.as_slice())
    }

    /// Forgets whatever is cached for the run at `path`.
    pub fn invalidate(&mut self, path: &String)
        ensures
            final(self).slots() == off_path(old(self).slots(), path@),
            final(self).capacity() == old(self).capacity(),
            final(self).limit() == old(self).limit(),
            old(self).keyless() ==> final(self).keyless(),
    {
        proof {
            if self.keyless() {
                lemma_every_off_path(self.cache.slots(), path@, |slot: SlotView<RunIndex>| slot.key.len() == 0);
            }
        }
        self.cache.remove_path(path);
    }

    /// Makes the index of the run at `path` the most recently used one.
    pub fn move_to_back(&mut self, path: &String)
        ensures
            final(self).slots() == touched(old(self).slots(), path@, Seq::<u8>::empty()),
            final(self).capacity() == old(self).capacity(),
            final(self).limit() == old(self).limit(),
            old(self).keyless() ==> final(self).keyless(),
    {
        let key: Vec<u8> = Vec::new();
        proof {
            if self.keyless() {
                lemma_every_touched(self.cache.slots(), path@, key@, |slot: SlotView<RunIndex>| slot.key.len() == 0);
            }
        }
        let _ = self.cache.get(path, key.as_slice());
    }

    /// Evicts the least recently used index, if there is one.
    pub fn evict_lru(&mut self) -> (evicted: bool)
        ensures
            evicted == (old(self).slots().len() > 0),
            final(self).slots() == if evicted {
                old(self).slots().skip(1)
            } else {
                old(self).slots()
            },
            final(self).capacity() == old(self).capacity(),
            final(self).limit() == old(self).limit(),
            old(self).keyless() ==> final(self).keyless(),
    {
        proof {
            if self.keyless() && self.cache.slots().len() > 0 {
                lemma_every_skip(self.cache.slots(), 1, |slot: SlotView<RunIndex>| slot.key.len() == 0);
            }
        }
        self.cache.evict_lru()
    }

    /// Evicts the `n` least recently used indexes, or all where there are
    /// fewer, and says how many it evicted.
    pub fn evict_n(&mut self, n: usize) -> (evicted: usize)
        ensures
            evicted == if n <= old(self).slots().len() {
                n as int
            } else {
                old(self).slots().len() as int
            },
            final(self).slots() == old(self).slots().skip(evicted as int),
            final(self).capacity() == old(self).capacity(),
            final(self).limit() == old(self).limit(),
            old(self).keyless() ==> final(self).keyless(),
    {
        proof {
            if self.keyless() {
                let most = if n <= self.cache.slots().len() {
                    n as int
                } else {
                    self.cache.slots().len() as int
                };
                lemma_every_skip(self.cache.slots(), most, |slot: SlotView<RunIndex>| slot.key.len() == 0);
            }
        }
        let mut evicted: usize = 0;
        assert(self.slots().skip(0) =~= self.slots());
        while evicted < n && self.cache.len() > 0
            invariant
                evicted <= n,
                evicted <= old(self).slots().len(),
                self.slots() == old(self).slots().skip(evicted as int),
                self.capacity() == old(self).capacity(),
                self.limit() == old(self).limit(),
            decreases n - evicted,
        {
            let ghost before = self.slots();
            let _ = self.cache.evict_lru();
            proof {
                assert(before.skip(1) =~= old(self).slots().skip(evicted as int + 1));
            }
            evicted += 1;
        }
        evicted
    }

    /// Sets new bounds, and evicts the least recently used indexes until
    /// both hold.
    pub fn resize(&mut self, new_capacity: usize, new_memory_limit: usize)
        ensures
            final(self).slots() == shrunk(
                old(self).slots(),
                new_capacity as nat,
                new_memory_limit as nat,
            ),
            final(self).capacity() == new_capacity,
            final(self).limit() == new_memory_limit,
            old(self).keyless() ==> final(self).keyless(),
    {
        proof {
            if self.keyless() {
                lemma_every_shrunk(
                    self.cache.slots(),
                    new_capacity as nat,
                    new_memory_limit as nat,
                    |slot: SlotView<RunIndex>| slot.key.len() == 0,
                );
            }
        }
        self.cache.resize(new_capacity, new_memory_limit);
    }

    /// The number of cached indexes. Whenever it is asked, the cache is
    /// within both of its bounds.
    pub fn len(&self) -> (n: usize)
        ensures
            n == self.slots().len(),
            distinct(self.slots()),
            within(self.slots(), self.capacity(), self.limit()),
    {
        self.cache.len()
    }

    pub fn is_empty(&self) -> (b: bool)
        ensures
            b == (self.slots().len() == 0),
    {
        self.cache.len() == 0
    }

    /// The paths of the runs whose indexes are cached.
    pub fn cached_paths(&self) -> (paths: Vec<String>)
        ensures
            paths@.len() == self.slots().len(),
            forall|i: int| 0 <= i < paths@.len() ==> (#[trigger] paths@[i])@ == self.slots()[i].path,
            self.keyless() ==> forall|i: int, j: int|
                0 <= i < j < paths@.len() ==> (#[trigger] paths@[i])@ != (#[trigger] paths@[j])@,
    {
        let _ = self.cache.len();
        let paths = self.cache.paths();
        proof {
            if self.keyless() {
                let slots = self.cache.slots();
                assert forall|i: int, j: int| 0 <= i < j < paths@.len() implies (#[trigger] paths@[i])@
                    != (#[trigger] paths@[j])@ by {
                    assert(!is_for(slots[i], slots[j].path, slots[j].key));
                    assert(slots[i].key =~= slots[j].key);
                }
            }
        }
        paths
    }

    /// Whether the index of the run at `key` is cached. The lookup counts
    /// as a use.
    pub fn contains_key(&mut self, key: &String) -> (b: bool)
        ensures
            b == holds(old(self).slots(), key@, Seq::<u8>::empty()),
            final(self).slots() == touched(old(self).slots(), key@, Seq::<u8>::empty()),
            final(self).capacity() == old(self).capacity(),
            final(self).limit() == old(self).limit(),
            old(self).keyless() ==> final(self).keyless(),
    {
        self.get(key).is_some()
    }

    /// The counters of the cache.
    pub fn stats(&self) -> (s: CacheStats)
        ensures
            s == self.counters(),
            s.size <= self.capacity(),
            s.memory_usage <= s.memory_limit,
    {
        CacheStats {
            size: self.cache.len(),
            hit_count: self.cache.hit_count(),
            miss_count: self.cache.miss_count(),
            eviction_count: self.cache.eviction_count(),
            memory_limit: self.cache.memory_limit(),
            memory_usage: self.cache.memory_usage(),
        }
    }

    /// Forgets everything, the counters too.
    pub fn clear(&mut self)
        ensures
            final(self).slots().len() == 0,
            final(self).capacity() == old(self).capacity(),
            final(self).limit() == old(self).limit(),
            final(self).counters() == emptied(old(self).counters()),
            final(self).keyless(),
    {
        self.cache.clear();
    }
}

impl Default for LRUIndexCache {
    fn default() -> (cache: Self)
        ensures
            cache.slots().len() == 0,
            cache.capacity() == DEFAULT_INDEX_CACHE_LRU_MAX_CAPACITY,
            cache.limit() == DEFAULT_INDEX_CACHE_MEMORY_LIMIT,
            cache.keyless(),
    {
        LRUIndexCache::new(DEFAULT_INDEX_CACHE_LRU_MAX_CAPACITY, DEFAULT_INDEX_CACHE_MEMORY_LIMIT)
    }
}

} // verus!
