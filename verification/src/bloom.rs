//! The bloom filter of a sorted run: a set of keys that may answer "maybe"
//! for a key it does not hold, and never answers "no" for one it holds.

use crate::error::{TreeError, TreeResult};
use crate::sstable::RunIndex;
use crate::table::Table;
use growable_bloom_filter::GrowableBloom;
use vstd::prelude::*;

verus! {

/// The most keys a filter is built for.
pub const MAX_FILTER_KEYS: usize = 1_000_000_000;

/// `growable_bloom_filter::GrowableBloom`, carried as it is: nothing is
/// seen of what is inside a filter.
#[verifier::external_type_specification]
#[verifier::external_body]
pub struct ExGrowableBloom(GrowableBloom);

/// The number of insertions that a filter was made for.
pub uninterp spec fn bloom_estimate(filter: GrowableBloom) -> nat;

/// The number of insertions that a filter has counted.
pub uninterp spec fn bloom_count(filter: GrowableBloom) -> nat;

/// The filter was made by `growable_bloom_filter`'s builder and changed by
/// `insert` only, so that each of its parts has bits to test.
pub uninterp spec fn bloom_sound(filter: GrowableBloom) -> bool;

/// What `GrowableBloom::contains` answers for a key. The crate hashes a key
/// with a hasher of fixed seed that is the same on every machine, so the
/// answer depends on the filter and the key alone.
pub uninterp spec fn bloom_answer(filter: GrowableBloom, key: Seq<u8>) -> bool;

/// What `serde_json::to_vec` makes of a filter: its JSON text, or nothing
/// where the serializer refuses.
pub uninterp spec fn bloom_json(filter: GrowableBloom) -> Option<Seq<u8>>;

/// Calls `GrowableBloomBuilder::new().estimated_insertions(estimate).build()`:
/// an empty filter with the crate's default target rate of false positives
/// (one in a hundred), which is the engine's default too.
#[verifier::external_body]
fn bloom_new(estimate: usize) -> (filter: GrowableBloom)
    requires
        estimate >= 1,
    ensures
        bloom_sound(filter),
        bloom_estimate(filter) == estimate,
        bloom_count(filter) == 0,
{
    growable_bloom_filter::GrowableBloomBuilder::new().estimated_insertions(estimate).build()
}

/// Calls `GrowableBloom::insert` with the key as a byte slice. An insert
/// only sets bits: the filter answers yes for the key afterwards, and for
/// every key for which it answered yes before. The count grows by one at
/// most. The filter grows by doubling from its estimate; the bound keeps
/// the sizes it computes on the way within the machine's integers.
#[verifier::external_body]
fn bloom_insert(filter: &mut GrowableBloom, key: &[u8])
    requires
        bloom_sound(*old(filter)),
        bloom_estimate(*old(filter)) >= 1,
        2 * bloom_count(*old(filter)) + bloom_estimate(*old(filter)) <= u32::MAX,
    ensures
        bloom_sound(*final(filter)),
        bloom_answer(*final(filter), key@),
        forall|other: Seq<u8>|
            bloom_answer(*old(filter), other) ==> #[trigger] bloom_answer(*final(filter), other),
        bloom_estimate(*final(filter)) == bloom_estimate(*old(filter)),
        bloom_count(*final(filter)) <= bloom_count(*old(filter)) + 1,
{
    filter.insert(key);
}

/// Calls `GrowableBloom::contains` with the key as a byte slice.
#[verifier::external_body]
fn bloom_contains(filter: &GrowableBloom, key: &[u8]) -> (found: bool)
    requires
        bloom_sound(*filter),
    ensures
        found == bloom_answer(*filter, key@),
{
    filter.contains(key)
}

/// Calls `serde_json::to_vec` on the filter. The bytes are the JSON text of
/// the filter; nothing more is said of them.
#[verifier::external_body]
fn bloom_to_json(filter: &GrowableBloom) -> (r: Result<Vec<u8>, String>)
    ensures
        match r {
            Ok(bytes) => bloom_json(*filter) == Some(bytes@),
            Err(_) => bloom_json(*filter) is None,
        },
{
    match serde_json::to_vec(filter) {
        Ok(bytes) => Ok(bytes),
        Err(e) => Err(e.to_string()),
    }
}

/// The bloom filter of one sorted run.
pub struct BloomFilter {
    filter: GrowableBloom,
}

impl BloomFilter {
    #[verifier::type_invariant]
    spec fn sound(self) -> bool {
        bloom_sound(self.filter)
    }

    /// The keys for which the filter answers yes: the keys that it was
    /// built from, and whatever other keys happen to meet the same bits.
    pub closed spec fn items(self) -> Set<Seq<u8>> {
        Set::new(|key: Seq<u8>| bloom_answer(self.filter, key))
    }

    /// What the filter answers for a key.
    pub closed spec fn answer(self, key: Seq<u8>) -> bool {
        bloom_answer(self.filter, key)
    }

    /// The filter as JSON text, or nothing where it cannot be serialized.
    pub closed spec fn json(self) -> Option<Seq<u8>> {
        bloom_json(self.filter)
    }

    /// Builds the filter of a table: every key of the table is an item.
    ///
    /// A table of more than `MAX_FILTER_KEYS` entries is refused with a
    /// `BloomFilter` error.
    pub fn from_table(table: &Table) -> (r: TreeResult<BloomFilter>)
        ensures
            match r {
                Ok(filter) => table@.len() <= MAX_FILTER_KEYS && forall|key: Seq<u8>|
                    crate::table::has_key(table@, key) ==> #[trigger] filter.items().contains(key),
                Err(e) => e is BloomFilter && table@.len() > MAX_FILTER_KEYS,
            },
    {
        let n = table.len();
        if n > MAX_FILTER_KEYS {
            return Err(TreeError::bloom_filter("too many keys for one bloom filter"));
        }
        let mut filter = bloom_new(if n == 0 { 1 } else { n });
        let mut i: usize = 0;
        while i < n
            invariant
                i <= n,
                n == table@.len(),
                n <= MAX_FILTER_KEYS,
                bloom_sound(filter),
                bloom_estimate(filter) >= 1,
                bloom_estimate(filter) <= MAX_FILTER_KEYS,
                bloom_count(filter) <= i,
                forall|j: int| 0 <= j < i ==> bloom_answer(filter, (#[trigger] table@[j]).0),
            decreases n - i,
        {
            bloom_insert(&mut filter, table.key_at(i));
            i += 1;
        }
        let made = BloomFilter { filter };
        proof {
            assert forall|key: Seq<u8>| crate::table::has_key(table@, key) implies #[trigger] made.items().contains(key) by {
                let j = choose|j: int| 0 <= j < table@.len() && (#[trigger] table@[j]).0 == key;
                assert(bloom_answer(filter, table@[j].0));
            }
        }
        Ok(made)
    }

    /// Builds the filter of a run from its index: every key of the index is
    /// an item.
    ///
    /// An index of more than `MAX_FILTER_KEYS` keys is refused with a
    /// `BloomFilter` error.
    pub fn from_index(index: &RunIndex) -> (r: TreeResult<BloomFilter>)
        ensures
            match r {
                Ok(filter) => index@.len() <= MAX_FILTER_KEYS && forall|key: Seq<u8>|
                    crate::sstable::index_lookup(index@, key) is Some ==> #[trigger] filter.items().contains(
                        key,
                    ),
                Err(e) => e is BloomFilter && index@.len() > MAX_FILTER_KEYS,
            },
    {
        let n = index.len();
        if n > MAX_FILTER_KEYS {
            return Err(TreeError::bloom_filter("too many keys for one bloom filter"));
        }
        let mut filter = bloom_new(if n == 0 { 1 } else { n });
        let mut i: usize = 0;
        while i < n
            invariant
                i <= n,
                n == index@.len(),
                n <= MAX_FILTER_KEYS,
                bloom_sound(filter),
                bloom_estimate(filter) >= 1,
                bloom_estimate(filter) <= MAX_FILTER_KEYS,
                bloom_count(filter) <= i,
                forall|j: int| 0 <= j < i ==> bloom_answer(filter, (#[trigger] index@[j]).0),
            decreases n - i,
        {
            bloom_insert(&mut filter, index.key_at(i));
            i += 1;
        }
        let made = BloomFilter { filter };
        proof {
            assert forall|key: Seq<u8>| crate::sstable::index_lookup(index@, key) is Some implies #[trigger] made.items().contains(key) by {
                let j = choose|j: int| 0 <= j < index@.len() && (#[trigger] index@[j]).0 == key;
                assert(bloom_answer(filter, index@[j].0));
            }
        }
        Ok(made)
    }

    /// Asks the filter for a key. `false` is certain: the key is not an
    /// item. `true` means that it may be one.
    pub fn contains(&self, key: &[u8]) -> (found: bool)
        ensures
            found == self.answer(key@),
            found == self.items().contains(key@),
    {
        proof {
            use_type_invariant(self);
        }
        bloom_contains(&self.filter, key)
    }

    /// What `to_bytes` returns for what the serializer gave.
    pub fn serialized_from(outcome: Result<Vec<u8>, String>) -> (r: TreeResult<Vec<u8>>)
        ensures
            match outcome {
                Ok(bytes) => r == Ok::<Vec<u8>, TreeError>(bytes),
                Err(text) => r matches Err(e) && e is BloomFilter && e.message_of() == text,
            },
    {
        match outcome {
            Ok(bytes) => Ok(bytes),
            Err(text) => Err(TreeError::BloomFilter { message: text }),
        }
    }

    /// The filter serialized as JSON, as it is stored in the bloom block of
    /// a run. A failure of the serializer is a `BloomFilter` error.
    pub fn to_bytes(&self) -> (r: TreeResult<Vec<u8>>)
        ensures
            match r {
                Ok(bytes) => self.json() == Some(bytes@),
                Err(e) => e is BloomFilter && self.json() is None,
            },
    {
        Self::serialized_from(bloom_to_json(&self.filter))
    }
}

} // verus!
