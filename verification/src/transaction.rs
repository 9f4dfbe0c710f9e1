//! Optimistic transactions: what each transaction has seen and wants to
//! write, and the version stamps by which conflicts are found.
//!
//! A transaction notes the version stamp of every key at the time it first
//! reads or writes the key. It may commit only while no key it noted has a
//! newer stamp; committing stamps every key it wrote with a new version.

use crate::bytes::copy_range;
use crate::clock::Timestamp;
use crate::data_value::{DataValue, Record};
use crate::error::{TreeError, TreeResult};
use crate::table::{has_key, lemma_position, position, OrderedMap, Table};
use std::collections::HashMap;
use vstd::prelude::*;

verus! {

broadcast use vstd::std_specs::hash::group_hash_axioms;

/// The state of a transaction.
#[derive(Debug, Clone, Copy, PartialEq, Eq, Structural)]
pub enum TransactionStatus {
    Active,
    Committed,
    Aborted,
}

/// The version of a key and the time it was committed.
#[derive(Debug, Clone, Copy, PartialEq, Eq, Structural)]
pub struct VersionStamp {
    pub version: u64,
    pub timestamp: Timestamp,
}

impl View for VersionStamp {
    type V = VersionStamp;

    open spec fn view(&self) -> VersionStamp {
        *self
    }
}

impl VersionStamp {
    /// The stamp of a key that was never committed by a transaction.
    pub open spec fn zero() -> VersionStamp {
        VersionStamp { version: 0, timestamp: Timestamp { secs: 0, nanos: 0 } }
    }

    /// Whether `current` is no newer than `self`, the stamp that was seen.
    pub open spec fn covers(self, current: VersionStamp) -> bool {
        current.version <= self.version && current.timestamp.total() <= self.timestamp.total()
    }
}

/// What one transaction has seen and wants to write.
pub struct TransactionContext {
    /// The stamp that each key had when the transaction first touched it.
    pub read_set: OrderedMap<VersionStamp>,
    /// The records that the transaction wants to write.
    pub write_set: Table,
    /// The keys that the transaction has touched.
    pub validation_set: OrderedMap<()>,
    pub status: TransactionStatus,
}

/// The stamps that were seen are still current: no key that was seen has a
/// newer stamp now.
pub open spec fn stamps_valid(
    seen: Map<Seq<u8>, VersionStamp>,
    current: Map<Seq<u8>, VersionStamp>,
) -> bool {
    forall|key: Seq<u8>|
        seen.contains_key(key) && current.contains_key(key) ==> (#[trigger] seen[key]).covers(
            current[key],
        )
}

/// No stamp is newer than the version `top`.
pub open spec fn stamps_below(stamps: Map<Seq<u8>, VersionStamp>, top: u64) -> bool {
    forall|key: Seq<u8>| stamps.contains_key(key) ==> (#[trigger] stamps[key]).version <= top
}

/// The transactions in flight, and the version stamps of the committed keys.
pub struct TransactionManager {
    active_transactions: HashMap<u64, TransactionContext>,
    next_transaction_id: u64,
    global_version: u64,
    key_versions: OrderedMap<VersionStamp>,
}

impl TransactionManager {
    #[verifier::type_invariant]
    spec fn consistent(self) -> bool {
        &&& stamps_below(self.key_versions.map(), self.global_version)
        &&& forall|id: u64| #[trigger]
            self.active_transactions@.contains_key(id) ==> id < self.next_transaction_id
                && stamps_below(
                self.active_transactions@[id].read_set.map(),
                self.global_version,
            )
    }

    /// The transactions in flight, by id.
    pub closed spec fn active(self) -> Map<u64, TransactionContext> {
        self.active_transactions@
    }

    /// The id that the next transaction gets.
    pub closed spec fn next_id(self) -> u64 {
        self.next_transaction_id
    }

    /// The global version counter: no stamp carries a later version.
    pub closed spec fn version(self) -> u64 {
        self.global_version
    }

    /// The current version stamp of each key that a transaction committed.
    pub closed spec fn versions(self) -> Map<Seq<u8>, VersionStamp> {
        self.key_versions.map()
    }

    /// A manager without transactions and stamps. Ids and versions start at 1.
    pub fn new() -> (m: Self)
        ensures
            m.active() == Map::<u64, TransactionContext>::empty(),
            m.next_id() == 1,
            m.version() == 1,
            m.versions() == Map::<Seq<u8>, VersionStamp>::empty(),
    {
        TransactionManager {
            active_transactions: HashMap::new(),
            next_transaction_id: 1,
            global_version: 1,
            key_versions: OrderedMap::new(),
        }
    }

    /// The global version counter.
    pub fn global_version(&self) -> (v: u64)
        ensures
            v == self.version(),
            stamps_below(self.versions(), v),
    {
        proof {
            use_type_invariant(self);
        }
        self.global_version
    }

    /// The current stamp of `key`, if a transaction ever committed it.
    pub fn key_version(&self, key: &[u8]) -> (r: Option<VersionStamp>)
        ensures
            match r {
                Some(stamp) => self.versions().contains_key(key@) && self.versions()[key@]
                    == stamp,
                None => !self.versions().contains_key(key@),
            },
    {
        match self.key_versions.get(key) {
            Some(stamp) => Some(*stamp),
            None => None,
        }
    }

    /// The number of keys that carry a version stamp.
    pub closed spec fn stamped_keys(self) -> nat {
        self.key_versions@.len()
    }

    /// The number of keys that carry a version stamp.
    pub fn key_version_count(&self) -> (n: usize)
        ensures
            n == self.stamped_keys(),
    {
        self.key_versions.len()
    }

    /// The keys that carry a version stamp, in ascending order, each with
    /// its stamp.
    pub fn key_versions(&self) -> (out: Vec<(Vec<u8>, VersionStamp)>)
        ensures
            out@.len() == self.stamped_keys(),
            forall|i: int|
                0 <= i < out@.len() ==> self.versions().contains_key((#[trigger] out@[i]).0@)
                    && self.versions()[out@[i].0@] == out@[i].1,
    {
        let n = self.key_versions.len();
        let mut out: Vec<(Vec<u8>, VersionStamp)> = Vec::new();
        let mut i: usize = 0;
        while i < n
            invariant
                i <= n,
                n == self.key_versions@.len(),
                crate::table::keys_ascending(self.key_versions@),
                out@.len() == i,
                forall|j: int|
                    0 <= j < i ==> self.key_versions.map().contains_key((#[trigger] out@[j]).0@)
                        && self.key_versions.map()[out@[j].0@] == out@[j].1,
            decreases n - i,
        {
            let key = self.key_versions.key_at(i);
            let owned = copy_range(key, 0, key.len());
            assert(owned@ =~= key@);
            proof {
                lemma_position(self.key_versions@, i as int);
            }
            out.push((owned, *self.key_versions.value_at(i)));
            i += 1;
        }
        out
    }

    /// Whether the transaction is in flight.
    pub fn is_active(&self, tx_id: u64) -> (b: bool)
        ensures
            b == self.active().contains_key(tx_id),
    {
        self.active_transactions.contains_key(&tx_id)
    }

    /// Starts a transaction and gives its id: the next id, with nothing seen
    /// and nothing to write. Fails with a `Transaction` error once the ids
    /// are used up.
    pub fn begin_transaction(&mut self) -> (r: TreeResult<u64>)
        ensures
            final(self).version() == old(self).version(),
            final(self).versions() == old(self).versions(),
            match r {
                Ok(id) => {
                    &&& id == old(self).next_id()
                    &&& id < u64::MAX
                    &&& final(self).next_id() == id + 1
                    &&& !old(self).active().contains_key(id)
                    &&& final(self).active().dom() == old(self).active().dom().insert(id)
                    &&& final(self).active()[id].read_set.map() == Map::<
                        Seq<u8>,
                        VersionStamp,
                    >::empty()
                    &&& final(self).active()[id].write_set@.len() == 0
                    &&& final(self).active()[id].status == TransactionStatus::Active
                    &&& forall|other: u64|
                        other != id && old(self).active().contains_key(other)
                            ==> #[trigger] final(self).active()[other] == old(self).active()[other]
                },
                Err(e) => {
                    &&& e is Transaction
                    &&& old(self).next_id() == u64::MAX
                    &&& final(self).active() == old(self).active()
                    &&& final(self).next_id() == old(self).next_id()
                },
            },
    {
        proof {
            use_type_invariant(&*self);
        }
        if self.next_transaction_id == u64::MAX {
            return Err(TreeError::transaction("transaction ids are used up"));
        }
        let tx_id = self.next_transaction_id;
        let context = TransactionContext {
            read_set: OrderedMap::new(),
            write_set: OrderedMap::new(),
            validation_set: OrderedMap::new(),
            status: TransactionStatus::Active,
        };
        let mut active: HashMap<u64, TransactionContext> = HashMap::new();
        core::mem::swap(&mut active, &mut self.active_transactions);
        let ghost before = active@;
        active.insert(tx_id, context);
        let ghost after = active@;
        let mut key_versions: OrderedMap<VersionStamp> = OrderedMap::new();
        core::mem::swap(&mut key_versions, &mut self.key_versions);
        *self = TransactionManager {
            active_transactions: active,
            next_transaction_id: tx_id + 1,
            global_version: self.global_version,
            key_versions,
        };
        assert(after.dom() =~= before.dom().insert(tx_id));
        Ok(tx_id)
    }
}

/// What a transaction has seen after it touched `key`: the stamp that the
/// key had at the first touch, or the zero stamp where it had none.
pub open spec fn observed(
    seen: Map<Seq<u8>, VersionStamp>,
    key: Seq<u8>,
    current: Map<Seq<u8>, VersionStamp>,
) -> Map<Seq<u8>, VersionStamp> {
    if seen.contains_key(key) {
        seen
    } else if current.contains_key(key) {
        seen.insert(key, current[key])
    } else {
        seen.insert(key, VersionStamp::zero())
    }
}

/// The stamp that the `i`-th key of a commit gets, counted from zero, where
/// the version counter stood at `base` before.
pub open spec fn commit_stamp(base: u64, i: int, now: Timestamp) -> VersionStamp {
    VersionStamp { version: (base + i + 1) as u64, timestamp: now }
}

/// The keys of a table, copied.
pub fn keys_of(table: &Table) -> (keys: Vec<Vec<u8>>)
    ensures
        keys@.len() == table@.len(),
        forall|i: int| 0 <= i < keys@.len() ==> (#[trigger] keys@[i])@ == table@[i].0,
{
    let n = table.len();
    let mut keys: Vec<Vec<u8>> = Vec::new();
    let mut i: usize = 0;
    while i < n
        invariant
            i <= n,
            n == table@.len(),
            keys@.len() == i,
            forall|j: int| 0 <= j < i ==> (#[trigger] keys@[j])@ == table@[j].0,
        decreases n - i,
    {
        let key = table.key_at(i);
        let owned = copy_range(key, 0, key.len());
        assert(owned@ =~= key@);
        keys.push(owned);
        i += 1;
    }
    keys
}

impl TransactionContext {
    /// Notes the stamp of `key` as the transaction sees it for the first
    /// time, and that the transaction touched the key.
    pub fn observe(&mut self, key: &[u8], current: Option<VersionStamp>)
        ensures
            final(self).read_set.map() == if old(self).read_set.map().contains_key(key@) {
                old(self).read_set.map()
            } else {
                old(self).read_set.map().insert(
                    key@,
                    match current {
                        Some(stamp) => stamp,
                        None => VersionStamp::zero(),
                    },
                )
            },
            final(self).write_set == old(self).write_set,
            final(self).status == old(self).status,
    {
        let owned = copy_range(key, 0, key.len());
        assert(owned@ =~= key@);
        self.validation_set.insert(owned, ());
        if !self.read_set.contains_key(key) {
            let stamp = match current {
                Some(stamp) => stamp,
                None => VersionStamp { version: 0, timestamp: Timestamp { secs: 0, nanos: 0 } },
            };
            let owned = copy_range(key, 0, key.len());
            assert(owned@ =~= key@);
            self.read_set.insert(owned, stamp);
        }
    }

    /// Whether no key that the transaction has seen has a newer stamp in
    /// `current`.
    pub fn is_valid(&self, current: &OrderedMap<VersionStamp>) -> (ok: bool)
        ensures
            ok == stamps_valid(self.read_set.map(), current.map()),
    {
        let n = self.read_set.len();
        let ghost seen = self.read_set@;
        let mut i: usize = 0;
        while i < n
            invariant
                i <= n,
                n == seen.len(),
                seen == self.read_set@,
                crate::table::keys_ascending(seen),
                forall|j: int|
                    0 <= j < i && current.map().contains_key(#[trigger] seen[j].0)
                        ==> seen[j].1.covers(current.map()[seen[j].0]),
            decreases n - i,
        {
            let key = self.read_set.key_at(i);
            let stamp = *self.read_set.value_at(i);
            match current.get(key) {
                Some(now) => {
                    let now_total = now.timestamp.total_nanos();
                    let seen_total = stamp.timestamp.total_nanos();
                    if now.version > stamp.version || now_total > seen_total {
                        proof {
                            lemma_position(seen, i as int);
                        }
                        return false;
                    }
                },
                None => {},
            }
            i += 1;
        }
        proof {
            assert forall|key: Seq<u8>|
                self.read_set.map().contains_key(key) && current.map().contains_key(
                    key,
                ) implies (#[trigger] self.read_set.map()[key]).covers(current.map()[key]) by {
                let j = position(seen, key);
                lemma_position(seen, j);
            }
        }
        true
    }
}

impl TransactionManager {
    /// Puts `value` into the write set of the transaction under `key`, and
    /// notes the stamp of the key where the transaction touches it for the
    /// first time. An unknown transaction is a `Transaction` error.
    pub fn write_transaction(&mut self, tx_id: u64, key: Vec<u8>, value: DataValue) -> (r:
        TreeResult<()>)
        ensures
            final(self).version() == old(self).version(),
            final(self).versions() == old(self).versions(),
            final(self).next_id() == old(self).next_id(),
            final(self).active().dom() == old(self).active().dom(),
            forall|other: u64|
                other != tx_id && old(self).active().contains_key(other) ==> #[trigger] final(self).active()[other] == old(self).active()[other],
            match r {
                Ok(_) => {
                    &&& old(self).active().contains_key(tx_id)
                    &&& final(self).active()[tx_id].write_set.map() == old(self).active()[tx_id].write_set.map().insert(key@, value@)
                    &&& final(self).active()[tx_id].read_set.map() == observed(
                        old(self).active()[tx_id].read_set.map(),
                        key@,
                        old(self).versions(),
                    )
                },
                Err(e) => {
                    &&& e is Transaction
                    &&& !old(self).active().contains_key(tx_id)
                    &&& final(self).active() == old(self).active()
                },
            },
    {
        proof {
            use_type_invariant(&*self);
        }
        if !self.active_transactions.contains_key(&tx_id) {
            return Err(TreeError::transaction("Transaction not found"));
        }
        let current = self.key_version(key.as_slice());
        let mut active: HashMap<u64, TransactionContext> = HashMap::new();
        core::mem::swap(&mut active, &mut self.active_transactions);
        let ghost before = active@;
        let mut context = active.remove(&tx_id).unwrap();
        context.observe(key.as_slice(), current);
        context.write_set.insert(key, value);
        active.insert(tx_id, context);
        assert(active@.dom() =~= before.dom());
        self.active_transactions = active;
        Ok(())
    }

    /// Notes that the transaction read `key` from the engine: the stamp of
    /// the key at its first touch is what validation holds against. An
    /// unknown transaction is a `Transaction` error.
    pub fn record_read(&mut self, tx_id: u64, key: &[u8]) -> (r: TreeResult<()>)
        ensures
            final(self).version() == old(self).version(),
            final(self).versions() == old(self).versions(),
            final(self).next_id() == old(self).next_id(),
            final(self).active().dom() == old(self).active().dom(),
            forall|other: u64|
                other != tx_id && old(self).active().contains_key(other) ==> #[trigger] final(self).active()[other] == old(self).active()[other],
            match r {
                Ok(_) => {
                    &&& old(self).active().contains_key(tx_id)
                    &&& final(self).active()[tx_id].write_set == old(self).active()[tx_id].write_set
                    &&& final(self).active()[tx_id].read_set.map() == observed(
                        old(self).active()[tx_id].read_set.map(),
                        key@,
                        old(self).versions(),
                    )
                },
                Err(e) => {
                    &&& e is Transaction
                    &&& !old(self).active().contains_key(tx_id)
                    &&& final(self).active() == old(self).active()
                },
            },
    {
        proof {
            use_type_invariant(&*self);
        }
        if !self.active_transactions.contains_key(&tx_id) {
            return Err(TreeError::transaction("Transaction not found"));
        }
        let current = self.key_version(key);
        let mut active: HashMap<u64, TransactionContext> = HashMap::new();
        core::mem::swap(&mut active, &mut self.active_transactions);
        let ghost before = active@;
        let mut context = active.remove(&tx_id).unwrap();
        context.observe(key, current);
        active.insert(tx_id, context);
        assert(active@.dom() =~= before.dom());
        self.active_transactions = active;
        Ok(())
    }

    /// What the transaction itself wants to write under `key`, if anything.
    /// An unknown transaction is a `Transaction` error.
    pub fn local_value(&self, tx_id: u64, key: &[u8]) -> (r: TreeResult<Option<DataValue>>)
        ensures
            match r {
                Ok(Some(v)) => self.active().contains_key(tx_id)
                    && self.active()[tx_id].write_set.map().contains_key(key@)
                    && self.active()[tx_id].write_set.map()[key@] == v@,
                Ok(None) => self.active().contains_key(tx_id)
                    && !self.active()[tx_id].write_set.map().contains_key(key@),
                Err(e) => e is Transaction && !self.active().contains_key(tx_id),
            },
    {
        match self.active_transactions.get(&tx_id) {
            Some(context) => match context.write_set.get(key) {
                Some(v) => Ok(Some(v.duplicate())),
                None => Ok(None),
            },
            None => Err(TreeError::transaction("Transaction not found")),
        }
    }

    /// A copy of the write set of the transaction. An unknown transaction is
    /// a `Transaction` error.
    pub fn write_set_of(&self, tx_id: u64) -> (r: TreeResult<Table>)
        ensures
            match r {
                Ok(table) => self.active().contains_key(tx_id) && table@
                    == self.active()[tx_id].write_set@,
                Err(e) => e is Transaction && !self.active().contains_key(tx_id),
            },
    {
        match self.active_transactions.get(&tx_id) {
            Some(context) => Ok(context.write_set.duplicate()),
            None => Err(TreeError::transaction("Transaction not found")),
        }
    }

    /// Discards the transaction with everything it wanted to write.
    pub fn rollback_transaction(&mut self, tx_id: u64) -> (r: TreeResult<()>)
        ensures
            r is Ok,
            final(self).active() == old(self).active().remove(tx_id),
            final(self).version() == old(self).version(),
            final(self).versions() == old(self).versions(),
            final(self).next_id() == old(self).next_id(),
    {
        proof {
            use_type_invariant(&*self);
        }
        let mut active: HashMap<u64, TransactionContext> = HashMap::new();
        core::mem::swap(&mut active, &mut self.active_transactions);
        let _ = active.remove(&tx_id);
        self.active_transactions = active;
        Ok(())
    }

    /// Whether the transaction may commit: no key that it has seen has a
    /// newer stamp now. An unknown transaction is a `Transaction` error.
    pub fn validate_transaction(&self, tx_id: u64) -> (r: TreeResult<bool>)
        ensures
            match r {
                Ok(valid) => self.active().contains_key(tx_id) && valid == stamps_valid(
                    self.active()[tx_id].read_set.map(),
                    self.versions(),
                ),
                Err(e) => e is Transaction && !self.active().contains_key(tx_id),
            },
    {
        match self.active_transactions.get(&tx_id) {
            Some(context) => Ok(context.is_valid(&self.key_versions)),
            None => Err(TreeError::transaction("Transaction not found")),
        }
    }

    /// Stamps every key of the write set of the transaction, in ascending
    /// key order, with the next version each and the time `now`.
    ///
    /// Every other transaction in flight that has seen one of these keys
    /// can no longer commit. An unknown transaction is a `Transaction`
    /// error, and so is a version counter that would overflow; nothing
    /// changes then.
    pub fn apply_transaction_changes(&mut self, tx_id: u64, now: Timestamp) -> (r: TreeResult<()>)
        ensures
            final(self).active() == old(self).active(),
            final(self).next_id() == old(self).next_id(),
            match r {
                Ok(_) => {
                    let written = old(self).active()[tx_id].write_set@;
                    &&& old(self).active().contains_key(tx_id)
                    &&& final(self).version() == old(self).version() + written.len()
                    &&& forall|key: Seq<u8>|
                        final(self).versions().contains_key(key) <==> old(self).versions().contains_key(key) || has_key(written, key)
                    &&& forall|i: int|
                        0 <= i < written.len() ==> final(self).versions()[#[trigger] written[i].0]
                            == commit_stamp(old(self).version(), i, now)
                    &&& forall|key: Seq<u8>|
                        old(self).versions().contains_key(key) && !has_key(written, key)
                            ==> #[trigger] final(self).versions()[key] == old(self).versions()[key]
                    &&& forall|other: u64, key: Seq<u8>|
                        other != tx_id && old(self).active().contains_key(other) && has_key(
                            written,
                            key,
                        ) && #[trigger] old(self).active()[other].read_set.map().contains_key(key)
                            ==> !stamps_valid(
                            old(self).active()[other].read_set.map(),
                            final(self).versions(),
                        )
                },
                Err(e) => {
                    &&& e is Transaction
                    &&& final(self).version() == old(self).version()
                    &&& final(self).versions() == old(self).versions()
                    &&& !old(self).active().contains_key(tx_id) || old(self).version() + old(self).active()[tx_id].write_set@.len() > u64::MAX
                },
            },
    {
        proof {
            use_type_invariant(&*self);
        }
        let keys = match self.active_transactions.get(&tx_id) {
            Some(context) => {
                let _ = context.write_set.len();
                keys_of(&context.write_set)
            },
            None => {
                return Err(TreeError::transaction("Transaction not found"));
            },
        };
        let ghost written = self.active_transactions@[tx_id].write_set@;
        let n = keys.len();
        let base = self.global_version;
        if n as u64 > u64::MAX - base {
            return Err(TreeError::transaction("version counter is used up"));
        }
        let ghost before = self.key_versions.map();
        let mut stamps: OrderedMap<VersionStamp> = OrderedMap::new();
        core::mem::swap(&mut stamps, &mut self.key_versions);
        let mut i: usize = 0;
        while i < n
            invariant
                i <= n,
                n == keys@.len(),
                n == written.len(),
                base + n <= u64::MAX,
                crate::table::keys_ascending(written),
                forall|j: int| 0 <= j < n ==> (#[trigger] keys@[j])@ == written[j].0,
                stamps_below(stamps.map(), (base + i) as u64),
                forall|key: Seq<u8>|
                    stamps.map().contains_key(key) <==> before.contains_key(key) || exists|j: int|
                        0 <= j < i && (#[trigger] written[j]).0 == key,
                forall|j: int|
                    0 <= j < i ==> stamps.map()[#[trigger] written[j].0] == commit_stamp(
                        base,
                        j,
                        now,
                    ),
                forall|key: Seq<u8>|
                    before.contains_key(key) && !(exists|j: int|
                        0 <= j < i && (#[trigger] written[j]).0 == key) ==> #[trigger] stamps.map()[key]
                        == before[key],
            decreases n - i,
        {
            let key = copy_range(keys[i].as_slice(), 0, keys[i].len());
            assert(key@ =~= written[i as int].0);
            let stamp = VersionStamp { version: base + i as u64 + 1, timestamp: now };
            let ghost earlier = stamps.map();
            stamps.insert(key, stamp);
            proof {
                assert forall|key: Seq<u8>|
                    stamps.map().contains_key(key) <==> before.contains_key(key) || exists|j: int|
                        0 <= j < i + 1 && (#[trigger] written[j]).0 == key by {
                    if earlier.contains_key(key) && !before.contains_key(key) {
                        let j = choose|j: int| 0 <= j < i && (#[trigger] written[j]).0 == key;
                        assert(written[j].0 == key);
                    }
                    if key == written[i as int].0 {
                        assert(written[i as int].0 == key);
                    }
                }
                assert forall|j: int| 0 <= j < i + 1 implies stamps.map()[#[trigger] written[j].0]
                    == commit_stamp(base, j, now) by {
                    if j < i {
                        assert(crate::bytes::lex_lt(written[j].0, written[i as int].0));
                        crate::bytes::lemma_lex_irreflexive(written[j].0);
                    }
                }
                assert forall|key: Seq<u8>|
                    before.contains_key(key) && !(exists|j: int|
                        0 <= j < i + 1 && (#[trigger] written[j]).0 == key) implies #[trigger] stamps.map()[key]
                        == before[key] by {
                    assert(written[i as int].0 != key);
                    if exists|j: int| 0 <= j < i && (#[trigger] written[j]).0 == key {
                        let j = choose|j: int| 0 <= j < i && (#[trigger] written[j]).0 == key;
                        assert(written[j].0 == key);
                    }
                }
            }
            i += 1;
        }
        let ghost contexts = self.active_transactions@;
        let mut active: HashMap<u64, TransactionContext> = HashMap::new();
        core::mem::swap(&mut active, &mut self.active_transactions);
        let top = base + n as u64;
        proof {
            assert forall|other: u64, key: Seq<u8>|
                other != tx_id && contexts.contains_key(other) && has_key(written, key)
                    && #[trigger] contexts[other].read_set.map().contains_key(
                    key,
                ) implies !stamps_valid(contexts[other].read_set.map(), stamps.map()) by {
                let j = position(written, key);
                assert(written[j].0 == key);
                let seen = contexts[other].read_set.map();
                assert(seen[key].version <= base);
                assert(stamps.map()[key] == commit_stamp(base, j, now));
                assert(stamps.map().contains_key(key));
                assert(!seen[key].covers(stamps.map()[key]));
            }
        }
        *self = TransactionManager {
            active_transactions: active,
            next_transaction_id: self.next_transaction_id,
            global_version: top,
            key_versions: stamps,
        };
        Ok(())
    }

    /// Ends a committed transaction: it is no longer in flight.
    pub fn finalize_transaction(&mut self, tx_id: u64) -> (r: TreeResult<()>)
        ensures
            r is Ok,
            final(self).active() == old(self).active().remove(tx_id),
            final(self).version() == old(self).version(),
            final(self).versions() == old(self).versions(),
            final(self).next_id() == old(self).next_id(),
    {
        proof {
            use_type_invariant(&*self);
        }
        let mut active: HashMap<u64, TransactionContext> = HashMap::new();
        core::mem::swap(&mut active, &mut self.active_transactions);
        let _ = active.remove(&tx_id);
        self.active_transactions = active;
        Ok(())
    }
}

} // verus!
