//! The value record: the unit stored at every layer of the engine, and its
//! byte encoding.
//!
//! An encoded record is a fixed header of 43 bytes followed by the payload:
//!
//! ```text
//! [tombstone: 1][has expiry: 1][expiry secs: u64 LE][expiry nanos: u32 LE]
//! [created secs: u64 LE][created nanos: u32 LE]
//! [has txn: 1][txn id: u64 LE][payload length: u64 LE][payload]
//! ```
//!
//! A flag byte is 0 or 1, and the fields of an absent option are zero, so
//! that every record has exactly one encoding.

use crate::bytes::{append_bytes, copy_range, le32, le64, lemma_le_round_trip, push_u32, push_u64, read_u32, read_u64, u32_at, u64_at};
use crate::clock::{now, span_of, Span, Timestamp};
use crate::error::{TreeError, TreeResult};
use vstd::prelude::*;

verus! {

/// The length of the fixed part of an encoded record.
pub const RECORD_HEADER_LEN: usize = 43;

/// A value record as a mathematical value.
pub struct Record {
    pub data: Seq<u8>,
    pub expires_at: Option<Timestamp>,
    pub created_at: Timestamp,
    pub is_tombstone: bool,
    pub transaction_id: Option<u64>,
}

/// A value record: a payload with its time stamps, or a tombstone.
#[derive(Clone, Debug)]
pub struct DataValue {
    pub data: Vec<u8>,
    pub expires_at: Option<Timestamp>,
    pub created_at: Timestamp,
    pub is_tombstone: bool,
    pub transaction_id: Option<u64>,
}

impl View for DataValue {
    type V = Record;

    open spec fn view(&self) -> Record {
        Record {
            data: self.data@,
            expires_at: self.expires_at,
            created_at: self.created_at,
            is_tombstone: self.is_tombstone,
            transaction_id: self.transaction_id,
        }
    }
}

impl Record {
    /// A record made at `now` that holds `data` and lives for `ttl`, or for
    /// ever where `ttl` is `None`.
    pub open spec fn fresh(data: Seq<u8>, ttl: Option<Span>, now: Timestamp) -> Record {
        Record {
            data,
            expires_at: match ttl {
                Some(span) => Some(now.plus_spec(span)),
                None => None,
            },
            created_at: now,
            is_tombstone: false,
            transaction_id: None,
        }
    }

    /// The deletion marker made at `now`.
    pub open spec fn tombstone_at(now: Timestamp) -> Record {
        Record {
            data: Seq::empty(),
            expires_at: None,
            created_at: now,
            is_tombstone: true,
            transaction_id: None,
        }
    }

    /// The checkpoint marker made at `now`: an empty record that deletes nothing.
    pub open spec fn checkpoint_at(now: Timestamp) -> Record {
        Record {
            data: Seq::empty(),
            expires_at: None,
            created_at: now,
            is_tombstone: false,
            transaction_id: None,
        }
    }

    /// Expired: an expiry is present and `now` lies after it.
    pub open spec fn expired_at(self, now: Timestamp) -> bool {
        self.expires_at matches Some(expiry) && now.total() > expiry.total()
    }

    /// Visible to a reader at `now`: neither a tombstone nor expired.
    pub open spec fn live_at(self, now: Timestamp) -> bool {
        !self.is_tombstone && !self.expired_at(now)
    }

    /// The invariants of a record: an expiry is not before the creation, and
    /// a tombstone has no payload and no expiry.
    pub open spec fn well_formed(self) -> bool {
        &&& self.expires_at matches Some(expiry) ==> expiry.total() >= self.created_at.total()
        &&& self.is_tombstone ==> self.data.len() == 0 && self.expires_at is None
    }

    /// The byte that stands for a flag.
    pub open spec fn flag(b: bool) -> u8 {
        if b {
            1
        } else {
            0
        }
    }

    /// The fixed part of the encoding.
    pub open spec fn header(self) -> Seq<u8> {
        let expiry = match self.expires_at {
            Some(t) => t,
            None => Timestamp { secs: 0, nanos: 0 },
        };
        let txn = match self.transaction_id {
            Some(id) => id,
            None => 0,
        };
        seq![Self::flag(self.is_tombstone), Self::flag(self.expires_at is Some)] + le64(
            expiry.secs,
        ) + le32(expiry.nanos) + le64(self.created_at.secs) + le32(self.created_at.nanos)
            + seq![Self::flag(self.transaction_id is Some)] + le64(txn) + le64(
            self.data.len() as u64,
        )
    }

    /// The encoding of a record.
    pub open spec fn encoding(self) -> Seq<u8> {
        self.header() + self.data
    }

    /// The record that `bytes` encode, if they encode one.
    pub open spec fn decoding(bytes: Seq<u8>) -> Option<Record> {
        if bytes.len() < 43 {
            None
        } else {
            let tombstone = bytes[0];
            let has_expiry = bytes[1];
            let expiry = Timestamp { secs: u64_at(bytes, 2), nanos: u32_at(bytes, 10) };
            let created = Timestamp { secs: u64_at(bytes, 14), nanos: u32_at(bytes, 22) };
            let has_txn = bytes[26];
            let txn = u64_at(bytes, 27);
            let len = u64_at(bytes, 35);
            if tombstone > 1 || has_expiry > 1 || has_txn > 1 {
                None
            } else if has_expiry == 0 && (expiry.secs != 0 || expiry.nanos != 0) {
                None
            } else if has_txn == 0 && txn != 0 {
                None
            } else if len != bytes.len() - 43 {
                None
            } else {
                Some(
                    Record {
                        data: bytes.subrange(43, bytes.len() as int),
                        expires_at: if has_expiry == 1 {
                            Some(expiry)
                        } else {
                            None
                        },
                        created_at: created,
                        is_tombstone: tombstone == 1,
                        transaction_id: if has_txn == 1 {
                            Some(txn)
                        } else {
                            None
                        },
                    },
                )
            }
        }
    }
}

/// The header of an encoded record is 43 bytes long, and each field stands
/// at its offset.
pub proof fn lemma_header_layout(r: Record)
    ensures
        r.header().len() == 43,
        r.encoding().len() == 43 + r.data.len(),
        r.encoding()[0] == Record::flag(r.is_tombstone),
        r.encoding()[1] == Record::flag(r.expires_at is Some),
        r.encoding().subrange(2, 10) == le64(
            match r.expires_at {
                Some(t) => t.secs,
                None => 0,
            },
        ),
        r.encoding().subrange(10, 14) == le32(
            match r.expires_at {
                Some(t) => t.nanos,
                None => 0,
            },
        ),
        r.encoding().subrange(14, 22) == le64(r.created_at.secs),
        r.encoding().subrange(22, 26) == le32(r.created_at.nanos),
        r.encoding()[26] == Record::flag(r.transaction_id is Some),
        r.encoding().subrange(27, 35) == le64(
            match r.transaction_id {
                Some(id) => id,
                None => 0,
            },
        ),
        r.encoding().subrange(35, 43) == le64(r.data.len() as u64),
        r.encoding().subrange(43, 43 + r.data.len() as int) == r.data,
{
    lemma_le_round_trip();
    let e = r.encoding();
    assert(e.subrange(2, 10) =~= le64(
        match r.expires_at {
            Some(t) => t.secs,
            None => 0,
        },
    ));
    assert(e.subrange(10, 14) =~= le32(
        match r.expires_at {
            Some(t) => t.nanos,
            None => 0,
        },
    ));
    assert(e.subrange(14, 22) =~= le64(r.created_at.secs));
    assert(e.subrange(22, 26) =~= le32(r.created_at.nanos));
    assert(e.subrange(27, 35) =~= le64(
        match r.transaction_id {
            Some(id) => id,
            None => 0,
        },
    ));
    assert(e.subrange(35, 43) =~= le64(r.data.len() as u64));
    assert(e.subrange(43, 43 + r.data.len() as int) =~= r.data);
}

/// Decoding undoes encoding: every record whose payload length fits in 64
/// bits is read back from its encoding.
pub proof fn lemma_decode_encode(r: Record)
    requires
        r.data.len() <= u64::MAX,
    ensures
        Record::decoding(r.encoding()) == Some(r),
{
    lemma_le_round_trip();
    lemma_header_layout(r);
    let e = r.encoding();
    let d = Record::decoding(e);
    assert(d is Some);
    assert(d->0.data =~= r.data);
}

/// Encoding undoes decoding: bytes that decode to a record are the encoding
/// of that record, so a record has one encoding only.
pub proof fn lemma_encode_decode(bytes: Seq<u8>)
    requires
        Record::decoding(bytes) is Some,
    ensures
        Record::decoding(bytes)->0.encoding() == bytes,
{
    lemma_le_round_trip();
    let r = Record::decoding(bytes)->0;
    lemma_header_layout(r);
    let e = r.encoding();
    assert(e.len() == bytes.len());
    assert(bytes.subrange(2, 10).len() == 8);
    assert(bytes.subrange(10, 14).len() == 4);
    assert(bytes.subrange(14, 22).len() == 8);
    assert(bytes.subrange(22, 26).len() == 4);
    assert(bytes.subrange(27, 35).len() == 8);
    assert(bytes.subrange(35, 43).len() == 8);
    assert(e.subrange(2, 10) == bytes.subrange(2, 10));
    assert(e.subrange(10, 14) == bytes.subrange(10, 14));
    assert(e.subrange(14, 22) == bytes.subrange(14, 22));
    assert(e.subrange(22, 26) == bytes.subrange(22, 26));
    assert(e.subrange(27, 35) == bytes.subrange(27, 35));
    assert(e.subrange(35, 43) == bytes.subrange(35, 43));
    assert forall|i: int| 0 <= i < bytes.len() implies e[i] == bytes[i] by {
        if 2 <= i < 10 {
            assert(e[i] == e.subrange(2, 10)[i - 2]);
            assert(bytes[i] == bytes.subrange(2, 10)[i - 2]);
        } else if 10 <= i < 14 {
            assert(e[i] == e.subrange(10, 14)[i - 10]);
            assert(bytes[i] == bytes.subrange(10, 14)[i - 10]);
        } else if 14 <= i < 22 {
            assert(e[i] == e.subrange(14, 22)[i - 14]);
            assert(bytes[i] == bytes.subrange(14, 22)[i - 14]);
        } else if 22 <= i < 26 {
            assert(e[i] == e.subrange(22, 26)[i - 22]);
            assert(bytes[i] == bytes.subrange(22, 26)[i - 22]);
        } else if 27 <= i < 35 {
            assert(e[i] == e.subrange(27, 35)[i - 27]);
            assert(bytes[i] == bytes.subrange(27, 35)[i - 27]);
        } else if 35 <= i < 43 {
            assert(e[i] == e.subrange(35, 43)[i - 35]);
            assert(bytes[i] == bytes.subrange(35, 43)[i - 35]);
        } else if i >= 43 {
            assert(e[i] == e.subrange(43, 43 + r.data.len() as int)[i - 43]);
        }
    }
    assert(e =~= bytes);
}

impl DataValue {
    /// A record made at `now` that holds `data` and lives for `ttl`.
    pub fn new_at(data: Vec<u8>, ttl: Option<Span>, now: Timestamp) -> (v: Self)
        ensures
            v@ == Record::fresh(data@, ttl, now),
            v@.well_formed(),
    {
        let expires_at = match ttl {
            Some(span) => Some(now.plus(&span)),
            None => None,
        };
        DataValue { data, expires_at, created_at: now, is_tombstone: false, transaction_id: None }
    }

    /// A record made now that holds `data` and lives for `ttl`. The clock
    /// decides the time stamps; everything else is fixed.
    pub fn new(data: Vec<u8>, ttl: Option<core::time::Duration>) -> (v: Self)
        ensures
            v@.data == data@,
            !v@.is_tombstone,
            v@.transaction_id is None,
            v@.expires_at is Some <==> ttl is Some,
            v@.well_formed(),
            ttl is None ==> v@ == Record::fresh(data@, None, v@.created_at),
            ttl is Some ==> exists|span: Span| v@ == Record::fresh(data@, Some(span), v@.created_at),
    {
        let span = match ttl {
            Some(d) => Some(span_of(d)),
            None => None,
        };
        Self::new_at(data, span, now())
    }

    /// The checkpoint marker made at `now`.
    pub fn checkpoint_at(now: Timestamp) -> (v: Self)
        ensures
            v@ == Record::checkpoint_at(now),
            v@.well_formed(),
    {
        DataValue {
            data: Vec::new(),
            expires_at: None,
            created_at: now,
            is_tombstone: false,
            transaction_id: None,
        }
    }

    /// The checkpoint marker, stamped by the clock.
    pub fn checkpoint() -> (v: Self)
        ensures
            v@ == Record::checkpoint_at(v@.created_at),
    {
        Self::checkpoint_at(now())
    }

    /// The deletion marker made at `now`.
    pub fn tombstone_at(now: Timestamp) -> (v: Self)
        ensures
            v@ == Record::tombstone_at(now),
            v@.well_formed(),
    {
        DataValue {
            data: Vec::new(),
            expires_at: None,
            created_at: now,
            is_tombstone: true,
            transaction_id: None,
        }
    }

    /// The deletion marker, stamped by the clock.
    pub fn tombstone() -> (v: Self)
        ensures
            v@ == Record::tombstone_at(v@.created_at),
    {
        Self::tombstone_at(now())
    }

    /// Whether the payload is empty.
    pub fn is_empty(&self) -> (b: bool)
        ensures
            b == (self@.data.len() == 0),
    {
        self.data.len() == 0
    }

    /// Whether the record is expired at `now`.
    pub fn is_expired_at(&self, now: &Timestamp) -> (b: bool)
        ensures
            b == self@.expired_at(*now),
    {
        match &self.expires_at {
            Some(expiry) => now.is_after(expiry),
            None => false,
        }
    }

    /// Whether the record is expired by the clock's reading. A record without
    /// an expiry never is.
    pub fn is_expired(&self) -> (b: bool)
        ensures
            self@.expires_at is None ==> !b,
            exists|now: Timestamp| b == self@.expired_at(now),
    {
        let t = now();
        let b = self.is_expired_at(&t);
        assert(b == self@.expired_at(t));
        b
    }

    /// The payload.
    pub fn get_data(&self) -> (d: &[u8])
        ensures
            d@ == self@.data,
    {
        self.data.as_slice()
    }

    /// Whether the record is a deletion marker.
    pub fn is_tombstone(&self) -> (b: bool)
        ensures
            b == self@.is_tombstone,
    {
        self.is_tombstone
    }

    /// A copy of the record.
    pub fn duplicate(&self) -> (v: Self)
        ensures
            v@ == self@,
    {
        let data = copy_range(self.data.as_slice(), 0, self.data.len());
        assert(data@ =~= self.data@);
        DataValue {
            data,
            expires_at: self.expires_at,
            created_at: self.created_at,
            is_tombstone: self.is_tombstone,
            transaction_id: self.transaction_id,
        }
    }

    /// Encodes the record.
    pub fn encode(&self) -> (out: Vec<u8>)
        ensures
            out@ == self@.encoding(),
            Record::decoding(out@) == Some(self@),
    {
        let mut out: Vec<u8> = Vec::new();
        out.push(if self.is_tombstone { 1u8 } else { 0u8 });
        match self.expires_at {
            Some(t) => {
                out.push(1u8);
                push_u64(&mut out, t.secs);
                push_u32(&mut out, t.nanos);
            },
            None => {
                out.push(0u8);
                push_u64(&mut out, 0);
                push_u32(&mut out, 0);
            },
        }
        push_u64(&mut out, self.created_at.secs);
        push_u32(&mut out, self.created_at.nanos);
        match self.transaction_id {
            Some(id) => {
                out.push(1u8);
                push_u64(&mut out, id);
            },
            None => {
                out.push(0u8);
                push_u64(&mut out, 0);
            },
        }
        push_u64(&mut out, self.data.len() as u64);
        assert(out@ =~= self@.header());
        append_bytes(&mut out, self.data.as_slice());
        proof {
            lemma_decode_encode(self@);
        }
        out
    }

    /// Decodes a record. Bytes that are truncated or ill-formed are refused
    /// with a `Serialization` error.
    pub fn decode(bytes: &[u8]) -> (r: TreeResult<DataValue>)
        ensures
            match r {
                Ok(v) => Record::decoding(bytes@) == Some(v@) && v@.encoding() == bytes@,
                Err(e) => Record::decoding(bytes@) is None && e is Serialization,
            },
    {
        if bytes.len() < RECORD_HEADER_LEN {
            return Err(TreeError::serialization("value record is truncated"));
        }
        let tombstone = bytes[0];
        let has_expiry = bytes[1];
        let expiry = Timestamp { secs: read_u64(bytes, 2), nanos: read_u32(bytes, 10) };
        let created = Timestamp { secs: read_u64(bytes, 14), nanos: read_u32(bytes, 22) };
        let has_txn = bytes[26];
        let txn = read_u64(bytes, 27);
        let len = read_u64(bytes, 35);
        if tombstone > 1 || has_expiry > 1 || has_txn > 1 {
            return Err(TreeError::serialization("value record has a bad flag"));
        }
        if has_expiry == 0 && (expiry.secs != 0 || expiry.nanos != 0) {
            return Err(TreeError::serialization("value record has a stray expiry"));
        }
        if has_txn == 0 && txn != 0 {
            return Err(TreeError::serialization("value record has a stray transaction id"));
        }
        if len != (bytes.len() - RECORD_HEADER_LEN) as u64 {
            return Err(TreeError::serialization("value record has a bad payload length"));
        }
        let v = DataValue {
            data: copy_range(bytes, RECORD_HEADER_LEN, bytes.len()),
            expires_at: if has_expiry == 1 {
                Some(expiry)
            } else {
                None
            },
            created_at: created,
            is_tombstone: tombstone == 1,
            transaction_id: if has_txn == 1 {
                Some(txn)
            } else {
                None
            },
        };
        proof {
            lemma_encode_decode(bytes@);
        }
        Ok(v)
    }
}

} // verus!
