//! What a reader finds after a write: a record that was put, until it
//! expires; nothing after a delete; and under the other keys what was
//! there before.
use crate::clock::{Span, Timestamp};
use crate::data_value::Record;
use crate::error::TreeResult;
use crate::tree::{others_kept, stored, Tree};
use vstd::prelude::*;

verus! {

/// A point in time moved forward by a span lies that span later, or at the
/// latest point where that is earlier; it never lies before.
pub proof fn lemma_plus_total(at: Timestamp, span: Span)
    ensures
        at.plus_spec(span).total() == if at.total() + span.total() > Timestamp::latest().total() {
            Timestamp::latest().total()
        } else {
            at.total() + span.total()
        },
        at.plus_spec(span).total() >= at.total(),
        at.total() <= Timestamp::latest().total(),
{
    let sum = at.total() + span.total();
    assert(at.total() <= Timestamp::latest().total()) by (nonlinear_arith)
        requires
            at.total() == at.secs as int * 1_000_000_000 + at.nanos as int,
            Timestamp::latest().total() == u64::MAX as int * 1_000_000_000 + u32::MAX as int,
            at.secs <= u64::MAX,
            at.nanos <= u32::MAX,
    ;
    assert(span.total() >= 0) by (nonlinear_arith)
        requires
            span.total() == span.secs as int * 1_000_000_000 + span.nanos as int,
    ;
    if sum <= Timestamp::latest().total() && sum / 1_000_000_000 <= u64::MAX {
        assert(sum == (sum / 1_000_000_000) * 1_000_000_000 + sum % 1_000_000_000);
    }
}

/// A record that was put is found until it expires. Where a value was put
/// under `key` at `now`, with a payload that is not empty, a reader gets
/// the value at every later time within the time to live, and nothing
/// after it; without a time to live it gets the value at every time.
pub proof fn lemma_put_then_get(
    before: Tree,
    after: Tree,
    key: Seq<u8>,
    payload: Seq<u8>,
    value: Seq<u8>,
    ttl: Option<Span>,
    now: Timestamp,
    later: Timestamp,
)
    requires
        stored(before, after, key, Record::fresh(payload, ttl, now), now),
        after.codec().decoded(payload) == Some(value),
        payload.len() > 0,
    ensures
        after.visible(key, later) == if ttl matches Some(span) && later.total() > now.total()
            + span.total() {
            Some(None::<Seq<u8>>)
        } else {
            Some(Some(value))
        },
{
    if let Some(span) = ttl {
        lemma_plus_total(now, span);
        lemma_plus_total(later, Span { secs: 0, nanos: 0 });
    }
}

/// What was put is got. Where a put of a value that is not empty under
/// `key` at `now` has succeeded, whatever the codec, a reader gets the
/// value at every later time within the time to live, and nothing after
/// it; without a time to live it gets the value at every time.
pub proof fn lemma_get_after_put(
    before: Tree,
    after: Tree,
    key: Seq<u8>,
    value: Seq<u8>,
    ttl: Option<Span>,
    now: Timestamp,
    later: Timestamp,
    r: TreeResult<()>,
)
    requires
        crate::tree::put_outcome(before, after, key, value, ttl, now, r),
        r is Ok,
        value.len() > 0,
        after.configuration() == before.configuration(),
    ensures
        after.visible(key, later) == if ttl matches Some(span) && later.total() > now.total()
            + span.total() {
            Some(None::<Seq<u8>>)
        } else {
            Some(Some(value))
        },
{
    let payload = before.codec().encoded(value)->0;
    lemma_put_then_get(before, after, key, payload, value, ttl, now, later);
}

/// A put leaves what was put before. Where a put under `key` at `now` has
/// come to an end, with or without a flush and a merge, a reader gets
/// under another key at every time from `now` on what it would have got
/// before; a record with an empty payload is excepted, which a merge takes
/// away.
pub proof fn lemma_kept_after_put(
    before: Tree,
    after: Tree,
    key: Seq<u8>,
    value: Seq<u8>,
    ttl: Option<Span>,
    now: Timestamp,
    other: Seq<u8>,
    later: Timestamp,
    r: TreeResult<()>,
)
    requires
        crate::tree::put_outcome(before, after, key, value, ttl, now, r),
        after.configuration() == before.configuration(),
        other != key,
        later.total() >= now.total(),
        before.record_of(other) matches Some(Some(record)) ==> record.is_tombstone
            || record.data.len() > 0,
    ensures
        after.visible(other, later) == before.visible(other, later),
{
    if exists|e: crate::error::TreeError| r == Err::<(), crate::error::TreeError>(e) && (e
        is InvalidKey || e is Compression || e is InvalidValue) {
    } else {
        lemma_others_found(before, after, key, other, now, later);
    }
}

/// Closing and opening again finds what was there. Where an engine is
/// flushed at `now`, as a close does, and the files are then in step with
/// it, an engine that is opened on these files with the same settings
/// finds under every key what the first engine found before the flush,
/// except for records that a merge at `now` has taken away.
pub proof fn lemma_closed_and_reopened(
    before: Tree,
    closed: Tree,
    again: Tree,
    now: Timestamp,
    t: Timestamp,
)
    requires
        crate::tree::view_kept(before, closed, now),
        closed.wf(),
        closed.in_step(t),
        crate::tree::opened(again, closed.configuration(), closed.files(), t),
    ensures
        forall|key: Seq<u8>|
            crate::tree::same_view(before.record_of(key), #[trigger] again.record_of(key), now),
{
    closed.lemma_reopened(again, t);
    assert forall|key: Seq<u8>|
        crate::tree::same_view(before.record_of(key), #[trigger] again.record_of(key), now) by {
        assert(again.record_of(key) == closed.record_of(key));
        assert(crate::tree::same_view(before.record_of(key), closed.record_of(key), now));
    }
}

/// A key that was deleted is not found, at whatever time a reader asks.
pub proof fn lemma_deleted_stays_absent(after: Tree, key: Seq<u8>, now: Timestamp, later: Timestamp)
    requires
        after.record_of(key) == Some(Some(Record::tombstone_at(now))),
    ensures
        after.visible(key, later) == Some(None::<Seq<u8>>),
{
}

/// A write under one key leaves the other keys as they were. Where the
/// write was made at `now`, a reader gets under another key at every time
/// from `now` on what it would have got before; a record with an empty
/// payload is excepted, which a merge takes away.
pub proof fn lemma_others_found(
    before: Tree,
    after: Tree,
    key: Seq<u8>,
    other: Seq<u8>,
    now: Timestamp,
    later: Timestamp,
)
    requires
        others_kept(before, after, key, now),
        after.configuration() == before.configuration(),
        other != key,
        later.total() >= now.total(),
        before.record_of(other) matches Some(Some(record)) ==> record.is_tombstone
            || record.data.len() > 0,
    ensures
        after.visible(other, later) == before.visible(other, later),
{
    assert(crate::tree::same_view(before.record_of(other), after.record_of(other), now));
}

} // verus!
