//! What the log segments of a directory hold while the engine works: which
//! files are segments, which of them are closed by a checkpoint, and what
//! the open one says of the memtable. Recovery reads the memtable back from
//! a log that is in step with it.
use crate::clock::Timestamp;
use crate::data_value::Record;
use crate::directory::{key_of, lemma_key_of_injective, Files};
use crate::names::{lemma_wal_name, wal_name, wal_number};
use crate::tree::{all_readable_records, ascending, recovered, replayed_entries};
use crate::wal::{
    ends_with_checkpoint, frames_of, lemma_frames_of_push, lemma_read_what_was_written, records_of,
    WalOperation, WalRecord,
};
use vstd::prelude::*;

verus! {

/// The key of the file of the log segment with the number `x`.
pub open spec fn segment_key(x: u16) -> Seq<u8> {
    key_of(wal_name(x as nat))
}

/// The listed segments are the files that are named as log segments, all
/// of them and no others.
pub open spec fn segments_listed(files: Files, segments: Seq<u16>) -> bool {
    forall|x: u16| files.contains_key(#[trigger] segment_key(x)) <==> segments.contains(x)
}

/// Every segment that has a later one ends with a checkpoint.
pub open spec fn segments_closed(files: Files) -> bool {
    forall|x: u16, y: u16|
        x < y && files.contains_key(#[trigger] segment_key(x)) && files.contains_key(
            #[trigger] segment_key(y),
        ) ==> ends_with_checkpoint(files[segment_key(x)])
}

/// The bytes are the frames of the records, one after the other, with
/// nothing behind them.
pub open spec fn holds_records(bytes: Seq<u8>, records: Seq<WalRecord>) -> bool {
    &&& bytes == frames_of(records)
    &&& forall|i: int| 0 <= i < records.len() ==> (#[trigger] records[i]).fits()
}

/// Replaying the records at `t` gives the memtable `mem`, and the last of
/// them is no checkpoint.
pub open spec fn replays_to(records: Seq<WalRecord>, mem: Map<Seq<u8>, Record>, t: Timestamp) -> bool {
    &&& all_readable_records(records)
    &&& records.len() > 0 ==> records.last().op != WalOperation::Checkpoint
    &&& replayed_entries(Map::empty(), records, t) == mem
}

/// The segments are in order, they are the segment files of the directory,
/// and each but the last ends with a checkpoint.
pub open spec fn log_kept(files: Files, segments: Seq<u16>) -> bool {
    &&& segments.len() > 0
    &&& ascending(segments)
    &&& segments_listed(files, segments)
    &&& segments_closed(files)
}

/// The log is sound: its segments are kept in order, and the last one
/// holds whole frames only.
pub open spec fn log_sound(files: Files, segments: Seq<u16>) -> bool {
    &&& log_kept(files, segments)
    &&& exists|records: Seq<WalRecord>| #[trigger]
        holds_records(files[segment_key(segments.last())], records)
}

/// The log is in step with the memtable `mem`: it is sound, and its last
/// segment holds the records that, replayed at `t`, give `mem`.
pub open spec fn log_in_step(
    files: Files,
    segments: Seq<u16>,
    mem: Map<Seq<u8>, Record>,
    t: Timestamp,
) -> bool {
    &&& log_kept(files, segments)
    &&& exists|records: Seq<WalRecord>| #[trigger]
        holds_records(files[segment_key(segments.last())], records) && replays_to(records, mem, t)
}

/// The segment files of the two directories are the same.
pub open spec fn same_segments(files: Files, other: Files) -> bool {
    forall|x: u16|
        (files.contains_key(#[trigger] segment_key(x)) <==> other.contains_key(segment_key(x)))
            && (files.contains_key(segment_key(x)) ==> files[segment_key(x)]
            == other[segment_key(x)])
}

/// Segments with different numbers have different files.
pub proof fn lemma_segment_keys_differ(x: u16, y: u16)
    requires
        x != y,
    ensures
        segment_key(x) != segment_key(y),
{
    lemma_wal_name(x as nat);
    lemma_wal_name(y as nat);
    if segment_key(x) == segment_key(y) {
        lemma_key_of_injective(wal_name(x as nat), wal_name(y as nat));
    }
}

/// A file whose name is not that of a log segment is no segment file.
pub proof fn lemma_not_a_segment(path: Seq<char>, x: u16)
    requires
        wal_number(path) is None,
    ensures
        key_of(path) != segment_key(x),
{
    lemma_wal_name(x as nat);
    if key_of(path) == segment_key(x) {
        lemma_key_of_injective(path, wal_name(x as nat));
    }
}

/// A log in step with a memtable is sound.
pub proof fn lemma_in_step_is_sound(
    files: Files,
    segments: Seq<u16>,
    mem: Map<Seq<u8>, Record>,
    t: Timestamp,
)
    requires
        log_in_step(files, segments, mem, t),
    ensures
        log_sound(files, segments),
{
    let records = choose|records: Seq<WalRecord>| #[trigger]
        holds_records(files[segment_key(segments.last())], records) && replays_to(records, mem, t);
    assert(holds_records(files[segment_key(segments.last())], records));
}

/// Where the segment files stay as they are, the log stays as it is.
pub proof fn lemma_same_segments_keep(
    files: Files,
    other: Files,
    segments: Seq<u16>,
    mem: Map<Seq<u8>, Record>,
    t: Timestamp,
)
    requires
        same_segments(files, other),
    ensures
        log_kept(files, segments) ==> log_kept(other, segments),
        log_sound(files, segments) ==> log_sound(other, segments),
        log_in_step(files, segments, mem, t) ==> log_in_step(other, segments, mem, t),
{
    if log_kept(files, segments) {
        assert forall|x: u16| other.contains_key(#[trigger] segment_key(x)) <==> segments.contains(
            x,
        ) by {
            assert(files.contains_key(segment_key(x)) <==> segments.contains(x));
        }
        assert forall|x: u16, y: u16|
            x < y && other.contains_key(#[trigger] segment_key(x)) && other.contains_key(
                #[trigger] segment_key(y),
            ) implies ends_with_checkpoint(other[segment_key(x)]) by {
            assert(files.contains_key(segment_key(x)) && files.contains_key(segment_key(y)));
        }
        let last = segments.last();
        assert(segments.contains(last)) by {
            assert(segments[segments.len() - 1] == last);
        }
        assert(files.contains_key(segment_key(last)));
        assert(files[segment_key(last)] == other[segment_key(last)]);
    }
    if log_sound(files, segments) {
        let records = choose|records: Seq<WalRecord>| #[trigger]
            holds_records(files[segment_key(segments.last())], records);
        assert(holds_records(other[segment_key(segments.last())], records));
    }
    if log_in_step(files, segments, mem, t) {
        let records = choose|records: Seq<WalRecord>| #[trigger]
            holds_records(files[segment_key(segments.last())], records) && replays_to(
                records,
                mem,
                t,
            );
        assert(holds_records(other[segment_key(segments.last())], records));
    }
}

/// Recovery finds nothing in segments that are all closed.
proof fn lemma_closed_give_nothing(files: Files, segments: Seq<u16>, n: int, t: Timestamp)
    requires
        log_kept(files, segments),
        0 <= n < segments.len(),
    ensures
        recovered(files, segments.take(n), t) == Some(Map::<Seq<u8>, Record>::empty()),
    decreases n,
{
    if n > 0 {
        lemma_closed_give_nothing(files, segments, n - 1, t);
        assert(segments.take(n).drop_last() =~= segments.take(n - 1));
        let x = segments.take(n).last();
        let last = segments.last();
        assert(x == segments[n - 1]);
        assert(segments.contains(x));
        assert(segments.contains(last)) by {
            assert(segments[segments.len() - 1] == last);
        }
        assert(x < last);
        assert(files.contains_key(segment_key(x)) && files.contains_key(segment_key(last)));
        assert(ends_with_checkpoint(files[segment_key(x)]));
    }
}

/// Recovery from a log that is in step with a memtable gives that
/// memtable.
pub proof fn lemma_recovered_in_step(
    files: Files,
    segments: Seq<u16>,
    mem: Map<Seq<u8>, Record>,
    t: Timestamp,
)
    requires
        log_in_step(files, segments, mem, t),
    ensures
        recovered(files, segments, t) == Some(mem),
{
    let last = segments.last();
    let bytes = files[segment_key(last)];
    let records = choose|records: Seq<WalRecord>| #[trigger]
        holds_records(bytes, records) && replays_to(records, mem, t);
    lemma_closed_give_nothing(files, segments, segments.len() - 1, t);
    assert(segments.take(segments.len() - 1) =~= segments.drop_last());
    assert(segments.contains(last)) by {
        assert(segments[segments.len() - 1] == last);
    }
    assert(files.contains_key(segment_key(last)));
    lemma_read_what_was_written(records);
}

/// Two lists in growing order that hold the same numbers are one list.
pub proof fn lemma_same_members(a: Seq<u16>, b: Seq<u16>)
    requires
        ascending(a),
        ascending(b),
        forall|x: u16| a.contains(x) <==> b.contains(x),
    ensures
        a == b,
    decreases a.len(),
{
    if a.len() == 0 {
        if b.len() > 0 {
            assert(b.contains(b[0]));
        }
        assert(a =~= b);
    } else {
        let top = a.last();
        assert(a.contains(top)) by {
            assert(a[a.len() - 1] == top);
        }
        assert(b.contains(top));
        let j = choose|j: int| 0 <= j < b.len() && b[j] == top;
        if j < b.len() - 1 {
            let more = b[b.len() - 1];
            assert(b.contains(more));
            let i = choose|i: int| 0 <= i < a.len() && a[i] == more;
            assert(top < more);
            if i < a.len() - 1 {
                assert(a[i] < a[a.len() - 1]);
            }
        }
        assert forall|x: u16| a.drop_last().contains(x) <==> b.drop_last().contains(x) by {
            if a.drop_last().contains(x) {
                let i = choose|i: int| 0 <= i < a.drop_last().len() && a.drop_last()[i] == x;
                assert(a[i] == x);
                assert(a[i] < a[a.len() - 1]);
                assert(a.contains(x));
                let k = choose|k: int| 0 <= k < b.len() && b[k] == x;
                assert(b.drop_last()[k] == x);
            }
            if b.drop_last().contains(x) {
                let k = choose|k: int| 0 <= k < b.drop_last().len() && b.drop_last()[k] == x;
                assert(b[k] == x);
                assert(b[k] < b[b.len() - 1]);
                assert(b.contains(x));
                let i = choose|i: int| 0 <= i < a.len() && a[i] == x;
                assert(a.drop_last()[i] == x);
            }
        }
        lemma_same_members(a.drop_last(), b.drop_last());
        assert(a =~= a.drop_last().push(top));
        assert(b =~= b.drop_last().push(top));
    }
}

/// The memtable after one more record of the log was replayed at `t`.
pub open spec fn applied(mem: Map<Seq<u8>, Record>, r: WalRecord, t: Timestamp) -> Map<
    Seq<u8>,
    Record,
> {
    replayed_entries(mem, seq![r], t)
}

/// What a record that holds the encoding of `record` does to a memtable:
/// it puts `record` under its key.
pub proof fn lemma_applied(mem: Map<Seq<u8>, Record>, r: WalRecord, record: Record, t: Timestamp)
    requires
        r.op != WalOperation::Checkpoint,
        r.value.len() > 0,
        Record::decoding(r.value) == Some(record),
    ensures
        r.readable(),
        applied(mem, r, t) == mem.insert(r.key, record),
{
    let one = seq![r];
    assert(one.drop_last() =~= Seq::<WalRecord>::empty());
    assert(replayed_entries(mem, one.drop_last(), t) == mem);
    assert(one.last() == r);
}

/// Replaying one more record is replaying the others, then this one.
pub proof fn lemma_replayed_push(records: Seq<WalRecord>, r: WalRecord, t: Timestamp)
    ensures
        replayed_entries(Map::empty(), records.push(r), t) == applied(
            replayed_entries(Map::empty(), records, t),
            r,
            t,
        ),
{
    let mem = replayed_entries(Map::<Seq<u8>, Record>::empty(), records, t);
    let one = seq![r];
    assert(one.drop_last() =~= Seq::<WalRecord>::empty());
    assert(replayed_entries(mem, one.drop_last(), t) == mem);
    assert(one.last() == r);
    assert(records.push(r).drop_last() =~= records);
    assert(records.push(r).last() == r);
}

/// The last segment is one of the segments, and so it has its file.
pub proof fn lemma_last_segment(files: Files, segments: Seq<u16>)
    requires
        log_kept(files, segments),
    ensures
        segments.contains(segments.last()),
        files.contains_key(segment_key(segments.last())),
        forall|x: u16| segments.contains(x) ==> x <= segments.last(),
{
    let last = segments.last();
    assert(segments[segments.len() - 1] == last);
    assert(files.contains_key(segment_key(last)) <==> segments.contains(last));
    assert forall|x: u16| segments.contains(x) implies x <= last by {
        let i = choose|i: int| 0 <= i < segments.len() && segments[i] == x;
        if i < segments.len() - 1 {
            assert(segments[i] < segments[segments.len() - 1]);
        }
    }
}

/// Other bytes in the last segment leave the segments in order.
pub proof fn lemma_last_rewritten(files: Files, other: Files, segments: Seq<u16>, bytes: Seq<u8>)
    requires
        log_kept(files, segments),
        other == files.insert(segment_key(segments.last()), bytes),
    ensures
        log_kept(other, segments),
{
    let last = segments.last();
    lemma_last_segment(files, segments);
    assert forall|x: u16| other.contains_key(#[trigger] segment_key(x)) <==> segments.contains(
        x,
    ) by {
        assert(files.contains_key(segment_key(x)) <==> segments.contains(x));
    }
    assert forall|x: u16, y: u16|
        x < y && other.contains_key(#[trigger] segment_key(x)) && other.contains_key(
            #[trigger] segment_key(y),
        ) implies ends_with_checkpoint(other[segment_key(x)]) by {
        assert(files.contains_key(segment_key(y)) <==> segments.contains(y));
        assert(files.contains_key(segment_key(x)) <==> segments.contains(x));
        lemma_segment_keys_differ(x, last);
    }
}

/// A frame appended to the last segment of a sound log leaves it sound.
pub proof fn lemma_sound_appended(files: Files, other: Files, segments: Seq<u16>, r: WalRecord)
    requires
        log_sound(files, segments),
        r.fits(),
        other == files.insert(
            segment_key(segments.last()),
            files[segment_key(segments.last())] + r.frame(),
        ),
    ensures
        log_sound(other, segments),
{
    let bytes = files[segment_key(segments.last())];
    let records = choose|records: Seq<WalRecord>| #[trigger] holds_records(bytes, records);
    lemma_last_rewritten(files, other, segments, bytes + r.frame());
    lemma_frames_of_push(records, r);
    assert(holds_records(other[segment_key(segments.last())], records.push(r)));
}

/// A record appended to the log and applied to the memtable leaves the
/// two in step.
pub proof fn lemma_logged(
    files: Files,
    other: Files,
    segments: Seq<u16>,
    mem: Map<Seq<u8>, Record>,
    r: WalRecord,
    t: Timestamp,
)
    requires
        log_in_step(files, segments, mem, t),
        r.fits(),
        r.readable(),
        r.op != WalOperation::Checkpoint,
        other == files.insert(
            segment_key(segments.last()),
            files[segment_key(segments.last())] + r.frame(),
        ),
    ensures
        log_in_step(other, segments, applied(mem, r, t), t),
{
    let bytes = files[segment_key(segments.last())];
    let records = choose|records: Seq<WalRecord>| #[trigger]
        holds_records(bytes, records) && replays_to(records, mem, t);
    lemma_last_rewritten(files, other, segments, bytes + r.frame());
    lemma_frames_of_push(records, r);
    lemma_replayed_push(records, r, t);
    let more = records.push(r);
    assert(holds_records(other[segment_key(segments.last())], more));
    assert(more.last() == r);
    assert forall|i: int| 0 <= i < more.len() implies (#[trigger] more[i]).readable() by {
        if i < records.len() {
            assert(more[i] == records[i]);
        }
    }
    assert(replays_to(more, applied(mem, r, t), t));
}

/// A new, empty segment after a last segment that ends with a checkpoint
/// is in step with an empty memtable.
pub proof fn lemma_new_segment(
    files: Files,
    other: Files,
    segments: Seq<u16>,
    next: u16,
    t: Timestamp,
)
    requires
        log_kept(files, segments),
        ends_with_checkpoint(files[segment_key(segments.last())]),
        segments.last() < next,
        other == files.insert(segment_key(next), Seq::empty()),
    ensures
        log_in_step(other, segments.push(next), Map::empty(), t),
{
    let last = segments.last();
    let later = segments.push(next);
    lemma_last_segment(files, segments);
    lemma_segment_keys_differ(last, next);
    assert forall|a: int, b: int| 0 <= a < b < later.len() implies later[a] < later[b] by {
        if b < segments.len() {
            assert(segments[a] < segments[b]);
        } else {
            assert(segments.contains(segments[a]));
        }
    }
    assert forall|x: u16| other.contains_key(#[trigger] segment_key(x)) <==> later.contains(
        x,
    ) by {
        assert(files.contains_key(segment_key(x)) <==> segments.contains(x));
        if x != next {
            lemma_segment_keys_differ(x, next);
        }
        if segments.contains(x) {
            let i = choose|i: int| 0 <= i < segments.len() && segments[i] == x;
            assert(later[i] == x);
        }
        if later.contains(x) && x != next {
            let i = choose|i: int| 0 <= i < later.len() && later[i] == x;
            assert(segments[i] == x);
        }
        assert(later[later.len() - 1] == next);
    }
    assert forall|x: u16, y: u16|
        x < y && other.contains_key(#[trigger] segment_key(x)) && other.contains_key(
            #[trigger] segment_key(y),
        ) implies ends_with_checkpoint(other[segment_key(x)]) by {
        assert(later.contains(x));
        assert(later.contains(y));
        if x != next {
            lemma_segment_keys_differ(x, next);
        }
        if y != next {
            lemma_segment_keys_differ(y, next);
        }
        if x != last {
            assert(files.contains_key(segment_key(x)));
            assert(files.contains_key(segment_key(last)));
            assert(segments.contains(x));
            assert(x < last);
        }
    }
    let none = Seq::<WalRecord>::empty();
    assert(later.last() == next);
    assert(holds_records(other[segment_key(next)], none));
    assert(replays_to(none, Map::empty(), t));
}

/// After a checkpoint at the end of the last segment and the start of a
/// new, empty segment the log is in step with an empty memtable.
pub proof fn lemma_rotated(
    files: Files,
    other: Files,
    segments: Seq<u16>,
    next: u16,
    t: Timestamp,
)
    requires
        log_sound(files, segments),
        segments.last() < next,
        other == files.insert(
            segment_key(segments.last()),
            files[segment_key(segments.last())] + WalRecord::checkpoint().frame(),
        ).insert(segment_key(next), Seq::empty()),
    ensures
        log_in_step(other, segments.push(next), Map::empty(), t),
{
    let last = segments.last();
    let mark = WalRecord::checkpoint();
    let bytes = files[segment_key(last)];
    let records = choose|records: Seq<WalRecord>| #[trigger] holds_records(bytes, records);
    let marked = files.insert(segment_key(last), bytes + mark.frame());
    lemma_last_rewritten(files, marked, segments, bytes + mark.frame());
    lemma_frames_of_push(records, mark);
    let closed = records.push(mark);
    assert(mark.fits());
    assert forall|i: int| 0 <= i < closed.len() implies (#[trigger] closed[i]).fits() by {
        if i < records.len() {
            assert(closed[i] == records[i]);
        }
    }
    lemma_read_what_was_written(closed);
    assert(closed.last() == mark);
    lemma_new_segment(marked, other, segments, next, t);
}

/// The first segment of a directory without segments, still empty, is in
/// step with an empty memtable.
pub proof fn lemma_first_segment(files: Files, other: Files, next: u16, t: Timestamp)
    requires
        forall|x: u16| !files.contains_key(#[trigger] segment_key(x)),
        other == files.insert(segment_key(next), Seq::empty()),
    ensures
        log_in_step(other, seq![next], Map::empty(), t),
{
    let segments = seq![next];
    assert(segments[0] == next);
    assert(segments.last() == next);
    assert(segments.contains(next));
    assert forall|x: u16| other.contains_key(#[trigger] segment_key(x)) <==> segments.contains(
        x,
    ) by {
        if x != next {
            lemma_segment_keys_differ(x, next);
            if segments.contains(x) {
                let i = choose|i: int| 0 <= i < segments.len() && segments[i] == x;
                assert(segments[i] == next);
            }
        }
    }
    assert forall|x: u16, y: u16|
        x < y && other.contains_key(#[trigger] segment_key(x)) && other.contains_key(
            #[trigger] segment_key(y),
        ) implies ends_with_checkpoint(other[segment_key(x)]) by {
        if x != next {
            lemma_segment_keys_differ(x, next);
        }
        if y != next {
            lemma_segment_keys_differ(y, next);
        }
    }
    let none = Seq::<WalRecord>::empty();
    assert(holds_records(other[segment_key(next)], none));
    assert(replays_to(none, Map::empty(), t));
}

/// The last segment cut down to its whole frames: where recovery gives a
/// memtable, and the segment ends with a checkpoint, the memtable is empty;
/// where it does not end with one, the log is in step with the memtable.
pub proof fn lemma_last_trimmed(
    files: Files,
    other: Files,
    segments: Seq<u16>,
    mem: Map<Seq<u8>, Record>,
    t: Timestamp,
)
    requires
        log_kept(files, segments),
        recovered(files, segments, t) == Some(mem),
        records_of(files[segment_key(segments.last())]) is Ok,
        other == files.insert(
            segment_key(segments.last()),
            frames_of(records_of(files[segment_key(segments.last())])->Ok_0),
        ),
    ensures
        log_kept(other, segments),
        ends_with_checkpoint(files[segment_key(segments.last())]) <==> ends_with_checkpoint(
            other[segment_key(segments.last())],
        ),
        ends_with_checkpoint(files[segment_key(segments.last())]) ==> mem == Map::<
            Seq<u8>,
            Record,
        >::empty(),
        !ends_with_checkpoint(files[segment_key(segments.last())]) ==> log_in_step(
            other,
            segments,
            mem,
            t,
        ),
{
    let last = segments.last();
    let bytes = files[segment_key(last)];
    let records = records_of(bytes)->Ok_0;
    lemma_last_segment(files, segments);
    lemma_last_rewritten(files, other, segments, frames_of(records));
    crate::wal::lemma_scanned_frames(bytes, 0);
    lemma_read_what_was_written(records);
    lemma_closed_give_nothing(files, segments, segments.len() - 1, t);
    assert(segments.take(segments.len() - 1) =~= segments.drop_last());
    assert(holds_records(other[segment_key(last)], records));
}

/// Without its oldest segment, which is not the last one, a log stays as
/// sound as it was, and in step with what it was in step with.
pub proof fn lemma_segment_dropped(
    files: Files,
    other: Files,
    segments: Seq<u16>,
    mem: Map<Seq<u8>, Record>,
    t: Timestamp,
)
    requires
        segments.len() > 1,
        other == files.remove(segment_key(segments[0])),
    ensures
        log_kept(files, segments) ==> log_kept(other, segments.skip(1)),
        log_sound(files, segments) ==> log_sound(other, segments.skip(1)),
        log_in_step(files, segments, mem, t) ==> log_in_step(other, segments.skip(1), mem, t),
{
    let rest = segments.skip(1);
    let first = segments[0];
    let last = segments.last();
    assert(rest.last() == last);
    if log_kept(files, segments) {
        assert(first < last);
        lemma_segment_keys_differ(first, last);
        assert forall|a: int, b: int| 0 <= a < b < rest.len() implies rest[a] < rest[b] by {
            assert(segments[a + 1] < segments[b + 1]);
        }
        assert forall|x: u16| other.contains_key(#[trigger] segment_key(x)) <==> rest.contains(
            x,
        ) by {
            assert(files.contains_key(segment_key(x)) <==> segments.contains(x));
            if x != first {
                lemma_segment_keys_differ(x, first);
            }
            if segments.contains(x) && x != first {
                let i = choose|i: int| 0 <= i < segments.len() && segments[i] == x;
                assert(rest[i - 1] == x);
            }
            if rest.contains(x) {
                let i = choose|i: int| 0 <= i < rest.len() && rest[i] == x;
                assert(segments[i + 1] == x);
                assert(segments[0] < segments[i + 1]);
            }
        }
        assert forall|x: u16, y: u16|
            x < y && other.contains_key(#[trigger] segment_key(x)) && other.contains_key(
                #[trigger] segment_key(y),
            ) implies ends_with_checkpoint(other[segment_key(x)]) by {
            if x != first {
                lemma_segment_keys_differ(x, first);
            }
            if y != first {
                lemma_segment_keys_differ(y, first);
            }
        }
        assert(other[segment_key(last)] == files[segment_key(last)]);
    }
    if log_sound(files, segments) {
        let records = choose|records: Seq<WalRecord>| #[trigger]
            holds_records(files[segment_key(last)], records);
        assert(holds_records(other[segment_key(rest.last())], records));
    }
    if log_in_step(files, segments, mem, t) {
        let records = choose|records: Seq<WalRecord>| #[trigger]
            holds_records(files[segment_key(last)], records) && replays_to(records, mem, t);
        assert(holds_records(other[segment_key(rest.last())], records));
    }
}

/// A segment that takes the number of its place, where the segments
/// before it have the numbers of theirs, leaves the log sound.
pub proof fn lemma_segment_renamed(files: Files, other: Files, segments: Seq<u16>, i: int)
    requires
        log_sound(files, segments),
        0 <= i < segments.len(),
        i <= u16::MAX,
        forall|k: int| 0 <= k < i ==> #[trigger] segments[k] == k,
        segments[i] != i,
        other == files.remove(segment_key(segments[i])).insert(
            segment_key(i as u16),
            files[segment_key(segments[i])],
        ),
    ensures
        log_sound(other, segments.update(i, i as u16)),
        !files.contains_key(segment_key(i as u16)),
        forall|k: int|
            0 <= k < segments.len() ==> other[segment_key(
                #[trigger] segments.update(i, i as u16)[k],
            )] == files[segment_key(segments[k])],
{
    let number = segments[i];
    let target = i as u16;
    let later = segments.update(i, target);
    let last = segments.last();
    lemma_last_segment(files, segments);
    if i > 0 {
        assert(segments[i - 1] < segments[i]);
    }
    assert(target < number);
    lemma_segment_keys_differ(target, number);
    assert(!segments.contains(target)) by {
        if segments.contains(target) {
            let k = choose|k: int| 0 <= k < segments.len() && segments[k] == target;
            if k > i {
                assert(segments[i] < segments[k]);
            }
        }
    }
    assert(files.contains_key(segment_key(target)) <==> segments.contains(target));
    assert(segments.contains(number));
    assert(files.contains_key(segment_key(number)) <==> segments.contains(number));
    assert forall|a: int, b: int| 0 <= a < b < later.len() implies later[a] < later[b] by {
        if b == i {
            assert(segments[a] == a);
        } else if a == i {
            assert(segments[a] < segments[b]);
        } else {
            assert(segments[a] < segments[b]);
        }
    }
    assert forall|x: u16| other.contains_key(#[trigger] segment_key(x)) <==> later.contains(
        x,
    ) by {
        assert(files.contains_key(segment_key(x)) <==> segments.contains(x));
        if x == target {
            assert(later[i] == x);
        } else if x == number {
            if later.contains(x) {
                let k = choose|k: int| 0 <= k < later.len() && later[k] == x;
                if k < i {
                    assert(segments[k] < segments[i]);
                } else {
                    assert(segments[i] < segments[k]);
                }
            }
        } else {
            lemma_segment_keys_differ(x, target);
            lemma_segment_keys_differ(x, number);
            if segments.contains(x) {
                let k = choose|k: int| 0 <= k < segments.len() && segments[k] == x;
                assert(later[k] == x);
            }
            if later.contains(x) {
                let k = choose|k: int| 0 <= k < later.len() && later[k] == x;
                assert(segments[k] == x);
            }
        }
    }
    assert forall|x: u16, y: u16|
        x < y && other.contains_key(#[trigger] segment_key(x)) && other.contains_key(
            #[trigger] segment_key(y),
        ) implies ends_with_checkpoint(other[segment_key(x)]) by {
        assert(later.contains(x));
        assert(later.contains(y));
        let a = choose|a: int| 0 <= a < later.len() && later[a] == x;
        let b = choose|b: int| 0 <= b < later.len() && later[b] == y;
        if b <= a {
            if b < a {
                assert(later[b] < later[a]);
            }
        }
        assert(a < b);
        assert(segments[a] < segments[b]);
        let from = segments[a];
        let to = segments[b];
        assert(segments.contains(from));
        assert(segments.contains(to));
        assert(files.contains_key(segment_key(from)) <==> segments.contains(from));
        assert(files.contains_key(segment_key(to)) <==> segments.contains(to));
        assert(ends_with_checkpoint(files[segment_key(from)]));
        if a != i {
            assert(x == from);
            lemma_segment_keys_differ(x, target);
            lemma_segment_keys_differ(x, number);
        }
    }
    let records = choose|records: Seq<WalRecord>| #[trigger]
        holds_records(files[segment_key(last)], records);
    if i == segments.len() - 1 {
        assert(later.last() == target);
    } else {
        assert(later.last() == last);
        assert(segments[i] < segments[segments.len() - 1]);
        lemma_segment_keys_differ(last, target);
        lemma_segment_keys_differ(last, number);
    }
    assert(holds_records(other[segment_key(later.last())], records));
    assert forall|k: int| 0 <= k < segments.len() implies other[segment_key(#[trigger] later[k])]
        == files[segment_key(segments[k])] by {
        if k != i {
            assert(segments.contains(segments[k]));
            if k < i {
                assert(segments[k] < segments[i]);
            } else {
                assert(segments[i] < segments[k]);
            }
            lemma_segment_keys_differ(segments[k], target);
            lemma_segment_keys_differ(segments[k], number);
        }
    }
}

/// Segment files that stay the same over two steps stay the same over
/// both.
pub proof fn lemma_same_segments_chain(a: Files, b: Files, c: Files)
    requires
        same_segments(a, b),
        same_segments(b, c),
    ensures
        same_segments(a, c),
{
    assert forall|x: u16|
        (a.contains_key(#[trigger] segment_key(x)) <==> c.contains_key(segment_key(x))) && (
        a.contains_key(segment_key(x)) ==> a[segment_key(x)] == c[segment_key(x)]) by {
        assert(a.contains_key(segment_key(x)) <==> b.contains_key(segment_key(x)));
        assert(b.contains_key(segment_key(x)) <==> c.contains_key(segment_key(x)));
    }
}

/// A write that was cut short at the end of the last segment is not seen
/// by recovery: it gives the memtable that the log is in step with.
pub proof fn lemma_torn_tail(
    files: Files,
    other: Files,
    segments: Seq<u16>,
    mem: Map<Seq<u8>, Record>,
    r: WalRecord,
    cut: int,
    t: Timestamp,
)
    requires
        log_in_step(files, segments, mem, t),
        r.fits(),
        0 <= cut < r.frame().len(),
        other == files.insert(
            segment_key(segments.last()),
            files[segment_key(segments.last())] + r.frame().subrange(0, cut),
        ),
    ensures
        log_kept(other, segments),
        recovered(other, segments, t) == Some(mem),
{
    let last = segments.last();
    let bytes = files[segment_key(last)];
    let tail = r.frame().subrange(0, cut);
    let records = choose|records: Seq<WalRecord>| #[trigger]
        holds_records(bytes, records) && replays_to(records, mem, t);
    lemma_last_segment(files, segments);
    lemma_last_rewritten(files, other, segments, bytes + tail);
    lemma_closed_give_nothing(other, segments, segments.len() - 1, t);
    assert(segments.take(segments.len() - 1) =~= segments.drop_last());
    crate::wal::lemma_scan_frames_of(Seq::empty(), records, r, cut);
    assert(Seq::<u8>::empty() + frames_of(records) + tail =~= bytes + tail);
}

} // verus!
