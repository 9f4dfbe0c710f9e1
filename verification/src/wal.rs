//! The write-ahead log: how one operation is framed, and how the bytes of a
//! segment are read back.
//!
//! A frame is
//!
//! ```text
//! [crc32: u32 LE][op: 1][key length: u32 LE][key][value length: u32 LE][value]
//! ```
//!
//! where the checksum covers everything after it, the operation is 1 for a
//! checkpoint, 2 for a put and 3 for a delete, and the value is an encoded
//! value record or empty.

use crate::bytes::{append_bytes, copy_range, le32, lemma_le_round_trip, lemma_subrange_within, push_u32, read_u32, u32_at};
use crate::data_value::{DataValue, Record};
use crate::error::{TreeError, TreeResult};
use vstd::prelude::*;
use vstd::slice::slice_subrange;

verus! {

/// The length of a frame without its key and value.
pub const FRAME_OVERHEAD: usize = 13;

/// The length of a checkpoint frame: the overhead and the six bytes of its key.
pub const CHECKPOINT_ENTRY_SIZE: usize = 19;

/// What a frame of the log records.
#[derive(Clone, Copy, Debug, PartialEq, Eq, Structural)]
pub enum WalOperation {
    Checkpoint,
    Put,
    Delete,
}

impl WalOperation {
    /// The byte that stands for the operation.
    pub open spec fn code(self) -> u8 {
        match self {
            WalOperation::Checkpoint => 1,
            WalOperation::Put => 2,
            WalOperation::Delete => 3,
        }
    }

    /// The operation that a byte stands for, if it stands for one.
    pub open spec fn of_code(code: u8) -> Option<WalOperation> {
        if code == 1 {
            Some(WalOperation::Checkpoint)
        } else if code == 2 {
            Some(WalOperation::Put)
        } else if code == 3 {
            Some(WalOperation::Delete)
        } else {
            None
        }
    }

    pub fn to_u8(&self) -> (code: u8)
        ensures
            code == self.code(),
            Self::of_code(code) == Some(*self),
    {
        match self {
            WalOperation::Checkpoint => 1,
            WalOperation::Put => 2,
            WalOperation::Delete => 3,
        }
    }

    pub fn from_u8(code: u8) -> (op: Option<WalOperation>)
        ensures
            op == Self::of_code(code),
    {
        if code == 1 {
            Some(WalOperation::Checkpoint)
        } else if code == 2 {
            Some(WalOperation::Put)
        } else if code == 3 {
            Some(WalOperation::Delete)
        } else {
            None
        }
    }
}

/// The CRC-32 (IEEE) of a byte string, as `crc32fast::hash` computes it.
pub uninterp spec fn crc32(bytes: Seq<u8>) -> u32;

/// Calls `crc32fast::hash`, which computes the CRC-32 checksum of the bytes.
#[verifier::external_body]
pub(crate) fn checksum(bytes: &[u8]) -> (sum: u32)
    ensures
        sum == crc32(bytes@),
{
    crc32fast::hash(bytes)
}

/// One operation of the log as a mathematical value.
pub struct WalRecord {
    pub op: WalOperation,
    pub key: Seq<u8>,
    pub value: Seq<u8>,
}

impl WalRecord {
    /// The part of the frame that the checksum covers.
    pub open spec fn body(self) -> Seq<u8> {
        seq![self.op.code()] + le32(self.key.len() as u32) + self.key + le32(
            self.value.len() as u32,
        ) + self.value
    }

    /// The frame of the record.
    pub open spec fn frame(self) -> Seq<u8> {
        le32(crc32(self.body())) + self.body()
    }

    /// Key and value are short enough for their length fields.
    pub open spec fn fits(self) -> bool {
        self.key.len() <= u32::MAX && self.value.len() <= u32::MAX
    }

    /// The checkpoint marker: the key `CHCKPT` and no value.
    pub open spec fn checkpoint() -> WalRecord {
        WalRecord {
            op: WalOperation::Checkpoint,
            key: seq![0x43u8, 0x48u8, 0x43u8, 0x4bu8, 0x50u8, 0x54u8],
            value: Seq::empty(),
        }
    }
}

/// What stands at a position of a segment.
pub enum FrameScan {
    /// The segment ends here.
    End,
    /// Fewer bytes are left than the frame that starts here needs.
    Partial,
    /// A whole frame that reaches the end of the segment, with a wrong checksum.
    TornTail,
    /// A whole frame before the end of the segment, with a wrong checksum.
    Corrupt,
    /// A whole frame with a right checksum and an unknown operation.
    BadOperation,
    /// A sound frame.
    Good(WalRecord),
}

/// Why a segment cannot be read.
pub enum ScanError {
    Corrupt,
    BadOperation,
}

/// Reads the frame that starts at `pos`.
pub open spec fn frame_at(bytes: Seq<u8>, pos: int) -> FrameScan {
    let rest = bytes.len() - pos;
    if rest <= 0 {
        FrameScan::End
    } else if rest < 9 {
        FrameScan::Partial
    } else {
        let key_len = u32_at(bytes, pos + 5) as int;
        if rest < 13 + key_len {
            FrameScan::Partial
        } else {
            let value_len = u32_at(bytes, pos + 9 + key_len) as int;
            if rest < 13 + key_len + value_len {
                FrameScan::Partial
            } else {
                let end = pos + 13 + key_len + value_len;
                if crc32(bytes.subrange(pos + 4, end)) != u32_at(bytes, pos) {
                    if end == bytes.len() {
                        FrameScan::TornTail
                    } else {
                        FrameScan::Corrupt
                    }
                } else {
                    match WalOperation::of_code(bytes[pos + 4]) {
                        None => FrameScan::BadOperation,
                        Some(op) => FrameScan::Good(
                            WalRecord {
                                op,
                                key: bytes.subrange(pos + 9, pos + 9 + key_len),
                                value: bytes.subrange(pos + 13 + key_len, end),
                            },
                        ),
                    }
                }
            }
        }
    }
}

/// The records of a segment from `pos` on. A partial frame at the end, or a
/// last frame with a wrong checksum, is a write that was cut short: the
/// records before it stand. A wrong checksum before the last frame is fatal.
pub open spec fn scan(bytes: Seq<u8>, pos: int) -> Result<Seq<WalRecord>, ScanError>
    decreases bytes.len() - pos,
{
    match frame_at(bytes, pos) {
        FrameScan::End => Ok(Seq::empty()),
        FrameScan::Partial => Ok(Seq::empty()),
        FrameScan::TornTail => Ok(Seq::empty()),
        FrameScan::Corrupt => Err(ScanError::Corrupt),
        FrameScan::BadOperation => Err(ScanError::BadOperation),
        FrameScan::Good(record) => {
            let next = pos + 13 + record.key.len() + record.value.len();
            if next <= bytes.len() {
                match scan(bytes, next) {
                    Ok(rest) => Ok(seq![record] + rest),
                    Err(e) => Err(e),
                }
            } else {
                Ok(seq![record])
            }
        },
    }
}

/// The records of a whole segment.
pub open spec fn records_of(bytes: Seq<u8>) -> Result<Seq<WalRecord>, ScanError> {
    scan(bytes, 0)
}

/// `done` followed by what a scan of the rest gives.
pub open spec fn continued(done: Seq<WalRecord>, rest: Result<Seq<WalRecord>, ScanError>) -> Result<
    Seq<WalRecord>,
    ScanError,
> {
    match rest {
        Ok(more) => Ok(done + more),
        Err(e) => Err(e),
    }
}

/// The frames of a sequence of records, one after the other: what a segment
/// holds after these records were appended to it.
pub open spec fn frames_of(records: Seq<WalRecord>) -> Seq<u8>
    decreases records.len(),
{
    if records.len() == 0 {
        Seq::empty()
    } else {
        records[0].frame() + frames_of(records.skip(1))
    }
}

/// Where each field of a frame stands.
pub proof fn lemma_frame_layout(r: WalRecord)
    requires
        r.fits(),
    ensures
        r.frame().len() == 13 + r.key.len() + r.value.len(),
        u32_at(r.frame(), 0) == crc32(r.body()),
        r.frame()[4] == r.op.code(),
        u32_at(r.frame(), 5) == r.key.len(),
        r.frame().subrange(9, 9 + r.key.len() as int) == r.key,
        u32_at(r.frame(), 9 + r.key.len() as int) == r.value.len(),
        r.frame().subrange(13 + r.key.len() as int, 13 + r.key.len() as int + r.value.len() as int)
            == r.value,
        r.frame().subrange(4, 13 + r.key.len() as int + r.value.len() as int) == r.body(),
{
    lemma_le_round_trip();
    let f = r.frame();
    let k = r.key.len() as int;
    let v = r.value.len() as int;
    assert(f.subrange(0, 4) =~= le32(crc32(r.body())));
    assert(f.subrange(5, 9) =~= le32(r.key.len() as u32));
    assert(f.subrange(9, 9 + k) =~= r.key);
    assert(f.subrange(9 + k, 13 + k) =~= le32(r.value.len() as u32));
    assert(f.subrange(13 + k, 13 + k + v) =~= r.value);
    assert(f.subrange(4, 13 + k + v) =~= r.body());
}

/// A frame that stands whole at `pos` is read as its record.
pub proof fn lemma_frame_found(bytes: Seq<u8>, pos: int, r: WalRecord)
    requires
        r.fits(),
        0 <= pos,
        pos + r.frame().len() <= bytes.len(),
        bytes.subrange(pos, pos + r.frame().len()) == r.frame(),
    ensures
        frame_at(bytes, pos) == FrameScan::Good(r),
{
    lemma_frame_layout(r);
    let f = r.frame();
    let n = f.len() as int;
    let k = r.key.len() as int;
    let v = r.value.len() as int;
    lemma_subrange_within(bytes, pos, n, 0, 4);
    lemma_subrange_within(bytes, pos, n, 5, 9);
    lemma_subrange_within(bytes, pos, n, 9 + k, 13 + k);
    lemma_subrange_within(bytes, pos, n, 4, n);
    lemma_subrange_within(bytes, pos, n, 9, 9 + k);
    lemma_subrange_within(bytes, pos, n, 13 + k, n);
    assert(bytes[pos + 4] == bytes.subrange(pos, pos + n)[4]);
    assert(u32_at(bytes, pos + 5) == k);
    assert(u32_at(bytes, pos + 9 + k) == v);
    assert(u32_at(bytes, pos) == crc32(r.body()));
    assert(bytes.subrange(pos + 4, pos + 13 + k + v) == r.body());
}

/// A frame that was cut short at the end of the segment is read as the end.
pub proof fn lemma_frame_cut(bytes: Seq<u8>, pos: int, r: WalRecord, cut: int)
    requires
        r.fits(),
        0 <= pos,
        0 <= cut < r.frame().len(),
        bytes.len() == pos + cut,
        bytes.subrange(pos, pos + cut) == r.frame().subrange(0, cut),
    ensures
        frame_at(bytes, pos) is End || frame_at(bytes, pos) is Partial,
{
    lemma_frame_layout(r);
    let f = r.frame();
    let n = f.len() as int;
    let k = r.key.len() as int;
    if cut >= 9 {
        lemma_subrange_within(bytes, pos, cut, 5, 9);
        lemma_subrange_within(f, 0, cut, 5, 9);
        assert(u32_at(bytes, pos + 5) == k);
        if cut >= 13 + k {
            lemma_subrange_within(bytes, pos, cut, 9 + k, 13 + k);
            lemma_subrange_within(f, 0, cut, 9 + k, 13 + k);
            assert(u32_at(bytes, pos + 9 + k) == r.value.len());
        }
    }
}

/// Reading undoes writing, and a torn write at the end is harmless: where a
/// segment holds, after `head`, the frames of `records` and then the first
/// `cut` bytes of one more frame, a scan from the end of `head` gives
/// `records` back.
pub proof fn lemma_scan_frames_of(
    head: Seq<u8>,
    records: Seq<WalRecord>,
    last: WalRecord,
    cut: int,
)
    requires
        forall|i: int| 0 <= i < records.len() ==> (#[trigger] records[i]).fits(),
        last.fits(),
        0 <= cut < last.frame().len(),
    ensures
        scan(head + frames_of(records) + last.frame().subrange(0, cut), head.len() as int) == Ok::<
            Seq<WalRecord>,
            ScanError,
        >(records),
    decreases records.len(),
{
    let tail = last.frame().subrange(0, cut);
    let bytes = head + frames_of(records) + tail;
    let pos = head.len() as int;
    if records.len() == 0 {
        assert(bytes.subrange(pos, pos + cut) =~= tail);
        lemma_frame_cut(bytes, pos, last, cut);
        assert(records =~= Seq::<WalRecord>::empty());
    } else {
        let first = records[0];
        let rest = records.skip(1);
        let f = first.frame();
        lemma_frame_layout(first);
        assert(bytes.subrange(pos, pos + f.len()) =~= f);
        lemma_frame_found(bytes, pos, first);
        assert forall|i: int| 0 <= i < rest.len() implies (#[trigger] rest[i]).fits() by {
            assert(rest[i] == records[i + 1]);
        }
        lemma_scan_frames_of(head + f, rest, last, cut);
        assert(head + f + frames_of(rest) + tail =~= bytes);
        assert(seq![first] + rest =~= records);
    }
}

/// The records appended to an empty segment are the records read from it.
pub proof fn lemma_read_what_was_written(records: Seq<WalRecord>)
    requires
        forall|i: int| 0 <= i < records.len() ==> (#[trigger] records[i]).fits(),
    ensures
        records_of(frames_of(records)) == Ok::<Seq<WalRecord>, ScanError>(records),
{
    let last = WalRecord::checkpoint();
    lemma_scan_frames_of(Seq::empty(), records, last, 0);
    assert(Seq::<u8>::empty() + frames_of(records) + last.frame().subrange(0, 0) =~= frames_of(
        records,
    ));
}

/// Appending one more frame to a segment appends its record.
pub proof fn lemma_frames_of_push(records: Seq<WalRecord>, r: WalRecord)
    ensures
        frames_of(records.push(r)) == frames_of(records) + r.frame(),
    decreases records.len(),
{
    if records.len() == 0 {
        assert(records.push(r).skip(1) =~= Seq::<WalRecord>::empty());
        assert(frames_of(records.push(r).skip(1)) =~= Seq::<u8>::empty());
        assert(frames_of(records.push(r)) =~= r.frame() + Seq::<u8>::empty());
        assert(frames_of(records) + r.frame() =~= r.frame());
    } else {
        lemma_frames_of_push(records.skip(1), r);
        assert(records.push(r).skip(1) =~= records.skip(1).push(r));
        assert(records.push(r)[0] == records[0]);
        assert(frames_of(records.push(r)) =~= frames_of(records) + r.frame());
    }
}

/// A frame that is read as a record is the frame of that record.
pub proof fn lemma_frame_read(bytes: Seq<u8>, pos: int)
    requires
        0 <= pos,
    ensures
        frame_at(bytes, pos) matches FrameScan::Good(r) ==> r.fits() && pos + r.frame().len()
            <= bytes.len() && r.frame().len() == 13 + r.key.len() + r.value.len()
            && bytes.subrange(pos, pos + r.frame().len()) == r.frame(),
{
    if let FrameScan::Good(r) = frame_at(bytes, pos) {
        lemma_le_round_trip();
        let k = u32_at(bytes, pos + 5) as int;
        let v = u32_at(bytes, pos + 9 + k) as int;
        let end = pos + 13 + k + v;
        assert(r.key.len() == k);
        assert(r.value.len() == v);
        assert(r.op.code() == bytes[pos + 4]);
        assert(le32(r.key.len() as u32) == bytes.subrange(pos + 5, pos + 9));
        assert(le32(r.value.len() as u32) == bytes.subrange(pos + 9 + k, pos + 13 + k));
        assert(r.body() =~= bytes.subrange(pos + 4, end));
        assert(le32(crc32(r.body())) == bytes.subrange(pos, pos + 4));
        assert(r.frame() =~= bytes.subrange(pos, end));
    }
}

/// The frames of one record and then others are as long as the frame of
/// the one and the frames of the others.
pub proof fn lemma_total_length_first(first: WalRecord, rest: Seq<WalRecord>)
    ensures
        total_length(seq![first] + rest) == 13 + first.key.len() + first.value.len()
            + total_length(rest),
    decreases rest.len(),
{
    let all = seq![first] + rest;
    if rest.len() == 0 {
        assert(all.drop_last() =~= Seq::<WalRecord>::empty());
        assert(all.last() == first);
        assert(total_length(all.drop_last()) == 0);
        assert(total_length(rest) == 0);
        assert(total_length(all) == total_length(all.drop_last()) + 13 + all.last().key.len()
            + all.last().value.len());
    } else {
        lemma_total_length_first(first, rest.drop_last());
        assert(all.drop_last() =~= seq![first] + rest.drop_last());
        assert(all.last() == rest.last());
        assert(total_length(all) == total_length(all.drop_last()) + 13 + all.last().key.len()
            + all.last().value.len());
        assert(total_length(rest) == total_length(rest.drop_last()) + 13 + rest.last().key.len()
            + rest.last().value.len());
    }
}

/// What a scan reads are whole frames: from `pos` on the segment holds the
/// frames of the records that the scan gives, one after the other.
pub proof fn lemma_scanned_frames(bytes: Seq<u8>, pos: int)
    requires
        0 <= pos <= bytes.len(),
    ensures
        scan(bytes, pos) matches Ok(records) ==> pos + total_length(records) <= bytes.len()
            && bytes.subrange(pos, pos + total_length(records)) == frames_of(records) && forall|
            i: int,
        | 0 <= i < records.len() ==> (#[trigger] records[i]).fits(),
    decreases bytes.len() - pos,
{
    if let Ok(records) = scan(bytes, pos) {
        match frame_at(bytes, pos) {
            FrameScan::Good(first) => {
                lemma_frame_read(bytes, pos);
                let next = pos + 13 + first.key.len() + first.value.len();
                lemma_scanned_frames(bytes, next);
                let rest = scan(bytes, next)->Ok_0;
                assert(records == seq![first] + rest);
                lemma_total_length_first(first, rest);
                assert(records.skip(1) =~= rest);
                assert(records[0] == first);
                let whole = total_length(records) as int;
                assert(bytes.subrange(pos, pos + whole) =~= bytes.subrange(pos, next)
                    + bytes.subrange(next, next + total_length(rest)));
                assert forall|i: int| 0 <= i < records.len() implies (#[trigger] records[i]).fits() by {
                    if i > 0 {
                        assert(records[i] == rest[i - 1]);
                    }
                }
            },
            _ => {
                assert(records =~= Seq::<WalRecord>::empty());
                assert(bytes.subrange(pos, pos) =~= Seq::<u8>::empty());
            },
        }
    }
}

/// One frame of a segment, as read.
#[derive(Debug)]
pub struct WalFrame {
    pub op: WalOperation,
    pub key: Vec<u8>,
    pub value: Vec<u8>,
}

impl View for WalFrame {
    type V = WalRecord;

    open spec fn view(&self) -> WalRecord {
        WalRecord { op: self.op, key: self.key@, value: self.value@ }
    }
}

/// The views of the frames of a vector.
pub open spec fn records_in(frames: Seq<WalFrame>) -> Seq<WalRecord> {
    Seq::new(frames.len(), |i: int| frames[i]@)
}

/// Frames an operation. Key and value must fit their 32-bit length fields:
/// otherwise the frame is refused with a `Wal` error.
pub fn encode_frame(op: WalOperation, key: &[u8], value: &[u8]) -> (r: TreeResult<Vec<u8>>)
    ensures
        match r {
            Ok(frame) => {
                let record = WalRecord { op, key: key@, value: value@ };
                record.fits() && frame@ == record.frame() && frame@.len() == 13 + key@.len()
                    + value@.len()
            },
            Err(e) => e is Wal && !(WalRecord { op, key: key@, value: value@ }).fits(),
        },
{
    if key.len() > u32::MAX as usize || value.len() > u32::MAX as usize {
        return Err(TreeError::wal("key or value too long for a log frame"));
    }
    let mut body: Vec<u8> = Vec::new();
    body.push(op.to_u8());
    push_u32(&mut body, key.len() as u32);
    append_bytes(&mut body, key);
    push_u32(&mut body, value.len() as u32);
    append_bytes(&mut body, value);
    let ghost record = WalRecord { op, key: key@, value: value@ };
    assert(body@ =~= record.body());
    let mut frame: Vec<u8> = Vec::new();
    push_u32(&mut frame, checksum(body.as_slice()));
    append_bytes(&mut frame, body.as_slice());
    proof {
        lemma_le_round_trip();
    }
    Ok(frame)
}

/// The frame of an operation on `key` with the encoding of `value`, or with
/// no value where there is none.
pub fn write_entry(op: WalOperation, key: &[u8], value: Option<&DataValue>) -> (r: TreeResult<
    Vec<u8>,
>)
    ensures
        match r {
            Ok(frame) => {
                let record = WalRecord {
                    op,
                    key: key@,
                    value: match value {
                        Some(v) => v@.encoding(),
                        None => Seq::empty(),
                    },
                };
                record.fits() && frame@ == record.frame()
            },
            Err(e) => e is Wal && !(WalRecord {
                op,
                key: key@,
                value: match value {
                    Some(v) => v@.encoding(),
                    None => Seq::empty(),
                },
            }).fits(),
        },
{
    match value {
        Some(v) => {
            let bytes = v.encode();
            encode_frame(op, key, bytes.as_slice())
        },
        None => {
            let bytes: Vec<u8> = Vec::new();
            encode_frame(op, key, bytes.as_slice())
        },
    }
}

/// The frame of the checkpoint marker.
pub fn write_checkpoint() -> (frame: Vec<u8>)
    ensures
        frame@ == WalRecord::checkpoint().frame(),
        frame@.len() == CHECKPOINT_ENTRY_SIZE,
{
    let mut key: Vec<u8> = Vec::new();
    key.push(0x43u8);
    key.push(0x48u8);
    key.push(0x43u8);
    key.push(0x4bu8);
    key.push(0x50u8);
    key.push(0x54u8);
    assert(key@ =~= WalRecord::checkpoint().key);
    let value: Vec<u8> = Vec::new();
    assert(value@ =~= WalRecord::checkpoint().value);
    match encode_frame(WalOperation::Checkpoint, key.as_slice(), value.as_slice()) {
        Ok(frame) => frame,
        Err(_) => {
            assert(false);
            Vec::new()
        },
    }
}

/// Reads the frames of a segment in order. A write that was cut short at
/// the end is dropped; a wrong checksum before the last frame is refused
/// with `Corruption`, an unknown operation with `Wal`.
pub fn scan_frames(bytes: &[u8]) -> (r: TreeResult<Vec<WalFrame>>)
    ensures
        match r {
            Ok(frames) => records_of(bytes@) == Ok::<Seq<WalRecord>, ScanError>(
                records_in(frames@),
            ),
            Err(e) => match records_of(bytes@) {
                Ok(_) => false,
                Err(ScanError::Corrupt) => e is Corruption,
                Err(ScanError::BadOperation) => e is Wal,
            },
        },
{
    let mut frames: Vec<WalFrame> = Vec::new();
    let mut pos: usize = 0;
    let len = bytes.len();
    assert(records_in(frames@) =~= Seq::<WalRecord>::empty());
    assert(Seq::<WalRecord>::empty() + Seq::<WalRecord>::empty() =~= Seq::<WalRecord>::empty());
    loop
        invariant_except_break
            pos <= len,
            len == bytes@.len(),
            records_of(bytes@) == continued(records_in(frames@), scan(bytes@, pos as int)),
        ensures
            records_of(bytes@) == Ok::<Seq<WalRecord>, ScanError>(records_in(frames@)),
        decreases len - pos,
    {
        let rest = len - pos;
        let ghost done = records_in(frames@);
        proof {
            assert(done + Seq::<WalRecord>::empty() =~= done);
        }
        if rest < 9 {
            break ;
        }
        let key_len = read_u32(bytes, pos + 5);
        if (rest as u64) < 13 + key_len as u64 {
            break ;
        }
        let key_end = pos + 9 + key_len as usize;
        let value_len = read_u32(bytes, key_end);
        if (rest as u64) < 13 + key_len as u64 + value_len as u64 {
            break ;
        }
        let end = key_end + 4 + value_len as usize;
        let stored = read_u32(bytes, pos);
        let sum = checksum(slice_subrange(bytes, pos + 4, end));
        if sum != stored {
            if end == len {
                break ;
            }
            return Err(TreeError::corruption("log frame has a wrong checksum"));
        }
        let op = match WalOperation::from_u8(bytes[pos + 4]) {
            Some(op) => op,
            None => {
                return Err(TreeError::wal("log frame has an unknown operation"));
            },
        };
        let frame = WalFrame {
            op,
            key: copy_range(bytes, pos + 9, key_end),
            value: copy_range(bytes, key_end + 4, end),
        };
        proof {
            let record = frame@;
            assert(frame_at(bytes@, pos as int) == FrameScan::Good(record));
            assert(end == pos + 13 + record.key.len() + record.value.len());
            let tail = scan(bytes@, end as int);
            assert(scan(bytes@, pos as int) == continued(seq![record], tail));
            assert(records_in(frames@.push(frame)) =~= done.push(record));
            match tail {
                Ok(more) => {
                    assert(done + (seq![record] + more) =~= done.push(record) + more);
                },
                Err(_) => {},
            }
        }
        frames.push(frame);
        pos = end;
    }
    Ok(frames)
}

/// The length of the frames of the records, one after the other.
pub open spec fn total_length(records: Seq<WalRecord>) -> nat
    decreases records.len(),
{
    if records.len() == 0 {
        0
    } else {
        total_length(records.drop_last()) + 13 + records.last().key.len()
            + records.last().value.len()
    }
}

/// The length of the frames of these records, one after the other; the
/// largest machine integer where the length is beyond it.
pub fn frames_length(frames: &Vec<WalFrame>) -> (n: usize)
    ensures
        n == if total_length(records_in(frames@)) <= usize::MAX {
            total_length(records_in(frames@))
        } else {
            usize::MAX as nat
        },
{
    let mut n: usize = 0;
    let mut i: usize = 0;
    let ghost records = records_in(frames@);
    proof {
        assert(records.take(0) =~= Seq::<WalRecord>::empty());
    }
    while i < frames.len()
        invariant
            i <= frames@.len(),
            records == records_in(frames@),
            n == total_length(records.take(i as int)),
        decreases frames.len() - i,
    {
        let key = frames[i].key.len();
        let value = frames[i].value.len();
        proof {
            assert(records.take(i as int + 1).drop_last() =~= records.take(i as int));
            assert(records.take(i as int + 1).last() == frames@[i as int]@);
        }
        if key > usize::MAX - FRAME_OVERHEAD || value > usize::MAX - FRAME_OVERHEAD - key || n
            > usize::MAX - FRAME_OVERHEAD - key - value {
            proof {
                lemma_total_length_grows(records, i as int + 1);
            }
            return usize::MAX;
        }
        n = n + FRAME_OVERHEAD + key + value;
        i += 1;
    }
    proof {
        assert(records.take(i as int) =~= records);
    }
    n
}

/// More records make no shorter frames.
pub proof fn lemma_total_length_grows(records: Seq<WalRecord>, i: int)
    requires
        0 <= i <= records.len(),
    ensures
        total_length(records.take(i)) <= total_length(records),
    decreases records.len() - i,
{
    if i == records.len() {
        assert(records.take(i) =~= records);
    } else {
        lemma_total_length_grows(records, i + 1);
        assert(records.take(i + 1).drop_last() =~= records.take(i));
    }
}

/// Whether the last record of a segment is a checkpoint: then everything the
/// segment holds is already in sorted runs.
pub open spec fn ends_with_checkpoint(bytes: Seq<u8>) -> bool {
    match records_of(bytes) {
        Ok(records) => records.len() > 0 && records.last().op == WalOperation::Checkpoint,
        Err(_) => false,
    }
}

/// Whether the last record of a segment is a checkpoint. A segment that
/// cannot be read is refused as `scan_frames` refuses it.
pub fn has_checkpoint_at_end(bytes: &[u8]) -> (r: TreeResult<bool>)
    ensures
        match r {
            Ok(b) => records_of(bytes@) is Ok && b == ends_with_checkpoint(bytes@),
            Err(e) => match records_of(bytes@) {
                Ok(_) => false,
                Err(ScanError::Corrupt) => e is Corruption,
                Err(ScanError::BadOperation) => e is Wal,
            },
        },
{
    let frames = scan_frames(bytes)?;
    let n = frames.len();
    if n == 0 {
        Ok(false)
    } else {
        assert(records_in(frames@).last() == frames@[n as int - 1]@);
        Ok(frames[n - 1].op == WalOperation::Checkpoint)
    }
}

/// One operation read back from the log, with its value decoded.
#[derive(Debug)]
pub struct WalEntry {
    pub op: WalOperation,
    pub key: Vec<u8>,
    pub value: Option<DataValue>,
}

/// A log entry as a mathematical value.
pub struct WalEntryView {
    pub op: WalOperation,
    pub key: Seq<u8>,
    pub value: Option<Record>,
}

impl View for WalEntry {
    type V = WalEntryView;

    open spec fn view(&self) -> WalEntryView {
        WalEntryView {
            op: self.op,
            key: self.key@,
            value: match self.value {
                Some(v) => Some(v@),
                None => None,
            },
        }
    }
}

impl WalRecord {
    /// Whether the value of the record can be read: a put has a value, and a
    /// value that is there decodes.
    pub open spec fn readable(self) -> bool {
        if self.value.len() == 0 {
            self.op != WalOperation::Put
        } else {
            Record::decoding(self.value) is Some
        }
    }

    /// The record with its value decoded.
    pub open spec fn entry(self) -> WalEntryView {
        WalEntryView {
            op: self.op,
            key: self.key,
            value: if self.value.len() == 0 {
                None
            } else {
                Record::decoding(self.value)
            },
        }
    }
}

/// Reads the entries of a segment: its frames, each with its value decoded.
///
/// Fails as `scan_frames` does; with `Wal` where a put has no value; and
/// with `Serialization` where a value does not decode.
pub fn read_entries(bytes: &[u8]) -> (r: TreeResult<Vec<WalEntry>>)
    ensures
        match r {
            Ok(entries) => records_of(bytes@) matches Ok(records) && entries@.len()
                == records.len() && forall|i: int|
                0 <= i < records.len() ==> (#[trigger] records[i]).readable() && entries@[i]@
                    == records[i].entry(),
            Err(e) => match records_of(bytes@) {
                Ok(records) => (e is Wal || e is Serialization) && exists|i: int|
                    0 <= i < records.len() && !(#[trigger] records[i]).readable(),
                Err(ScanError::Corrupt) => e is Corruption,
                Err(ScanError::BadOperation) => e is Wal,
            },
        },
{
    let mut frames = scan_frames(bytes)?;
    let ghost records = records_in(frames@);
    let mut entries: Vec<WalEntry> = Vec::new();
    let n = frames.len();
    let mut i: usize = 0;
    while i < n
        invariant
            i <= n,
            n == frames@.len(),
            records == records_in(frames@),
            records_of(bytes@) == Ok::<Seq<WalRecord>, ScanError>(records),
            entries@.len() == i,
            forall|j: int|
                0 <= j < i ==> (#[trigger] records[j]).readable() && entries@[j]@
                    == records[j].entry(),
        decreases n - i,
    {
        let frame = &frames[i];
        assert(records[i as int] == frame@);
        let value = if frame.value.len() == 0 {
            if frame.op == WalOperation::Put {
                return Err(TreeError::wal("a put was logged without a value"));
            }
            None
        } else {
            Some(DataValue::decode(frame.value.as_slice())?)
        };
        let key = copy_range(frame.key.as_slice(), 0, frame.key.len());
        assert(key@ =~= frame.key@);
        entries.push(WalEntry { op: frame.op, key, value });
        i += 1;
    }
    Ok(entries)
}

} // verus!
