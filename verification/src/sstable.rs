//! The sorted run: an immutable file of entries in ascending key order.
//!
//! ```text
//! [header: 16]   "SSTB", version u32 LE (2), 8 reserved bytes (zero)
//! [data blocks]  one per key, ascending:
//!                [key length: u32 LE][key][value length: u32 LE][value]
//!                [crc32 of key and value: u32 LE]
//! [index]        [count: u32 LE], then per key:
//!                [key length: u32 LE][key][offset of its data block: u64 LE]
//! [bloom]        [length: u32 LE][serialized bloom filter]
//! [footer: 20]   [offset of the index: u64 LE][offset of the bloom: u64 LE]"FTTB"
//! ```

use crate::bytes::{append_bytes, bytes_equal, compare_bytes, copy_range, le32, le64, lemma_le_round_trip, lemma_lex_irreflexive, lemma_lex_transitive, lemma_subrange_within, lex_lt, push_u32, push_u64, read_u32, read_u64, u32_at, u64_at, KeyOrder};
use crate::data_value::{DataValue, Record};
use crate::error::{TreeError, TreeResult};
use crate::table::{keys_ascending, Entries, Table};
use crate::wal::{checksum, crc32};
use vstd::prelude::*;
use vstd::slice::slice_subrange;

verus! {

pub const HEADER_SIZE: usize = 16;

pub const FOOTER_SIZE: usize = 20;

pub const CURRENT_VERSION: u32 = 2;

/// The magic number that opens a run: `SSTB`.
pub open spec fn header_magic() -> Seq<u8> {
    seq![0x53u8, 0x53u8, 0x54u8, 0x42u8]
}

/// The magic number that closes a run: `FTTB`.
pub open spec fn footer_magic() -> Seq<u8> {
    seq![0x46u8, 0x54u8, 0x54u8, 0x42u8]
}

/// The header of every run.
pub open spec fn header_image() -> Seq<u8> {
    header_magic() + le32(2) + seq![0u8, 0u8, 0u8, 0u8, 0u8, 0u8, 0u8, 0u8]
}

/// The data block of a key and its encoded value.
pub open spec fn block_image(key: Seq<u8>, value: Seq<u8>) -> Seq<u8> {
    le32(key.len() as u32) + key + le32(value.len() as u32) + value + le32(crc32(key + value))
}

/// The index entry of a key whose data block stands at `offset`.
pub open spec fn index_entry_image(key: Seq<u8>, offset: u64) -> Seq<u8> {
    le32(key.len() as u32) + key + le64(offset)
}

/// The block that holds a serialized bloom filter.
pub open spec fn bloom_block_image(bloom: Seq<u8>) -> Seq<u8> {
    le32(bloom.len() as u32) + bloom
}

/// The footer of a run.
pub open spec fn footer_image(index_offset: u64, bloom_offset: u64) -> Seq<u8> {
    le64(index_offset) + le64(bloom_offset) + footer_magic()
}

/// The pieces one after the other.
pub open spec fn joined(pieces: Seq<Seq<u8>>) -> Seq<u8>
    decreases pieces.len(),
{
    if pieces.len() == 0 {
        Seq::empty()
    } else {
        joined(pieces.drop_last()) + pieces.last()
    }
}

/// Keys with their encoded values: what a run holds, byte for byte.
pub type RawEntries = Seq<(Seq<u8>, Seq<u8>)>;

/// The entries of a table with each record encoded.
pub open spec fn raw_of(entries: Entries) -> RawEntries {
    Seq::new(entries.len(), |i: int| (entries[i].0, entries[i].1.encoding()))
}

/// The data blocks of the entries.
pub open spec fn block_pieces(raw: RawEntries) -> Seq<Seq<u8>> {
    Seq::new(raw.len(), |i: int| block_image(raw[i].0, raw[i].1))
}

/// Where the data block of entry `i` starts in the run.
pub open spec fn block_offset(raw: RawEntries, i: int) -> int {
    16 + joined(block_pieces(raw).take(i)).len() as int
}

/// The index entries of the entries.
pub open spec fn index_pieces(raw: RawEntries) -> Seq<Seq<u8>> {
    Seq::new(raw.len(), |i: int| index_entry_image(raw[i].0, block_offset(raw, i) as u64))
}

/// The index block of the entries.
pub open spec fn index_image(raw: RawEntries) -> Seq<u8> {
    le32(raw.len() as u32) + joined(index_pieces(raw))
}

/// The whole run that holds `raw` and the serialized filter `bloom`.
pub open spec fn run_image(raw: RawEntries, bloom: Seq<u8>) -> Seq<u8> {
    let data = joined(block_pieces(raw));
    let index = index_image(raw);
    let index_offset = 16 + data.len();
    let bloom_offset = index_offset + index.len();
    header_image() + data + index + bloom_block_image(bloom) + footer_image(
        index_offset as u64,
        bloom_offset as u64,
    )
}

/// What a run can hold: at most 2^32 - 1 entries, each key and each encoded
/// value at most 2^32 - 1 bytes long, and a filter of at most 2^32 - 1 bytes.
pub open spec fn run_fits(raw: RawEntries, bloom: Seq<u8>) -> bool {
    &&& raw.len() <= u32::MAX
    &&& bloom.len() <= u32::MAX
    &&& forall|i: int|
        0 <= i < raw.len() ==> (#[trigger] raw[i]).0.len() <= u32::MAX && raw[i].1.len()
            <= u32::MAX
}

/// The first `i + 1` pieces are the first `i` pieces and piece `i`.
pub proof fn lemma_joined_take(pieces: Seq<Seq<u8>>, i: int)
    requires
        0 <= i < pieces.len(),
    ensures
        joined(pieces.take(i + 1)) == joined(pieces.take(i)) + pieces[i],
{
    assert(pieces.take(i + 1).drop_last() =~= pieces.take(i));
}

/// The header of a run, as bytes.
pub fn write_header(out: &mut Vec<u8>)
    ensures
        final(out)@ == old(out)@ + header_image(),
        header_image().len() == 16,
{
    let ghost before = out@;
    out.push(0x53u8);
    out.push(0x53u8);
    out.push(0x54u8);
    out.push(0x42u8);
    push_u32(out, CURRENT_VERSION);
    let mut i: usize = 0;
    while i < 8
        invariant
            i <= 8,
            out@ == before + header_magic() + le32(2) + Seq::new(i as nat, |j: int| 0u8),
        decreases 8 - i,
    {
        out.push(0u8);
        i += 1;
        assert(out@ =~= before + header_magic() + le32(2) + Seq::new(i as nat, |j: int| 0u8));
    }
    proof {
        lemma_le_round_trip();
        assert(Seq::new(8, |j: int| 0u8) =~= seq![0u8, 0u8, 0u8, 0u8, 0u8, 0u8, 0u8, 0u8]);
        assert(out@ =~= before + header_image());
    }
}

/// Appends the data block of a key and its encoded value.
pub fn write_data_entry(out: &mut Vec<u8>, key: &[u8], value: &[u8])
    requires
        key@.len() <= u32::MAX,
        value@.len() <= u32::MAX,
    ensures
        final(out)@ == old(out)@ + block_image(key@, value@),
        block_image(key@, value@).len() == 12 + key@.len() + value@.len(),
{
    let ghost before = out@;
    push_u32(out, key.len() as u32);
    append_bytes(out, key);
    push_u32(out, value.len() as u32);
    append_bytes(out, value);
    let mut covered: Vec<u8> = Vec::new();
    append_bytes(&mut covered, key);
    append_bytes(&mut covered, value);
    assert(covered@ =~= key@ + value@);
    push_u32(out, checksum(covered.as_slice()));
    proof {
        lemma_le_round_trip();
        assert(out@ =~= before + block_image(key@, value@));
    }
}

/// Appends the footer.
pub fn write_footer(out: &mut Vec<u8>, index_offset: u64, bloom_offset: u64)
    ensures
        final(out)@ == old(out)@ + footer_image(index_offset, bloom_offset),
        footer_image(index_offset, bloom_offset).len() == 20,
{
    let ghost before = out@;
    push_u64(out, index_offset);
    push_u64(out, bloom_offset);
    out.push(0x46u8);
    out.push(0x54u8);
    out.push(0x54u8);
    out.push(0x42u8);
    proof {
        lemma_le_round_trip();
        assert(out@ =~= before + footer_image(index_offset, bloom_offset));
    }
}

/// Appends the block of a serialized bloom filter.
pub fn write_bloom_filter(out: &mut Vec<u8>, bloom: &[u8])
    requires
        bloom@.len() <= u32::MAX,
    ensures
        final(out)@ == old(out)@ + bloom_block_image(bloom@),
        bloom_block_image(bloom@).len() == 4 + bloom@.len(),
{
    let ghost before = out@;
    push_u32(out, bloom.len() as u32);
    append_bytes(out, bloom);
    proof {
        lemma_le_round_trip();
        assert(out@ =~= before + bloom_block_image(bloom@));
    }
}

/// One entry of the index of a run.
#[derive(Debug)]
pub struct IndexEntry {
    pub key: Vec<u8>,
    pub offset: u64,
}

/// The index of a run as a mathematical value: keys with the offsets of
/// their data blocks.
pub type IndexPairs = Seq<(Seq<u8>, u64)>;

/// The keys of an index stand in strictly ascending order.
pub open spec fn index_ascending(s: IndexPairs) -> bool {
    forall|i: int, j: int| 0 <= i < j < s.len() ==> lex_lt(#[trigger] s[i].0, #[trigger] s[j].0)
}

/// The offset that an index gives for a key, if it holds the key.
pub open spec fn index_lookup(s: IndexPairs, key: Seq<u8>) -> Option<u64> {
    if exists|i: int| 0 <= i < s.len() && (#[trigger] s[i]).0 == key {
        Some(s[choose|i: int| 0 <= i < s.len() && (#[trigger] s[i]).0 == key].1)
    } else {
        None
    }
}

/// In an ascending index a key stands at one place only.
pub proof fn lemma_index_lookup(s: IndexPairs, i: int)
    requires
        index_ascending(s),
        0 <= i < s.len(),
    ensures
        index_lookup(s, s[i].0) == Some(s[i].1),
{
    let key = s[i].0;
    let p = choose|p: int| 0 <= p < s.len() && (#[trigger] s[p]).0 == key;
    if p < i {
        assert(lex_lt(s[p].0, s[i].0));
        lemma_lex_irreflexive(key);
    } else if i < p {
        assert(lex_lt(s[i].0, s[p].0));
        lemma_lex_irreflexive(key);
    }
}

/// The pairs of a vector of index entries.
pub open spec fn index_pairs_of(entries: Seq<IndexEntry>) -> IndexPairs {
    Seq::new(entries.len(), |i: int| (entries[i].key@, entries[i].offset))
}

/// The complete index of one run: every key with the offset of its data
/// block, in ascending key order.
#[derive(Debug)]
pub struct RunIndex {
    entries: Vec<IndexEntry>,
}

impl View for RunIndex {
    type V = IndexPairs;

    closed spec fn view(&self) -> IndexPairs {
        index_pairs_of(self.entries@)
    }
}

impl RunIndex {
    #[verifier::type_invariant]
    spec fn ordered(self) -> bool {
        index_ascending(self@)
    }

    /// The empty index.
    pub fn new() -> (index: Self)
        ensures
            index@.len() == 0,
    {
        RunIndex { entries: Vec::new() }
    }

    /// The number of keys. They stand in ascending order, as in every index.
    pub fn len(&self) -> (n: usize)
        ensures
            n == self@.len(),
            index_ascending(self@),
    {
        proof {
            use_type_invariant(self);
        }
        self.entries.len()
    }

    /// The key at `i`.
    pub fn key_at(&self, i: usize) -> (k: &[u8])
        requires
            i < self@.len(),
        ensures
            k@ == self@[i as int].0,
    {
        self.entries[i].key.as_slice()
    }

    /// The offset at `i`.
    pub fn offset_at(&self, i: usize) -> (offset: u64)
        requires
            i < self@.len(),
        ensures
            offset == self@[i as int].1,
    {
        self.entries[i].offset
    }

    /// Appends a key that comes after every key of the index.
    pub fn push(&mut self, key: Vec<u8>, offset: u64)
        requires
            old(self)@.len() > 0 ==> lex_lt(old(self)@.last().0, key@),
        ensures
            final(self)@ == old(self)@.push((key@, offset)),
    {
        proof {
            use_type_invariant(&*self);
        }
        let ghost before = self@;
        let mut entries: Vec<IndexEntry> = Vec::new();
        core::mem::swap(&mut entries, &mut self.entries);
        entries.push(IndexEntry { key, offset });
        proof {
            let after = index_pairs_of(entries@);
            assert(after =~= before.push((key@, offset)));
            let n = before.len() as int;
            assert forall|i: int, j: int| 0 <= i < j < after.len() implies lex_lt(
                #[trigger] after[i].0,
                #[trigger] after[j].0,
            ) by {
                if j < n {
                    assert(after[i] == before[i] && after[j] == before[j]);
                } else if i < n - 1 {
                    assert(after[i] == before[i]);
                    assert(lex_lt(before[i].0, before[n - 1].0));
                    lemma_lex_transitive(before[i].0, before[n - 1].0, key@);
                } else {
                    assert(after[i] == before[n - 1]);
                }
            }
        }
        self.entries = entries;
    }

    /// Bisects the index for `key`: the offset of its data block, if the
    /// run holds the key.
    pub fn find(&self, key: &[u8]) -> (r: Option<u64>)
        ensures
            r == index_lookup(self@, key@),
    {
        proof {
            use_type_invariant(self);
        }
        let mut low: usize = 0;
        let mut high: usize = self.entries.len();
        while low < high
            invariant
                low <= high <= self.entries.len(),
                self@.len() == self.entries.len(),
                index_ascending(self@),
                forall|i: int| 0 <= i < low ==> lex_lt(#[trigger] self@[i].0, key@),
                forall|i: int| high <= i < self@.len() ==> lex_lt(key@, #[trigger] self@[i].0),
            decreases high - low,
        {
            let mid = low + (high - low) / 2;
            let order = compare_bytes(self.entries[mid].key.as_slice(), key);
            assert(self@[mid as int].0 == self.entries@[mid as int].key@);
            match order {
                KeyOrder::Same => {
                    proof {
                        lemma_index_lookup(self@, mid as int);
                    }
                    return Some(self.entries[mid].offset);
                },
                KeyOrder::Before => {
                    proof {
                        assert forall|i: int| 0 <= i < mid + 1 implies lex_lt(
                            #[trigger] self@[i].0,
                            key@,
                        ) by {
                            if i < mid {
                                assert(lex_lt(self@[i].0, self@[mid as int].0));
                                lemma_lex_transitive(self@[i].0, self@[mid as int].0, key@);
                            }
                        }
                    }
                    low = mid + 1;
                },
                KeyOrder::After => {
                    proof {
                        assert forall|i: int| mid <= i < self@.len() implies lex_lt(
                            key@,
                            #[trigger] self@[i].0,
                        ) by {
                            if mid < i {
                                assert(lex_lt(self@[mid as int].0, self@[i].0));
                                lemma_lex_transitive(key@, self@[mid as int].0, self@[i].0);
                            }
                        }
                    }
                    high = mid;
                },
            }
        }
        proof {
            if exists|i: int| 0 <= i < self@.len() && (#[trigger] self@[i]).0 == key@ {
                let i = choose|i: int| 0 <= i < self@.len() && (#[trigger] self@[i]).0 == key@;
                lemma_lex_irreflexive(key@);
            }
        }
        None
    }

    /// A copy of the index.
    pub fn duplicate(&self) -> (index: RunIndex)
        ensures
            index@ == self@,
    {
        proof {
            use_type_invariant(self);
        }
        let mut entries: Vec<IndexEntry> = Vec::new();
        let mut i: usize = 0;
        while i < self.entries.len()
            invariant
                i <= self.entries.len(),
                entries@.len() == i,
                forall|j: int|
                    0 <= j < i ==> (#[trigger] entries@[j]).key@ == self.entries@[j].key@
                        && entries@[j].offset == self.entries@[j].offset,
            decreases self.entries.len() - i,
        {
            let key = copy_range(self.entries[i].key.as_slice(), 0, self.entries[i].key.len());
            assert(key@ =~= self.entries@[i as int].key@);
            entries.push(IndexEntry { key, offset: self.entries[i].offset });
            i += 1;
        }
        assert(index_pairs_of(entries@) =~= self@);
        RunIndex { entries }
    }
}

/// The index of the run that holds `raw`.
pub open spec fn index_of(raw: RawEntries) -> IndexPairs {
    Seq::new(raw.len(), |i: int| (raw[i].0, block_offset(raw, i) as u64))
}

/// Writes a table as a sorted run with the serialized filter `bloom`, and
/// gives the index of the run with it.
///
/// A table that a run cannot hold (see `run_fits`) is refused with an
/// `Internal` error.
pub fn write_sstable(table: &Table, bloom: &[u8]) -> (r: TreeResult<(Vec<u8>, RunIndex)>)
    ensures
        match r {
            Ok((bytes, index)) => run_fits(raw_of(table@), bloom@) && bytes@ == run_image(
                raw_of(table@),
                bloom@,
            ) && index@ == index_of(raw_of(table@)),
            Err(e) => e is Internal && !run_fits(raw_of(table@), bloom@),
        },
{
    let ghost raw = raw_of(table@);
    let n = table.len();
    if n > u32::MAX as usize || bloom.len() > u32::MAX as usize {
        return Err(TreeError::internal("too many entries for one sorted run"));
    }
    let mut out: Vec<u8> = Vec::new();
    write_header(&mut out);
    let mut index = RunIndex::new();
    let mut i: usize = 0;
    assert(block_pieces(raw).take(0) =~= Seq::<Seq<u8>>::empty());
    assert(out@ =~= header_image() + joined(block_pieces(raw).take(0)));
    while i < n
        invariant
            i <= n,
            n == table@.len(),
            raw == raw_of(table@),
            keys_ascending(table@),
            header_image().len() == 16,
            out@ == header_image() + joined(block_pieces(raw).take(i as int)),
            index@ == index_of(raw).take(i as int),
            forall|j: int|
                0 <= j < i ==> (#[trigger] raw[j]).0.len() <= u32::MAX && raw[j].1.len()
                    <= u32::MAX,
        decreases n - i,
    {
        let key = table.key_at(i);
        let value = table.value_at(i).encode();
        assert(raw[i as int] == (key@, value@));
        if key.len() > u32::MAX as usize || value.len() > u32::MAX as usize {
            return Err(TreeError::internal("entry too long for a sorted run"));
        }
        let offset = out.len() as u64;
        assert(offset == block_offset(raw, i as int));
        write_data_entry(&mut out, key, value.as_slice());
        let owned = copy_range(key, 0, key.len());
        assert(owned@ =~= key@);
        proof {
            lemma_joined_take(block_pieces(raw), i as int);
            if i > 0 {
                assert(index@.last() == index_of(raw)[i as int - 1]);
                assert(lex_lt(table@[i as int - 1].0, table@[i as int].0));
            }
            assert(index_of(raw).take(i as int).push((owned@, offset)) =~= index_of(raw).take(
                i as int + 1,
            ));
        }
        index.push(owned, offset);
        i += 1;
    }
    assert(block_pieces(raw).take(n as int) =~= block_pieces(raw));
    assert(index_of(raw).take(n as int) =~= index_of(raw));
    let ghost data = joined(block_pieces(raw));
    let index_offset = out.len() as u64;
    push_u32(&mut out, n as u32);
    let mut j: usize = 0;
    assert(index_pieces(raw).take(0) =~= Seq::<Seq<u8>>::empty());
    assert(out@ =~= header_image() + data + (le32(n as u32) + joined(index_pieces(raw).take(0))));
    while j < n
        invariant
            j <= n,
            n == raw.len(),
            n == index@.len(),
            index@ == index_of(raw),
            out@ == header_image() + data + (le32(n as u32) + joined(
                index_pieces(raw).take(j as int),
            )),
            forall|k: int| 0 <= k < n ==> (#[trigger] raw[k]).0.len() <= u32::MAX,
        decreases n - j,
    {
        let key = index.key_at(j);
        let offset = index.offset_at(j);
        let ghost before = out@;
        push_u32(&mut out, key.len() as u32);
        append_bytes(&mut out, key);
        push_u64(&mut out, offset);
        proof {
            lemma_joined_take(index_pieces(raw), j as int);
            assert(out@ =~= before + index_pieces(raw)[j as int]);
            assert(out@ =~= header_image() + data + (le32(n as u32) + joined(
                index_pieces(raw).take(j as int + 1),
            )));
        }
        j += 1;
    }
    assert(index_pieces(raw).take(n as int) =~= index_pieces(raw));
    let bloom_offset = out.len() as u64;
    write_bloom_filter(&mut out, bloom);
    write_footer(&mut out, index_offset, bloom_offset);
    proof {
        assert(out@ =~= run_image(raw, bloom@));
    }
    Ok((out, index))
}

/// The header is there, with the magic number and the current version.
pub open spec fn header_valid(bytes: Seq<u8>) -> bool {
    bytes.len() >= 16 && bytes.subrange(0, 4) == header_magic() && u32_at(bytes, 4) == 2
}

/// The offsets that the footer gives for the index and the bloom filter,
/// if the run ends with a footer.
pub open spec fn footer_of(bytes: Seq<u8>) -> Option<(u64, u64)> {
    let n = bytes.len() as int;
    if n >= 20 && bytes.subrange(n - 4, n) == footer_magic() {
        Some((u64_at(bytes, n - 20), u64_at(bytes, n - 12)))
    } else {
        None
    }
}

/// `count` index entries read from `pos` on, if so many stand there whole.
pub open spec fn index_entries_at(bytes: Seq<u8>, pos: int, count: nat) -> Option<IndexPairs>
    decreases count,
{
    if count == 0 {
        Some(Seq::empty())
    } else if pos < 0 || pos + 4 > bytes.len() {
        None
    } else {
        let key_len = u32_at(bytes, pos) as int;
        if pos + 12 + key_len > bytes.len() {
            None
        } else {
            let first = (bytes.subrange(pos + 4, pos + 4 + key_len), u64_at(bytes, pos + 4 + key_len));
            match index_entries_at(bytes, pos + 12 + key_len, (count - 1) as nat) {
                Some(rest) => Some(seq![first] + rest),
                None => None,
            }
        }
    }
}

/// The index block that stands at `offset`.
pub open spec fn index_at(bytes: Seq<u8>, offset: int) -> Option<IndexPairs> {
    if offset < 0 || offset + 4 > bytes.len() {
        None
    } else {
        index_entries_at(bytes, offset + 4, u32_at(bytes, offset) as nat)
    }
}

/// `done` followed by what reading the rest of the index gives.
pub open spec fn index_continued(done: IndexPairs, rest: Option<IndexPairs>) -> Option<IndexPairs> {
    match rest {
        Some(more) => Some(done + more),
        None => None,
    }
}

/// The index of a run: the header and the footer are sound, the index block
/// stands where the footer says, and its keys ascend.
pub open spec fn run_index(bytes: Seq<u8>) -> Option<IndexPairs> {
    if !header_valid(bytes) {
        None
    } else {
        match footer_of(bytes) {
            None => None,
            Some((index_offset, _)) => match index_at(bytes, index_offset as int) {
                None => None,
                Some(pairs) => if index_ascending(pairs) {
                    Some(pairs)
                } else {
                    None
                },
            },
        }
    }
}

/// What stands at the offset of a data block.
pub enum BlockScan {
    /// The run ends before the block does.
    Truncated,
    /// The checksum is not that of key and value.
    Mismatch,
    /// A sound block.
    Good { key: Seq<u8>, value: Seq<u8> },
}

/// Reads the data block at `offset`.
pub open spec fn block_at(bytes: Seq<u8>, offset: int) -> BlockScan {
    if offset < 0 || offset + 4 > bytes.len() {
        BlockScan::Truncated
    } else {
        let key_len = u32_at(bytes, offset) as int;
        if offset + 8 + key_len > bytes.len() {
            BlockScan::Truncated
        } else {
            let value_len = u32_at(bytes, offset + 4 + key_len) as int;
            if offset + 12 + key_len + value_len > bytes.len() {
                BlockScan::Truncated
            } else {
                let key = bytes.subrange(offset + 4, offset + 4 + key_len);
                let value = bytes.subrange(offset + 8 + key_len, offset + 8 + key_len + value_len);
                if crc32(key + value) != u32_at(bytes, offset + 8 + key_len + value_len) {
                    BlockScan::Mismatch
                } else {
                    BlockScan::Good { key, value }
                }
            }
        }
    }
}

/// The record of `key` in the data block at `offset`: the block is sound,
/// holds this key, and its value decodes.
pub open spec fn entry_at(bytes: Seq<u8>, offset: int, key: Seq<u8>) -> Option<Record> {
    match block_at(bytes, offset) {
        BlockScan::Good { key: found, value } => if found == key {
            Record::decoding(value)
        } else {
            None
        },
        _ => None,
    }
}

/// The serialized bloom filter in the block at `offset`.
pub open spec fn bloom_at(bytes: Seq<u8>, offset: int) -> Option<Seq<u8>> {
    if offset < 0 || offset + 4 > bytes.len() {
        None
    } else {
        let len = u32_at(bytes, offset) as int;
        if offset + 4 + len > bytes.len() {
            None
        } else {
            Some(bytes.subrange(offset + 4, offset + 4 + len))
        }
    }
}

/// Checks the header: the magic number and the version. A run that fails
/// is refused with `Corruption`.
pub fn validate_header(bytes: &[u8]) -> (r: TreeResult<()>)
    ensures
        match r {
            Ok(_) => header_valid(bytes@),
            Err(e) => e is Corruption && !header_valid(bytes@),
        },
{
    if bytes.len() < HEADER_SIZE {
        return Err(TreeError::corruption("sorted run is shorter than its header"));
    }
    let mut magic: Vec<u8> = Vec::new();
    magic.push(0x53u8);
    magic.push(0x53u8);
    magic.push(0x54u8);
    magic.push(0x42u8);
    assert(magic@ =~= header_magic());
    if !bytes_equal(slice_subrange(bytes, 0, 4), magic.as_slice()) {
        return Err(TreeError::corruption("incorrect header magic number"));
    }
    if read_u32(bytes, 4) != CURRENT_VERSION {
        return Err(TreeError::corruption("unsupported version"));
    }
    Ok(())
}

/// Reads the footer: the offsets of the index and of the bloom filter.
pub fn read_footer(bytes: &[u8]) -> (r: TreeResult<(u64, u64)>)
    ensures
        match r {
            Ok(offsets) => footer_of(bytes@) == Some(offsets),
            Err(e) => e is Corruption && footer_of(bytes@) is None,
        },
{
    let n = bytes.len();
    if n < FOOTER_SIZE {
        return Err(TreeError::corruption("sorted run is shorter than its footer"));
    }
    let mut magic: Vec<u8> = Vec::new();
    magic.push(0x46u8);
    magic.push(0x54u8);
    magic.push(0x54u8);
    magic.push(0x42u8);
    assert(magic@ =~= footer_magic());
    if !bytes_equal(slice_subrange(bytes, n - 4, n), magic.as_slice()) {
        return Err(TreeError::corruption("incorrect footer magic number"));
    }
    Ok((read_u64(bytes, n - 20), read_u64(bytes, n - 12)))
}

/// Whether a run has a sound header and footer.
pub fn validate_sstable(bytes: &[u8]) -> (ok: bool)
    ensures
        ok == (header_valid(bytes@) && footer_of(bytes@) is Some),
{
    match validate_header(bytes) {
        Ok(_) => match read_footer(bytes) {
            Ok(_) => true,
            Err(_) => false,
        },
        Err(_) => false,
    }
}

/// Reads the index block at `offset`. An index that is cut short, or whose
/// keys do not ascend, is refused with `Corruption`.
pub fn read_index(bytes: &[u8], offset: u64) -> (r: TreeResult<RunIndex>)
    ensures
        match r {
            Ok(index) => index_at(bytes@, offset as int) == Some(index@) && index_ascending(
                index@,
            ),
            Err(e) => e is Corruption && !(index_at(bytes@, offset as int) matches Some(pairs)
                && index_ascending(pairs)),
        },
{
    let n = bytes.len();
    if offset > n as u64 || n as u64 - offset < 4 {
        return Err(TreeError::corruption("index block is cut short"));
    }
    let start = offset as usize;
    let count = read_u32(bytes, start);
    let mut index = RunIndex::new();
    let mut pos: usize = start + 4;
    let mut i: u32 = 0;
    let ghost whole = index_at(bytes@, offset as int);
    assert(Seq::<(Seq<u8>, u64)>::empty() + Seq::<(Seq<u8>, u64)>::empty() =~= Seq::<
        (Seq<u8>, u64),
    >::empty());
    assert(index@ =~= Seq::<(Seq<u8>, u64)>::empty());
    while i < count
        invariant
            i <= count,
            pos <= n,
            n == bytes@.len(),
            index@.len() == i,
            whole == index_at(bytes@, offset as int),
            whole == index_continued(
                index@,
                index_entries_at(bytes@, pos as int, (count - i) as nat),
            ),
        decreases count - i,
    {
        let ghost done = index@;
        if n - pos < 4 {
            return Err(TreeError::corruption("index entry is cut short"));
        }
        let key_len = read_u32(bytes, pos);
        if ((n - pos) as u64) < 12 + key_len as u64 {
            return Err(TreeError::corruption("index entry is cut short"));
        }
        let key_end = pos + 4 + key_len as usize;
        let key = copy_range(bytes, pos + 4, key_end);
        let data_offset = read_u64(bytes, key_end);
        let ghost rest = index_entries_at(bytes@, key_end as int + 8, (count - i - 1) as nat);
        proof {
            assert(index_entries_at(bytes@, pos as int, (count - i) as nat) == index_continued(
                seq![(key@, data_offset)],
                rest,
            ));
            match rest {
                Some(more) => {
                    assert(done + (seq![(key@, data_offset)] + more) =~= done.push(
                        (key@, data_offset),
                    ) + more);
                },
                None => {},
            }
        }
        if index.len() > 0 {
            match compare_bytes(index.key_at(index.len() - 1), key.as_slice()) {
                KeyOrder::Before => {},
                _ => {
                    proof {
                        match rest {
                            Some(more) => {
                                let pairs = done.push((key@, data_offset)) + more;
                                let a = done.len() as int - 1;
                                assert(whole == Some(pairs));
                                assert(pairs[a] == done[a]);
                                assert(pairs[a + 1] == (key@, data_offset));
                                assert(!lex_lt(pairs[a].0, pairs[a + 1].0));
                                assert(!index_ascending(pairs));
                            },
                            None => {},
                        }
                    }
                    return Err(TreeError::corruption("index keys do not ascend"));
                },
            }
        }
        index.push(key, data_offset);
        pos = key_end + 8;
        i += 1;
    }
    proof {
        assert(index@ + Seq::<(Seq<u8>, u64)>::empty() =~= index@);
    }
    let _ = index.len();
    Ok(index)
}

/// Whether the data block at `offset` is sound and holds `key`.
pub open spec fn holds_key(bytes: Seq<u8>, offset: int, key: Seq<u8>) -> bool {
    match block_at(bytes, offset) {
        BlockScan::Good { key: found, value } => found == key,
        _ => false,
    }
}

/// Reads the record of `key` from the data block at `offset`.
///
/// Fails with `Corruption` where the block is cut short, its checksum is
/// wrong or it holds another key, and with `Serialization` where the value
/// does not decode.
pub fn read_data_entry(bytes: &[u8], offset: u64, key: &[u8]) -> (r: TreeResult<DataValue>)
    ensures
        match r {
            Ok(v) => entry_at(bytes@, offset as int, key@) == Some(v@),
            Err(e) => entry_at(bytes@, offset as int, key@) is None && (e is Corruption
                || e is Serialization),
        },
        r matches Err(e) ==> (e is Serialization <==> holds_key(bytes@, offset as int, key@)),
{
    let n = bytes.len();
    if offset > n as u64 || n as u64 - offset < 4 {
        return Err(TreeError::corruption("data block is cut short"));
    }
    let start = offset as usize;
    let key_len = read_u32(bytes, start);
    if ((n - start) as u64) < 8 + key_len as u64 {
        return Err(TreeError::corruption("data block is cut short"));
    }
    let key_end = start + 4 + key_len as usize;
    let value_len = read_u32(bytes, key_end);
    if ((n - start) as u64) < 12 + key_len as u64 + value_len as u64 {
        return Err(TreeError::corruption("data block is cut short"));
    }
    let value_end = key_end + 4 + value_len as usize;
    let found = slice_subrange(bytes, start + 4, key_end);
    let value = slice_subrange(bytes, key_end + 4, value_end);
    let mut covered: Vec<u8> = Vec::new();
    append_bytes(&mut covered, found);
    append_bytes(&mut covered, value);
    assert(covered@ =~= found@ + value@);
    if checksum(covered.as_slice()) != read_u32(bytes, value_end) {
        return Err(TreeError::corruption("data block has a wrong checksum"));
    }
    if !bytes_equal(found, key) {
        return Err(TreeError::corruption("data block holds another key"));
    }
    DataValue::decode(value)
}

/// Reads the serialized bloom filter from the block at `offset`.
pub fn read_bloom_filter(bytes: &[u8], offset: u64) -> (r: TreeResult<Vec<u8>>)
    ensures
        match r {
            Ok(bloom) => bloom_at(bytes@, offset as int) == Some(bloom@),
            Err(e) => e is Corruption && bloom_at(bytes@, offset as int) is None,
        },
{
    let n = bytes.len();
    if offset > n as u64 || n as u64 - offset < 4 {
        return Err(TreeError::corruption("bloom block is cut short"));
    }
    let start = offset as usize;
    let len = read_u32(bytes, start);
    if ((n - start) as u64) < 4 + len as u64 {
        return Err(TreeError::corruption("bloom block is cut short"));
    }
    Ok(copy_range(bytes, start + 4, start + 4 + len as usize))
}

/// Reads the index of a run after checking its header and footer.
pub fn load_index(bytes: &[u8]) -> (r: TreeResult<RunIndex>)
    ensures
        match r {
            Ok(index) => run_index(bytes@) == Some(index@),
            Err(e) => e is Corruption && run_index(bytes@) is None,
        },
{
    validate_header(bytes)?;
    let (index_offset, _) = read_footer(bytes)?;
    read_index(bytes, index_offset)
}

/// Looks a key up in the index block of a run: the offset of its data
/// block, if the run holds the key.
pub fn find_key_in_index(bytes: &[u8], index_offset: u64, key: &[u8]) -> (r: TreeResult<
    Option<u64>,
>)
    ensures
        match r {
            Ok(found) => index_at(bytes@, index_offset as int) matches Some(pairs)
                && index_ascending(pairs) && found == index_lookup(pairs, key@),
            Err(e) => e is Corruption && !(index_at(bytes@, index_offset as int) matches Some(
                pairs,
            ) && index_ascending(pairs)),
        },
{
    let index = read_index(bytes, index_offset)?;
    Ok(index.find(key))
}

/// What a lookup in a run gives: nothing where the run cannot be read;
/// otherwise the record of the key, or none where the run does not hold it.
pub open spec fn run_lookup(bytes: Seq<u8>, key: Seq<u8>) -> Option<Option<Record>> {
    match run_index(bytes) {
        None => None,
        Some(pairs) => match index_lookup(pairs, key) {
            None => Some(None),
            Some(offset) => match entry_at(bytes, offset as int, key) {
                Some(record) => Some(Some(record)),
                None => None,
            },
        },
    }
}

/// Every key of the index has a sound data block with a value that decodes.
pub open spec fn all_readable(bytes: Seq<u8>, pairs: IndexPairs) -> bool {
    forall|i: int|
        0 <= i < pairs.len() ==> entry_at(bytes, (#[trigger] pairs[i]).1 as int, pairs[i].0)
            is Some
}

/// The entries that the index leads to.
pub open spec fn entries_under(bytes: Seq<u8>, pairs: IndexPairs) -> Entries {
    Seq::new(
        pairs.len(),
        |i: int| (pairs[i].0, entry_at(bytes, pairs[i].1 as int, pairs[i].0)->0),
    )
}

/// The whole contents of a run, if all of it can be read.
pub open spec fn run_entries(bytes: Seq<u8>) -> Option<Entries> {
    match run_index(bytes) {
        None => None,
        Some(pairs) => if all_readable(bytes, pairs) {
            Some(entries_under(bytes, pairs))
        } else {
            None
        },
    }
}

/// The serialized bloom filter of a run.
pub open spec fn run_bloom(bytes: Seq<u8>) -> Option<Seq<u8>> {
    if !header_valid(bytes) {
        None
    } else {
        match footer_of(bytes) {
            None => None,
            Some((_, bloom_offset)) => bloom_at(bytes, bloom_offset as int),
        }
    }
}

/// Looks a key up in a run: header, footer, index, then the data block.
pub fn read_key_from_sstable(bytes: &[u8], key: &[u8]) -> (r: TreeResult<Option<DataValue>>)
    ensures
        match r {
            Ok(Some(v)) => run_lookup(bytes@, key@) == Some(Some(v@)),
            Ok(None) => run_lookup(bytes@, key@) == Some(None::<Record>),
            Err(e) => run_lookup(bytes@, key@) is None && (e is Corruption || e is Serialization),
        },
{
    let index = load_index(bytes)?;
    match index.find(key) {
        None => Ok(None),
        Some(offset) => {
            let v = read_data_entry(bytes, offset, key)?;
            Ok(Some(v))
        },
    }
}

/// Reads a whole run into a table.
pub fn load_sstable(bytes: &[u8]) -> (r: TreeResult<Table>)
    ensures
        match r {
            Ok(table) => run_entries(bytes@) == Some(table@),
            Err(e) => run_entries(bytes@) is None && (e is Corruption || e is Serialization),
        },
{
    let index = load_index(bytes)?;
    let n = index.len();
    let mut table = Table::new();
    let mut i: usize = 0;
    while i < n
        invariant
            i <= n,
            n == index@.len(),
            index_ascending(index@),
            run_index(bytes@) == Some(index@),
            table@.len() == i,
            forall|j: int|
                0 <= j < i ==> entry_at(bytes@, (#[trigger] index@[j]).1 as int, index@[j].0)
                    is Some,
            forall|j: int|
                0 <= j < i ==> (#[trigger] table@[j]) == (
                    index@[j].0,
                    entry_at(bytes@, index@[j].1 as int, index@[j].0)->0,
                ),
        decreases n - i,
    {
        let key = index.key_at(i);
        let value = read_data_entry(bytes, index.offset_at(i), key)?;
        let owned = copy_range(key, 0, key.len());
        assert(owned@ =~= key@);
        proof {
            if i > 0 {
                assert(table@.last() == table@[i as int - 1]);
                assert(lex_lt(index@[i as int - 1].0, index@[i as int].0));
            }
        }
        table.push(owned, value);
        i += 1;
    }
    assert(table@ =~= entries_under(bytes@, index@));
    Ok(table)
}

/// The first `i` pieces are the beginning of all the pieces.
pub proof fn lemma_joined_prefix(pieces: Seq<Seq<u8>>, i: int)
    requires
        0 <= i <= pieces.len(),
    ensures
        joined(pieces.take(i)).len() <= joined(pieces).len(),
        joined(pieces).subrange(0, joined(pieces.take(i)).len() as int) == joined(pieces.take(i)),
    decreases pieces.len() - i,
{
    if i == pieces.len() {
        assert(pieces.take(i) =~= pieces);
        assert(joined(pieces).subrange(0, joined(pieces).len() as int) =~= joined(pieces));
    } else {
        lemma_joined_prefix(pieces, i + 1);
        lemma_joined_take(pieces, i);
        let whole = joined(pieces);
        let longer = joined(pieces.take(i + 1));
        let shorter = joined(pieces.take(i));
        assert(whole.subrange(0, shorter.len() as int) =~= whole.subrange(
            0,
            longer.len() as int,
        ).subrange(0, shorter.len() as int));
        assert(longer.subrange(0, shorter.len() as int) =~= shorter);
    }
}

/// Piece `i` stands after the first `i` pieces.
pub proof fn lemma_piece_at(pieces: Seq<Seq<u8>>, i: int)
    requires
        0 <= i < pieces.len(),
    ensures
        joined(pieces.take(i)).len() + pieces[i].len() <= joined(pieces).len(),
        joined(pieces.take(i + 1)).len() == joined(pieces.take(i)).len() + pieces[i].len(),
        joined(pieces).subrange(
            joined(pieces.take(i)).len() as int,
            joined(pieces.take(i)).len() as int + pieces[i].len() as int,
        ) == pieces[i],
{
    lemma_joined_prefix(pieces, i + 1);
    lemma_joined_take(pieces, i);
    let whole = joined(pieces);
    let longer = joined(pieces.take(i + 1));
    let a = joined(pieces.take(i)).len() as int;
    let b = a + pieces[i].len();
    assert(whole.subrange(a, b) =~= whole.subrange(0, b).subrange(a, b));
    assert(longer.subrange(a, b) =~= pieces[i]);
}

/// A data block that stands whole at `offset` is read as its key and value.
pub proof fn lemma_block_found(bytes: Seq<u8>, offset: int, key: Seq<u8>, value: Seq<u8>)
    requires
        key.len() <= u32::MAX,
        value.len() <= u32::MAX,
        0 <= offset,
        offset + block_image(key, value).len() <= bytes.len(),
        bytes.subrange(offset, offset + block_image(key, value).len()) == block_image(key, value),
    ensures
        block_image(key, value).len() == 12 + key.len() + value.len(),
        block_at(bytes, offset) == (BlockScan::Good { key, value }),
{
    lemma_le_round_trip();
    let b = block_image(key, value);
    let n = b.len() as int;
    let k = key.len() as int;
    let v = value.len() as int;
    assert(b.subrange(0, 4) =~= le32(key.len() as u32));
    assert(b.subrange(4, 4 + k) =~= key);
    assert(b.subrange(4 + k, 8 + k) =~= le32(value.len() as u32));
    assert(b.subrange(8 + k, 8 + k + v) =~= value);
    assert(b.subrange(8 + k + v, 12 + k + v) =~= le32(crc32(key + value)));
    lemma_subrange_within(bytes, offset, n, 0, 4);
    lemma_subrange_within(bytes, offset, n, 4, 4 + k);
    lemma_subrange_within(bytes, offset, n, 4 + k, 8 + k);
    lemma_subrange_within(bytes, offset, n, 8 + k, 8 + k + v);
    lemma_subrange_within(bytes, offset, n, 8 + k + v, 12 + k + v);
    assert(u32_at(bytes, offset) == k);
    assert(u32_at(bytes, offset + 4 + k) == v);
}

/// An index entry that stands whole at `pos` is read as its key and offset.
pub proof fn lemma_index_entry_found(bytes: Seq<u8>, pos: int, key: Seq<u8>, offset: u64)
    requires
        key.len() <= u32::MAX,
        0 <= pos,
        pos + index_entry_image(key, offset).len() <= bytes.len(),
        bytes.subrange(pos, pos + index_entry_image(key, offset).len()) == index_entry_image(
            key,
            offset,
        ),
    ensures
        index_entry_image(key, offset).len() == 12 + key.len(),
        u32_at(bytes, pos) == key.len(),
        bytes.subrange(pos + 4, pos + 4 + key.len()) == key,
        u64_at(bytes, pos + 4 + key.len()) == offset,
{
    lemma_le_round_trip();
    let e = index_entry_image(key, offset);
    let n = e.len() as int;
    let k = key.len() as int;
    assert(e.subrange(0, 4) =~= le32(key.len() as u32));
    assert(e.subrange(4, 4 + k) =~= key);
    assert(e.subrange(4 + k, 12 + k) =~= le64(offset));
    lemma_subrange_within(bytes, pos, n, 0, 4);
    lemma_subrange_within(bytes, pos, n, 4, 4 + k);
    lemma_subrange_within(bytes, pos, n, 4 + k, 12 + k);
}

/// Index entries that stand one after the other from `pos` on are read back
/// from entry `from` on.
pub proof fn lemma_index_entries_found(bytes: Seq<u8>, pos: int, raw: RawEntries, from: int)
    requires
        0 <= from <= raw.len(),
        forall|i: int| 0 <= i < raw.len() ==> (#[trigger] raw[i]).0.len() <= u32::MAX,
        0 <= pos,
        pos + joined(index_pieces(raw)).len() <= bytes.len(),
        bytes.subrange(pos, pos + joined(index_pieces(raw)).len()) == joined(index_pieces(raw)),
    ensures
        index_entries_at(
            bytes,
            pos + joined(index_pieces(raw).take(from)).len(),
            (raw.len() - from) as nat,
        ) == Some(index_of(raw).skip(from)),
    decreases raw.len() - from,
{
    let pieces = index_pieces(raw);
    let whole = joined(pieces);
    if from == raw.len() {
        assert(index_of(raw).skip(from) =~= Seq::<(Seq<u8>, u64)>::empty());
    } else {
        lemma_index_entries_found(bytes, pos, raw, from + 1);
        lemma_piece_at(pieces, from);
        let a = joined(pieces.take(from)).len() as int;
        let key = raw[from].0;
        let offset = block_offset(raw, from) as u64;
        let piece = index_entry_image(key, offset);
        assert(pieces[from] == piece);
        lemma_subrange_within(bytes, pos, whole.len() as int, a, a + piece.len());
        lemma_index_entry_found(bytes, pos + a, key, offset);
        assert(seq![(key, offset)] + index_of(raw).skip(from + 1) =~= index_of(raw).skip(from));
    }
}

/// The parts of a run stand where the footer and the index say.
pub proof fn lemma_run_layout(raw: RawEntries, bloom: Seq<u8>)
    requires
        run_fits(raw, bloom),
        run_image(raw, bloom).len() <= u64::MAX,
    ensures
        header_valid(run_image(raw, bloom)),
        footer_of(run_image(raw, bloom)) == Some(
            (
                (16 + joined(block_pieces(raw)).len()) as u64,
                (16 + joined(block_pieces(raw)).len() + index_image(raw).len()) as u64,
            ),
        ),
        index_at(run_image(raw, bloom), 16 + joined(block_pieces(raw)).len() as int) == Some(
            index_of(raw),
        ),
        run_bloom(run_image(raw, bloom)) == Some(bloom),
        forall|i: int|
            0 <= i < raw.len() ==> 0 <= #[trigger] block_offset(raw, i) <= u64::MAX && block_at(
                run_image(raw, bloom),
                block_offset(raw, i),
            ) == (BlockScan::Good { key: raw[i].0, value: raw[i].1 }),
{
    lemma_le_round_trip();
    let image = run_image(raw, bloom);
    let data = joined(block_pieces(raw));
    let index = index_image(raw);
    let io = 16 + data.len() as int;
    let bo = io + index.len();
    let n = image.len() as int;
    let head = header_image() + data + index + bloom_block_image(bloom);
    assert(image.subrange(0, 4) =~= header_magic());
    assert(image.subrange(4, 8) =~= le32(2));
    assert(image.subrange(n - 4, n) =~= footer_magic());
    assert(image.subrange(n - 20, n - 12) =~= le64(io as u64));
    assert(image.subrange(n - 12, n - 4) =~= le64(bo as u64));
    assert(image.subrange(bo, bo + 4) =~= le32(bloom.len() as u32));
    assert(image.subrange(bo + 4, bo + 4 + bloom.len()) =~= bloom);
    assert(image.subrange(io, io + 4) =~= le32(raw.len() as u32));
    assert(image.subrange(io + 4, io + 4 + joined(index_pieces(raw)).len()) =~= joined(
        index_pieces(raw),
    ));
    assert(index_pieces(raw).take(0) =~= Seq::<Seq<u8>>::empty());
    lemma_index_entries_found(image, io + 4, raw, 0);
    assert(index_of(raw).skip(0) =~= index_of(raw));
    assert(image.subrange(16, 16 + data.len() as int) =~= data);
    assert forall|i: int| 0 <= i < raw.len() implies 0 <= #[trigger] block_offset(raw, i)
        <= u64::MAX && block_at(image, block_offset(raw, i)) == (BlockScan::Good {
        key: raw[i].0,
        value: raw[i].1,
    }) by {
        let pieces = block_pieces(raw);
        lemma_piece_at(pieces, i);
        let a = joined(pieces.take(i)).len() as int;
        let piece = block_image(raw[i].0, raw[i].1);
        assert(pieces[i] == piece);
        lemma_subrange_within(image, 16, data.len() as int, a, a + piece.len());
        lemma_block_found(image, 16 + a, raw[i].0, raw[i].1);
    }
}

/// Reading undoes writing: from the run that `write_sstable` makes of a
/// table, the index, every entry and every lookup come back as they were
/// written, and every block passes its checksum.
pub proof fn lemma_run_round_trip(entries: Entries, bloom: Seq<u8>)
    requires
        keys_ascending(entries),
        run_fits(raw_of(entries), bloom),
        run_image(raw_of(entries), bloom).len() <= u64::MAX,
    ensures
        run_index(run_image(raw_of(entries), bloom)) == Some(index_of(raw_of(entries))),
        run_entries(run_image(raw_of(entries), bloom)) == Some(entries),
        run_bloom(run_image(raw_of(entries), bloom)) == Some(bloom),
        forall|key: Seq<u8>|
            #[trigger] run_lookup(run_image(raw_of(entries), bloom), key) == Some(
                if crate::table::to_map(entries).contains_key(key) {
                    Some(crate::table::to_map(entries)[key])
                } else {
                    None
                },
            ),
{
    let raw = raw_of(entries);
    let image = run_image(raw, bloom);
    let pairs = index_of(raw);
    lemma_run_layout(raw, bloom);
    assert forall|i: int, j: int| 0 <= i < j < pairs.len() implies lex_lt(
        #[trigger] pairs[i].0,
        #[trigger] pairs[j].0,
    ) by {
        assert(lex_lt(entries[i].0, entries[j].0));
    }
    assert(run_index(image) == Some(pairs));
    assert forall|i: int| 0 <= i < pairs.len() implies entry_at(
        image,
        (#[trigger] pairs[i]).1 as int,
        pairs[i].0,
    ) == Some(entries[i].1) by {
        assert(block_offset(raw, i) <= u64::MAX);
        assert(raw[i].1.len() <= u32::MAX);
        crate::data_value::lemma_header_layout(entries[i].1);
        crate::data_value::lemma_decode_encode(entries[i].1);
    }
    assert(entries_under(image, pairs) =~= entries);
    assert forall|key: Seq<u8>| #[trigger] run_lookup(image, key) == Some(
        if crate::table::to_map(entries).contains_key(key) {
            Some(crate::table::to_map(entries)[key])
        } else {
            None
        },
    ) by {
        if crate::table::has_key(entries, key) {
            let i = crate::table::position(entries, key);
            crate::table::lemma_position(entries, i);
            assert(pairs[i].0 == key);
            lemma_index_lookup(pairs, i);
        } else {
            if exists|i: int| 0 <= i < pairs.len() && (#[trigger] pairs[i]).0 == key {
                let i = choose|i: int| 0 <= i < pairs.len() && (#[trigger] pairs[i]).0 == key;
                assert(entries[i].0 == key);
            }
        }
    }
}

/// A run that can be read in full answers every lookup as the table of
/// its entries would, and its entries stand in ascending key order.
pub proof fn lemma_readable_run(bytes: Seq<u8>, key: Seq<u8>)
    requires
        run_entries(bytes) is Some,
    ensures
        keys_ascending(run_entries(bytes)->0),
        run_lookup(bytes, key) == Some(
            if crate::table::to_map(run_entries(bytes)->0).contains_key(key) {
                Some(crate::table::to_map(run_entries(bytes)->0)[key])
            } else {
                None
            },
        ),
{
    let pairs = run_index(bytes)->0;
    let entries = run_entries(bytes)->0;
    assert forall|i: int, j: int| 0 <= i < j < entries.len() implies lex_lt(
        #[trigger] entries[i].0,
        #[trigger] entries[j].0,
    ) by {
        assert(lex_lt(pairs[i].0, pairs[j].0));
    }
    if exists|i: int| 0 <= i < pairs.len() && (#[trigger] pairs[i]).0 == key {
        let i = choose|i: int| 0 <= i < pairs.len() && (#[trigger] pairs[i]).0 == key;
        lemma_index_lookup(pairs, i);
        assert(entry_at(bytes, pairs[i].1 as int, pairs[i].0) is Some);
        assert(entries[i].0 == key);
        crate::table::lemma_position(entries, i);
    } else {
        if crate::table::has_key(entries, key) {
            let i = crate::table::position(entries, key);
            assert(pairs[i].0 == key);
        }
    }
}

} // verus!
