//! Byte strings: their lexicographic order, and little-endian integers
//! written into and read out of them.

use vstd::bytes::*;
use vstd::prelude::*;
use vstd::slice::*;

verus! {

/// How one byte string stands to another in lexicographic order.
#[derive(Clone, Copy, Debug, PartialEq, Eq, Structural)]
pub enum KeyOrder {
    Before,
    Same,
    After,
}

/// The first index at or after `i` where `a` and `b` differ or one of them ends.
pub open spec fn mismatch(a: Seq<u8>, b: Seq<u8>, i: int) -> int
    decreases a.len() - i,
{
    if i < 0 || i >= a.len() || i >= b.len() || a[i] != b[i] {
        i
    } else {
        mismatch(a, b, i + 1)
    }
}

/// `a` comes strictly before `b`: at the first difference `a` has the smaller
/// byte, or `a` is a proper prefix of `b`.
pub open spec fn lex_lt(a: Seq<u8>, b: Seq<u8>) -> bool {
    let m = mismatch(a, b, 0);
    m < b.len() && (m >= a.len() || a[m] < b[m])
}

/// What `mismatch` finds: the strings agree before it, and at it they differ
/// or one has ended.
pub proof fn lemma_mismatch(a: Seq<u8>, b: Seq<u8>, i: int)
    requires
        0 <= i <= a.len(),
        i <= b.len(),
    ensures
        i <= mismatch(a, b, i) <= a.len(),
        mismatch(a, b, i) <= b.len(),
        forall|j: int| i <= j < mismatch(a, b, i) ==> a[j] == b[j],
        mismatch(a, b, i) < a.len() && mismatch(a, b, i) < b.len() ==> a[mismatch(a, b, i)]
            != b[mismatch(a, b, i)],
    decreases a.len() - i,
{
    if i >= a.len() || i >= b.len() || a[i] != b[i] {
    } else {
        lemma_mismatch(a, b, i + 1);
    }
}

/// An index with the properties of the first difference is the first difference.
pub proof fn lemma_mismatch_is(a: Seq<u8>, b: Seq<u8>, i: int, k: int)
    requires
        0 <= i <= k,
        k <= a.len(),
        k <= b.len(),
        forall|j: int| i <= j < k ==> a[j] == b[j],
        k < a.len() && k < b.len() ==> a[k] != b[k],
    ensures
        mismatch(a, b, i) == k,
    decreases k - i,
{
    if i < k {
        lemma_mismatch_is(a, b, i + 1, k);
    }
}

/// No string comes before itself.
pub proof fn lemma_lex_irreflexive(a: Seq<u8>)
    ensures
        !lex_lt(a, a),
{
    lemma_mismatch_is(a, a, 0, a.len() as int);
}

/// Of two distinct strings exactly one comes before the other.
pub proof fn lemma_lex_trichotomy(a: Seq<u8>, b: Seq<u8>)
    ensures
        lex_lt(a, b) || lex_lt(b, a) || a == b,
        !(lex_lt(a, b) && lex_lt(b, a)),
        !(lex_lt(a, b) && a == b),
{
    lemma_mismatch(a, b, 0);
    let m = mismatch(a, b, 0);
    lemma_mismatch_is(b, a, 0, m);
    if m == a.len() && m == b.len() {
        assert(a =~= b);
    }
    if a == b {
        lemma_lex_irreflexive(a);
    }
}

/// The order is transitive.
pub proof fn lemma_lex_transitive(a: Seq<u8>, b: Seq<u8>, c: Seq<u8>)
    requires
        lex_lt(a, b),
        lex_lt(b, c),
    ensures
        lex_lt(a, c),
{
    lemma_mismatch(a, b, 0);
    lemma_mismatch(b, c, 0);
    let m1 = mismatch(a, b, 0);
    let m2 = mismatch(b, c, 0);
    let k = if m1 <= m2 { m1 } else { m2 };
    assert forall|j: int| 0 <= j < k implies a[j] == c[j] by {
        assert(a[j] == b[j]);
        assert(b[j] == c[j]);
    }
    if k < a.len() && k < c.len() {
        if m1 < m2 {
            assert(b[k] == c[k]);
        } else if m2 < m1 {
            assert(a[k] == b[k]);
        }
    }
    lemma_mismatch_is(a, c, 0, k);
}

/// Compares two byte strings lexicographically.
pub fn compare_bytes(a: &[u8], b: &[u8]) -> (o: KeyOrder)
    ensures
        o == KeyOrder::Before <==> lex_lt(a@, b@),
        o == KeyOrder::Same <==> a@ == b@,
        o == KeyOrder::After <==> lex_lt(b@, a@),
{
    let mut i: usize = 0;
    while i < a.len() && i < b.len() && a[i] == b[i]
        invariant
            i <= a.len(),
            i <= b.len(),
            forall|j: int| 0 <= j < i ==> a@[j] == b@[j],
        decreases a.len() - i,
    {
        i += 1;
    }
    proof {
        lemma_mismatch_is(a@, b@, 0, i as int);
        lemma_mismatch_is(b@, a@, 0, i as int);
        lemma_lex_trichotomy(a@, b@);
    }
    if i == a.len() {
        if i == b.len() {
            assert(a@ =~= b@);
            KeyOrder::Same
        } else {
            KeyOrder::Before
        }
    } else if i == b.len() {
        KeyOrder::After
    } else if a[i] < b[i] {
        KeyOrder::Before
    } else {
        KeyOrder::After
    }
}

/// Whether two byte strings hold the same bytes.
pub fn bytes_equal(a: &[u8], b: &[u8]) -> (same: bool)
    ensures
        same == (a@ == b@),
{
    if a.len() != b.len() {
        return false;
    }
    let mut i: usize = 0;
    while i < a.len()
        invariant
            i <= a.len(),
            a.len() == b.len(),
            forall|j: int| 0 <= j < i ==> a@[j] == b@[j],
        decreases a.len() - i,
    {
        if a[i] != b[i] {
            return false;
        }
        i += 1;
    }
    assert(a@ =~= b@);
    true
}

/// Appends `src` to `buf`.
pub fn append_bytes(buf: &mut Vec<u8>, src: &[u8])
    ensures
        final(buf)@ == old(buf)@ + src@,
{
    let mut i: usize = 0;
    while i < src.len()
        invariant
            i <= src.len(),
            buf@ == old(buf)@ + src@.subrange(0, i as int),
        decreases src.len() - i,
    {
        buf.push(src[i]);
        i += 1;
    }
    assert(src@.subrange(0, src.len() as int) =~= src@);
}

/// A fresh copy of `src[from..to]`.
pub fn copy_range(src: &[u8], from: usize, to: usize) -> (out: Vec<u8>)
    requires
        from <= to <= src.len(),
    ensures
        out@ == src@.subrange(from as int, to as int),
{
    slice_to_vec(slice_subrange(src, from, to))
}

/// A part of a part of a string is a part of the string.
pub proof fn lemma_subrange_within(s: Seq<u8>, pos: int, n: int, a: int, b: int)
    requires
        0 <= pos,
        0 <= n,
        pos + n <= s.len(),
        0 <= a <= b <= n,
    ensures
        s.subrange(pos, pos + n).subrange(a, b) == s.subrange(pos + a, pos + b),
{
    assert(s.subrange(pos, pos + n).subrange(a, b) =~= s.subrange(pos + a, pos + b));
}

/// The four bytes of `x`, least significant first.
pub open spec fn le32(x: u32) -> Seq<u8> {
    spec_u32_to_le_bytes(x)
}

/// The eight bytes of `x`, least significant first.
pub open spec fn le64(x: u64) -> Seq<u8> {
    spec_u64_to_le_bytes(x)
}

/// The integer whose four little-endian bytes stand at `at` in `s`.
pub open spec fn u32_at(s: Seq<u8>, at: int) -> u32 {
    spec_u32_from_le_bytes(s.subrange(at, at + 4))
}

/// The integer whose eight little-endian bytes stand at `at` in `s`.
pub open spec fn u64_at(s: Seq<u8>, at: int) -> u64 {
    spec_u64_from_le_bytes(s.subrange(at, at + 8))
}

/// An integer written little-endian has its width, and reads back as itself;
/// and bytes read as an integer write back as those bytes.
pub proof fn lemma_le_round_trip()
    ensures
        forall|x: u32| #[trigger] le32(x).len() == 4 && spec_u32_from_le_bytes(le32(x)) == x,
        forall|x: u64| #[trigger] le64(x).len() == 8 && spec_u64_from_le_bytes(le64(x)) == x,
        forall|s: Seq<u8>| s.len() == 4 ==> #[trigger] le32(spec_u32_from_le_bytes(s)) == s,
        forall|s: Seq<u8>| s.len() == 8 ==> #[trigger] le64(spec_u64_from_le_bytes(s)) == s,
{
    lemma_auto_spec_u32_to_from_le_bytes();
    lemma_auto_spec_u64_to_from_le_bytes();
}

/// Appends the four little-endian bytes of `x`.
pub fn push_u32(buf: &mut Vec<u8>, x: u32)
    ensures
        final(buf)@ == old(buf)@ + le32(x),
{
    let b = u32_to_le_bytes(x);
    append_bytes(buf, b.as_slice());
}

/// Appends the eight little-endian bytes of `x`.
pub fn push_u64(buf: &mut Vec<u8>, x: u64)
    ensures
        final(buf)@ == old(buf)@ + le64(x),
{
    let b = u64_to_le_bytes(x);
    append_bytes(buf, b.as_slice());
}

/// Reads the little-endian integer at `at`.
pub fn read_u32(src: &[u8], at: usize) -> (x: u32)
    requires
        at + 4 <= src.len(),
    ensures
        x == u32_at(src@, at as int),
{
    u32_from_le_bytes(slice_subrange(src, at, at + 4))
}

/// Reads the little-endian integer at `at`.
pub fn read_u64(src: &[u8], at: usize) -> (x: u64)
    requires
        at + 8 <= src.len(),
    ensures
        x == u64_at(src@, at as int),
{
    u64_from_le_bytes(slice_subrange(src, at, at + 8))
}

} // verus!
