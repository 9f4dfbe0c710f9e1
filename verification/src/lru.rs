//! A cache that forgets what was used least recently.
//!
//! The slots stand in a vector from the least recently used to the most
//! recently used. A slot is found by the path of a sorted run and a key
//! within it. The cache is bounded twice, by the number of slots and by
//! the sum of their sizes, and both bounds hold whenever an operation
//! returns.

use crate::bytes::bytes_equal;
use std::collections::HashMap;
use vstd::prelude::*;
use vstd::string::*;

verus! {

/// One slot of a cache.
pub struct Slot<V> {
    pub path: String,
    pub key: Vec<u8>,
    pub value: V,
    pub size: usize,
}

/// One slot as a mathematical value.
pub struct SlotView<V> {
    pub path: Seq<char>,
    pub key: Seq<u8>,
    pub value: V,
    pub size: nat,
}

/// Whether a slot is the one for `path` and `key`.
pub open spec fn is_for<V>(slot: SlotView<V>, path: Seq<char>, key: Seq<u8>) -> bool {
    slot.path == path && slot.key == key
}

/// No two slots are for the same path and key.
pub open spec fn distinct<V>(s: Seq<SlotView<V>>) -> bool {
    forall|i: int, j: int|
        0 <= i < j < s.len() ==> !is_for(#[trigger] s[i], (#[trigger] s[j]).path, s[j].key)
}

/// The sum of the sizes of the slots.
pub open spec fn weight<V>(s: Seq<SlotView<V>>) -> nat
    decreases s.len(),
{
    if s.len() == 0 {
        0
    } else {
        weight(s.drop_last()) + s.last().size
    }
}

/// Whether some slot is for `path` and `key`.
pub open spec fn holds<V>(s: Seq<SlotView<V>>, path: Seq<char>, key: Seq<u8>) -> bool {
    exists|i: int| 0 <= i < s.len() && is_for(#[trigger] s[i], path, key)
}

/// Where the slot for `path` and `key` stands, if there is one.
pub open spec fn place<V>(s: Seq<SlotView<V>>, path: Seq<char>, key: Seq<u8>) -> int {
    choose|i: int| 0 <= i < s.len() && is_for(#[trigger] s[i], path, key)
}

/// The slots without the one for `path` and `key`.
pub open spec fn without<V>(s: Seq<SlotView<V>>, path: Seq<char>, key: Seq<u8>) -> Seq<
    SlotView<V>,
> {
    if holds(s, path, key) {
        s.remove(place(s, path, key))
    } else {
        s
    }
}

/// The slot for `path` and `key` moved to the most recently used end.
pub open spec fn touched<V>(s: Seq<SlotView<V>>, path: Seq<char>, key: Seq<u8>) -> Seq<
    SlotView<V>,
> {
    if holds(s, path, key) {
        s.remove(place(s, path, key)).push(s[place(s, path, key)])
    } else {
        s
    }
}

/// Whether there is room for one more slot of `size`.
pub open spec fn has_room<V>(s: Seq<SlotView<V>>, capacity: nat, limit: nat, size: nat) -> bool {
    s.len() < capacity && weight(s) + size <= limit
}

/// The slots after the least recently used ones were evicted, one by one,
/// until there is room for a slot of `size` or nothing is left.
pub open spec fn make_room<V>(s: Seq<SlotView<V>>, capacity: nat, limit: nat, size: nat) -> Seq<
    SlotView<V>,
>
    decreases s.len(),
{
    if s.len() == 0 || has_room(s, capacity, limit, size) {
        s
    } else {
        make_room(s.skip(1), capacity, limit, size)
    }
}

/// The slots after `slot` was put: an older slot for the same path and key
/// is dropped, room is made, and the slot goes in at the most recently used
/// end if there is room for it.
pub open spec fn after_put<V>(s: Seq<SlotView<V>>, capacity: nat, limit: nat, slot: SlotView<V>) -> Seq<
    SlotView<V>,
> {
    let cleared = make_room(without(s, slot.path, slot.key), capacity, limit, slot.size);
    if has_room(cleared, capacity, limit, slot.size) {
        cleared.push(slot)
    } else {
        cleared
    }
}

/// Whether the slots are within both bounds.
pub open spec fn within<V>(s: Seq<SlotView<V>>, capacity: nat, limit: nat) -> bool {
    s.len() <= capacity && weight(s) <= limit
}

/// The slots after the least recently used ones were evicted until both
/// bounds hold.
pub open spec fn shrunk<V>(s: Seq<SlotView<V>>, capacity: nat, limit: nat) -> Seq<SlotView<V>>
    decreases s.len(),
{
    if s.len() == 0 || within(s, capacity, limit) {
        s
    } else {
        shrunk(s.skip(1), capacity, limit)
    }
}

/// The slots of other paths than `path`, in their order.
pub open spec fn off_path<V>(s: Seq<SlotView<V>>, path: Seq<char>) -> Seq<SlotView<V>>
    decreases s.len(),
{
    if s.len() == 0 {
        s
    } else if s.last().path == path {
        off_path(s.drop_last(), path)
    } else {
        off_path(s.drop_last(), path).push(s.last())
    }
}

/// The slots with every path `from` replaced by `to`.
pub open spec fn moved<V>(s: Seq<SlotView<V>>, from: Seq<char>, to: Seq<char>) -> Seq<SlotView<V>> {
    Seq::new(
        s.len(),
        |i: int|
            if s[i].path == from {
                SlotView { path: to, key: s[i].key, value: s[i].value, size: s[i].size }
            } else {
                s[i]
            },
    )
}

/// The slots after a run was renamed: what was cached under the new path
/// is stale and dropped, and what was cached under the old path is now
/// cached under the new one.
pub open spec fn repathed<V>(s: Seq<SlotView<V>>, from: Seq<char>, to: Seq<char>) -> Seq<
    SlotView<V>,
> {
    if from == to {
        s
    } else {
        moved(off_path(s, to), from, to)
    }
}

/// What is left off a path was there before, in distinct slots, and weighs
/// no more; and nothing of the path is left.
pub proof fn lemma_off_path<V>(s: Seq<SlotView<V>>, path: Seq<char>)
    requires
        distinct(s),
    ensures
        distinct(off_path(s, path)),
        weight(off_path(s, path)) <= weight(s),
        off_path(s, path).len() <= s.len(),
        forall|i: int|
            0 <= i < off_path(s, path).len() ==> (#[trigger] off_path(s, path)[i]).path != path,
        forall|p: Seq<char>, k: Seq<u8>|
            holds(off_path(s, path), p, k) ==> #[trigger] holds(s, p, k),
    decreases s.len(),
{
    if s.len() > 0 {
        let head = s.drop_last();
        assert forall|a: int, b: int| 0 <= a < b < head.len() implies !is_for(
            #[trigger] head[a],
            (#[trigger] head[b]).path,
            head[b].key,
        ) by {
            assert(head[a] == s[a] && head[b] == s[b]);
        }
        lemma_off_path(head, path);
        let kept = off_path(head, path);
        assert forall|p: Seq<char>, k: Seq<u8>| holds(kept, p, k) implies #[trigger] holds(
            s,
            p,
            k,
        ) by {
            assert(holds(head, p, k));
            let i = place(head, p, k);
            assert(s[i] == head[i]);
        }
        if s.last().path != path {
            let last = s.last();
            if holds(kept, last.path, last.key) {
                assert(holds(head, last.path, last.key));
                let i = place(head, last.path, last.key);
                assert(head[i] == s[i]);
                assert(!is_for(s[i], s[s.len() - 1].path, s[s.len() - 1].key));
            }
            lemma_distinct_push(kept, last);
            lemma_weight_push(kept, last);
            assert forall|p: Seq<char>, k: Seq<u8>| holds(kept.push(last), p, k) implies #[trigger] holds(
                s,
                p,
                k,
            ) by {
                let i = place(kept.push(last), p, k);
                if i < kept.len() {
                    assert(kept.push(last)[i] == kept[i]);
                    assert(holds(kept, p, k));
                } else {
                    assert(is_for(s[s.len() - 1], p, k));
                }
            }
        }
    }
}

/// Renaming a path changes no weight.
pub proof fn lemma_moved_weight<V>(s: Seq<SlotView<V>>, from: Seq<char>, to: Seq<char>)
    ensures
        weight(moved(s, from, to)) == weight(s),
        moved(s, from, to).len() == s.len(),
    decreases s.len(),
{
    if s.len() > 0 {
        lemma_moved_weight(s.drop_last(), from, to);
        assert(moved(s, from, to).drop_last() =~= moved(s.drop_last(), from, to));
    }
}

/// After a run was renamed the slots are distinct and weigh no more.
pub proof fn lemma_repathed<V>(s: Seq<SlotView<V>>, from: Seq<char>, to: Seq<char>)
    requires
        distinct(s),
    ensures
        distinct(repathed(s, from, to)),
        weight(repathed(s, from, to)) <= weight(s),
        repathed(s, from, to).len() <= s.len(),
{
    if from != to {
        lemma_off_path(s, to);
        let t = off_path(s, to);
        lemma_moved_weight(t, from, to);
        let m = moved(t, from, to);
        assert forall|a: int, b: int| 0 <= a < b < m.len() implies !is_for(
            #[trigger] m[a],
            (#[trigger] m[b]).path,
            m[b].key,
        ) by {
            assert(!is_for(t[a], t[b].path, t[b].key));
            assert(t[a].path != to && t[b].path != to);
        }
    }
}

/// Adding a slot adds its size.
pub proof fn lemma_weight_push<V>(s: Seq<SlotView<V>>, slot: SlotView<V>)
    ensures
        weight(s.push(slot)) == weight(s) + slot.size,
{
    assert(s.push(slot).drop_last() =~= s);
}

/// Taking a slot out takes its size out.
pub proof fn lemma_weight_remove<V>(s: Seq<SlotView<V>>, i: int)
    requires
        0 <= i < s.len(),
    ensures
        weight(s.remove(i)) + s[i].size == weight(s),
    decreases s.len(),
{
    if i == s.len() - 1 {
        assert(s.remove(i) =~= s.drop_last());
    } else {
        lemma_weight_remove(s.drop_last(), i);
        assert(s.remove(i).drop_last() =~= s.drop_last().remove(i));
        assert(s.remove(i).last() == s.last());
    }
}

/// Taking a slot out of distinct slots leaves distinct slots that do not
/// hold its path and key.
pub proof fn lemma_distinct_remove<V>(s: Seq<SlotView<V>>, i: int)
    requires
        distinct(s),
        0 <= i < s.len(),
    ensures
        distinct(s.remove(i)),
        !holds(s.remove(i), s[i].path, s[i].key),
{
    let t = s.remove(i);
    assert forall|a: int, b: int| 0 <= a < b < t.len() implies !is_for(
        #[trigger] t[a],
        (#[trigger] t[b]).path,
        t[b].key,
    ) by {
        let x = if a < i { a } else { a + 1 };
        let y = if b < i { b } else { b + 1 };
        assert(t[a] == s[x] && t[b] == s[y]);
    }
    if holds(t, s[i].path, s[i].key) {
        let a = place(t, s[i].path, s[i].key);
        let x = if a < i { a } else { a + 1 };
        assert(t[a] == s[x]);
        if x < i {
            assert(!is_for(s[x], s[i].path, s[i].key));
        } else {
            assert(!is_for(s[i], s[x].path, s[x].key));
        }
    }
}

/// In distinct slots, the slot for a path and key stands at one place only.
pub proof fn lemma_place<V>(s: Seq<SlotView<V>>, i: int)
    requires
        distinct(s),
        0 <= i < s.len(),
    ensures
        holds(s, s[i].path, s[i].key),
        place(s, s[i].path, s[i].key) == i,
{
    assert(is_for(s[i], s[i].path, s[i].key));
    let p = place(s, s[i].path, s[i].key);
    if p < i {
        assert(!is_for(s[p], s[i].path, s[i].key));
    } else if i < p {
        assert(!is_for(s[i], s[p].path, s[p].key));
    }
}

/// Pushing a slot whose path and key are not held keeps the slots distinct.
pub proof fn lemma_distinct_push<V>(s: Seq<SlotView<V>>, slot: SlotView<V>)
    requires
        distinct(s),
        !holds(s, slot.path, slot.key),
    ensures
        distinct(s.push(slot)),
{
    let t = s.push(slot);
    assert forall|a: int, b: int| 0 <= a < b < t.len() implies !is_for(
        #[trigger] t[a],
        (#[trigger] t[b]).path,
        t[b].key,
    ) by {
        if b < s.len() {
            assert(t[a] == s[a] && t[b] == s[b]);
        } else {
            assert(t[a] == s[a]);
            if is_for(s[a], slot.path, slot.key) {
                assert(holds(s, slot.path, slot.key));
            }
        }
    }
}

/// Dropping the least recently used slot keeps the rest distinct, and keeps
/// out what was not held.
pub proof fn lemma_distinct_skip<V>(s: Seq<SlotView<V>>, path: Seq<char>, key: Seq<u8>)
    requires
        distinct(s),
        s.len() > 0,
    ensures
        distinct(s.skip(1)),
        weight(s.skip(1)) + s[0].size == weight(s),
        !holds(s, path, key) ==> !holds(s.skip(1), path, key),
{
    assert(s.skip(1) =~= s.remove(0));
    lemma_distinct_remove(s, 0);
    lemma_weight_remove(s, 0);
    if holds(s.skip(1), path, key) {
        let a = place(s.skip(1), path, key);
        assert(s.skip(1)[a] == s[a + 1]);
        assert(is_for(s[a + 1], path, key));
    }
}

/// Making room keeps the slots distinct; what it leaves is within the
/// bounds or empty; and it keeps out what was not held.
pub proof fn lemma_make_room<V>(
    s: Seq<SlotView<V>>,
    capacity: nat,
    limit: nat,
    size: nat,
    path: Seq<char>,
    key: Seq<u8>,
)
    requires
        distinct(s),
        within(s, capacity, limit),
    ensures
        distinct(make_room(s, capacity, limit, size)),
        within(make_room(s, capacity, limit, size), capacity, limit),
        make_room(s, capacity, limit, size).len() == 0 || has_room(
            make_room(s, capacity, limit, size),
            capacity,
            limit,
            size,
        ),
        !holds(s, path, key) ==> !holds(make_room(s, capacity, limit, size), path, key),
    decreases s.len(),
{
    if s.len() == 0 || has_room(s, capacity, limit, size) {
    } else {
        lemma_distinct_skip(s, path, key);
        lemma_make_room(s.skip(1), capacity, limit, size, path, key);
    }
}

/// Shrinking keeps the slots distinct, and what it leaves is within the
/// bounds.
pub proof fn lemma_shrunk<V>(s: Seq<SlotView<V>>, capacity: nat, limit: nat)
    requires
        distinct(s),
    ensures
        distinct(shrunk(s, capacity, limit)),
        within(shrunk(s, capacity, limit), capacity, limit),
    decreases s.len(),
{
    if s.len() == 0 || within(s, capacity, limit) {
    } else {
        lemma_distinct_skip(s, Seq::empty(), Seq::empty());
        lemma_shrunk(s.skip(1), capacity, limit);
    }
}

/// After a put both bounds hold, the slots are distinct, and a slot that
/// fits on its own is held as the most recently used one.
pub proof fn lemma_after_put<V>(s: Seq<SlotView<V>>, capacity: nat, limit: nat, slot: SlotView<V>)
    requires
        distinct(s),
        within(s, capacity, limit),
    ensures
        distinct(after_put(s, capacity, limit, slot)),
        within(after_put(s, capacity, limit, slot), capacity, limit),
        capacity >= 1 && slot.size <= limit ==> after_put(s, capacity, limit, slot).len() > 0
            && after_put(s, capacity, limit, slot).last() == slot,
{
    let cleared_first = without(s, slot.path, slot.key);
    if holds(s, slot.path, slot.key) {
        let i = place(s, slot.path, slot.key);
        lemma_distinct_remove(s, i);
        lemma_weight_remove(s, i);
    }
    lemma_make_room(cleared_first, capacity, limit, slot.size, slot.path, slot.key);
    let cleared = make_room(cleared_first, capacity, limit, slot.size);
    if has_room(cleared, capacity, limit, slot.size) {
        lemma_weight_push(cleared, slot);
        lemma_distinct_push(cleared, slot);
    }
}

/// Every slot has the property `p`.
pub open spec fn every<V>(s: Seq<SlotView<V>>, p: spec_fn(SlotView<V>) -> bool) -> bool {
    forall|i: int| 0 <= i < s.len() ==> p(#[trigger] s[i])
}

/// Where `p` holds of every slot and gives `q`, `q` holds of every slot.
pub proof fn lemma_every_implies<V>(
    s: Seq<SlotView<V>>,
    p: spec_fn(SlotView<V>) -> bool,
    q: spec_fn(SlotView<V>) -> bool,
)
    requires
        every(s, p),
        forall|slot: SlotView<V>| #[trigger] p(slot) ==> q(slot),
    ensures
        every(s, q),
{
}

/// What holds of every slot holds of every slot that is left after one was
/// taken out or moved to the end.
pub proof fn lemma_every_touched<V>(
    s: Seq<SlotView<V>>,
    path: Seq<char>,
    key: Seq<u8>,
    p: spec_fn(SlotView<V>) -> bool,
)
    requires
        every(s, p),
    ensures
        every(without(s, path, key), p),
        every(touched(s, path, key), p),
{
    if holds(s, path, key) {
        let at = place(s, path, key);
        let t = s.remove(at);
        assert forall|i: int| 0 <= i < t.len() implies p(#[trigger] t[i]) by {
            let x = if i < at { i } else { i + 1 };
            assert(t[i] == s[x]);
        }
        let u = t.push(s[at]);
        assert forall|i: int| 0 <= i < u.len() implies p(#[trigger] u[i]) by {
            if i < t.len() {
                assert(u[i] == t[i]);
            }
        }
    }
}

/// What holds of every slot holds of every slot that an eviction leaves.
pub proof fn lemma_every_skip<V>(s: Seq<SlotView<V>>, n: int, p: spec_fn(SlotView<V>) -> bool)
    requires
        every(s, p),
        0 <= n <= s.len(),
    ensures
        every(s.skip(n), p),
{
    assert forall|i: int| 0 <= i < s.skip(n).len() implies p(#[trigger] s.skip(n)[i]) by {
        assert(s.skip(n)[i] == s[i + n]);
    }
}

/// What holds of every slot holds of every slot that making room leaves.
pub proof fn lemma_every_make_room<V>(
    s: Seq<SlotView<V>>,
    capacity: nat,
    limit: nat,
    size: nat,
    p: spec_fn(SlotView<V>) -> bool,
)
    requires
        every(s, p),
    ensures
        every(make_room(s, capacity, limit, size), p),
    decreases s.len(),
{
    if s.len() == 0 || has_room(s, capacity, limit, size) {
    } else {
        lemma_every_skip(s, 1, p);
        lemma_every_make_room(s.skip(1), capacity, limit, size, p);
    }
}

/// What holds of every slot and of the new one holds of every slot after a
/// put.
pub proof fn lemma_every_after_put<V>(
    s: Seq<SlotView<V>>,
    capacity: nat,
    limit: nat,
    slot: SlotView<V>,
    p: spec_fn(SlotView<V>) -> bool,
)
    requires
        every(s, p),
        p(slot),
    ensures
        every(after_put(s, capacity, limit, slot), p),
{
    lemma_every_touched(s, slot.path, slot.key, p);
    let first = without(s, slot.path, slot.key);
    lemma_every_make_room(first, capacity, limit, slot.size, p);
    let cleared = make_room(first, capacity, limit, slot.size);
    let t = cleared.push(slot);
    assert forall|i: int| 0 <= i < t.len() implies p(#[trigger] t[i]) by {
        if i < cleared.len() {
            assert(t[i] == cleared[i]);
        }
    }
}

/// What holds of every slot holds of every slot that shrinking leaves.
pub proof fn lemma_every_shrunk<V>(
    s: Seq<SlotView<V>>,
    capacity: nat,
    limit: nat,
    p: spec_fn(SlotView<V>) -> bool,
)
    requires
        every(s, p),
    ensures
        every(shrunk(s, capacity, limit), p),
    decreases s.len(),
{
    if s.len() == 0 || within(s, capacity, limit) {
    } else {
        lemma_every_skip(s, 1, p);
        lemma_every_shrunk(s.skip(1), capacity, limit, p);
    }
}

/// What holds of every slot holds of every slot off a path, and none of
/// them is of the path.
pub proof fn lemma_every_off_path<V>(
    s: Seq<SlotView<V>>,
    path: Seq<char>,
    p: spec_fn(SlotView<V>) -> bool,
)
    requires
        every(s, p),
    ensures
        every(off_path(s, path), p),
        forall|i: int|
            0 <= i < off_path(s, path).len() ==> (#[trigger] off_path(s, path)[i]).path != path,
    decreases s.len(),
{
    if s.len() > 0 {
        let head = s.drop_last();
        assert forall|i: int| 0 <= i < head.len() implies p(#[trigger] head[i]) by {
            assert(head[i] == s[i]);
        }
        lemma_every_off_path(head, path, p);
        let kept = off_path(head, path);
        if s.last().path != path {
            let t = kept.push(s.last());
            assert forall|i: int| 0 <= i < t.len() implies p(#[trigger] t[i]) && t[i].path
                != path by {
                if i < kept.len() {
                    assert(t[i] == kept[i]);
                } else {
                    assert(t[i] == s[s.len() - 1]);
                }
            }
        }
    }
}

/// After a run was renamed, `q` holds of every slot where `p` held before,
/// if `p` of a slot of another path gives `q` of it, and `p` of a slot of
/// the old path gives `q` of the slot under the new path.
pub proof fn lemma_every_repathed<V>(
    s: Seq<SlotView<V>>,
    from: Seq<char>,
    to: Seq<char>,
    p: spec_fn(SlotView<V>) -> bool,
    q: spec_fn(SlotView<V>) -> bool,
)
    requires
        from != to,
        every(s, p),
        forall|slot: SlotView<V>| #[trigger]
            p(slot) && slot.path != to && slot.path != from ==> q(slot),
        forall|slot: SlotView<V>| #[trigger]
            p(slot) && slot.path == from ==> q(
                SlotView { path: to, key: slot.key, value: slot.value, size: slot.size },
            ),
    ensures
        every(repathed(s, from, to), q),
{
    lemma_every_off_path(s, to, p);
    let t = off_path(s, to);
    let m = moved(t, from, to);
    assert forall|i: int| 0 <= i < m.len() implies q(#[trigger] m[i]) by {
        assert(p(t[i]));
        assert(t[i].path != to);
    }
}

/// Mixes the bytes into a 64-bit hash, one by one.
pub open spec fn hashed(seed: u64, bytes: Seq<u8>) -> u64
    decreases bytes.len(),
{
    if bytes.len() == 0 {
        seed
    } else {
        stirred(hashed(seed, bytes.drop_last()), bytes.last())
    }
}

/// One step of the hash: the byte is added and the sum multiplied, both
/// modulo 2^64.
pub open spec fn stirred(h: u64, byte: u8) -> u64 {
    (((h as int + byte as int) % 0x1_0000_0000_0000_0000) * 1099511628211
        % 0x1_0000_0000_0000_0000) as u64
}

/// The hash under which the slot for `path` and `key` is indexed.
pub open spec fn slot_hash(path: Seq<char>, key: Seq<u8>) -> u64 {
    hashed(hashed(14695981039346656037, vstd::utf8::encode_utf8(path)), key)
}

/// Mixes the bytes into a 64-bit hash.
pub fn hash_bytes(seed: u64, bytes: &[u8]) -> (h: u64)
    ensures
        h == hashed(seed, bytes@),
{
    let mut h: u64 = seed;
    let mut i: usize = 0;
    proof {
        assert(bytes@.take(0) =~= Seq::<u8>::empty());
    }
    while i < bytes.len()
        invariant
            i <= bytes@.len(),
            h == hashed(seed, bytes@.take(i as int)),
        decreases bytes.len() - i,
    {
        proof {
            assert(bytes@.take(i as int + 1).drop_last() =~= bytes@.take(i as int));
            assert(bytes@.take(i as int + 1).last() == bytes@[i as int]);
        }
        let sum: u128 = (h as u128 + bytes[i] as u128) % 0x1_0000_0000_0000_0000u128;
        let product: u128 = sum * 1099511628211u128 % 0x1_0000_0000_0000_0000u128;
        h = product as u64;
        i += 1;
    }
    proof {
        assert(bytes@.take(i as int) =~= bytes@);
    }
    h
}

/// The hash under which the slot for `path` and `key` is indexed.
pub fn hash_of(path: &String, key: &[u8]) -> (h: u64)
    ensures
        h == slot_hash(path@, key@),
{
    let first = hash_bytes(14695981039346656037, path.as_str().as_bytes());
    hash_bytes(first, key)
}

/// One slot as the store holds it: with the tick of its last use.
pub struct Cell<V> {
    pub slot: Slot<V>,
    pub tick: u64,
}

/// The slots of the cells as mathematical values.
pub open spec fn cell_views<V>(cells: Seq<Box<Cell<V>>>) -> Seq<SlotView<V>> {
    Seq::new(
        cells.len(),
        |i: int|
            SlotView {
                path: cells[i].slot.path@,
                key: cells[i].slot.key@,
                value: cells[i].slot.value,
                size: cells[i].slot.size as nat,
            },
    )
}

/// The ticks grow along the cells and stay below `next`.
pub open spec fn ticks_grow<V>(cells: Seq<Box<Cell<V>>>, next: u64) -> bool {
    &&& forall|i: int, j: int|
        0 <= i < j < cells.len() ==> (#[trigger] cells[i]).tick < (#[trigger] cells[j]).tick
    &&& forall|i: int| 0 <= i < cells.len() ==> (#[trigger] cells[i]).tick < next
}

/// Every cell is indexed: the tick of the cell stands under the hash of its
/// path and key.
pub open spec fn indexed<V>(cells: Seq<Box<Cell<V>>>, index: Map<u64, Vec<u64>>) -> bool {
    forall|i: int|
        0 <= i < cells.len() ==> index.contains_key(
            slot_hash((#[trigger] cells[i]).slot.path@, cells[i].slot.key@),
        ) && index[slot_hash(cells[i].slot.path@, cells[i].slot.key@)]@.contains(cells[i].tick)
}

/// Takes a tick out of a list of ticks.
pub fn drop_tick(ticks: &mut Vec<u64>, tick: u64)
    ensures
        forall|t: u64| final(ticks)@.contains(t) <==> old(ticks)@.contains(t) && t != tick,
{
    let mut i: usize = 0;
    while i < ticks.len()
        invariant
            i <= ticks@.len(),
            forall|k: int| 0 <= k < i ==> ticks@[k] != tick,
            forall|t: u64| ticks@.contains(t) ==> old(ticks)@.contains(t),
            forall|t: u64| old(ticks)@.contains(t) && t != tick ==> ticks@.contains(t),
        decreases ticks.len() - i,
    {
        if ticks[i] == tick {
            let ghost before = ticks@;
            let _ = ticks.remove(i);
            proof {
                assert forall|t: u64| ticks@.contains(t) implies old(ticks)@.contains(t) by {
                    let k = choose|k: int| 0 <= k < ticks@.len() && ticks@[k] == t;
                    let x = if k < i { k } else { k + 1 };
                    assert(before[x] == t);
                    assert(before.contains(t));
                }
                assert forall|t: u64| old(ticks)@.contains(t) && t != tick implies ticks@.contains(
                    t,
                ) by {
                    assert(before.contains(t));
                    let k = choose|k: int| 0 <= k < before.len() && before[k] == t;
                    let x = if k < i { k } else { k - 1 };
                    assert(ticks@[x] == t);
                }
            }
        } else {
            i += 1;
        }
    }
    proof {
        assert forall|t: u64| ticks@.contains(t) implies t != tick by {
            let k = choose|k: int| 0 <= k < ticks@.len() && ticks@[k] == t;
            assert(ticks@[k] != tick);
        }
    }
}

/// Puts a tick under a hash into the index. What stood in the index stands
/// there still.
pub fn index_tick(index: &mut HashMap<u64, Vec<u64>>, h: u64, tick: u64)
    ensures
        final(index)@.contains_key(h),
        final(index)@[h]@.contains(tick),
        forall|other: u64, t: u64|
            old(index)@.contains_key(other) && #[trigger] old(index)@[other]@.contains(t) ==> final(index)@.contains_key(other) && final(index)@[other]@.contains(t),
{
    broadcast use vstd::std_specs::hash::group_hash_axioms;

    let mut bucket = match index.remove(&h) {
        Some(bucket) => bucket,
        None => Vec::new(),
    };
    let ghost bucket0 = bucket@;
    bucket.push(tick);
    proof {
        assert(bucket@[bucket0.len() as int] == tick);
        assert forall|t: u64| bucket0.contains(t) implies bucket@.contains(t) by {
            let x = choose|x: int| 0 <= x < bucket0.len() && bucket0[x] == t;
            assert(bucket@[x] == t);
        }
    }
    index.insert(h, bucket);
}

/// The slots of a cache, from the least recently used to the most recently
/// used, with the sum of their sizes, and an index that finds a slot by
/// the hash of its path and key.
pub struct Store<V> {
    pub cells: Vec<Box<Cell<V>>>,
    pub used: usize,
    pub index: HashMap<u64, Vec<u64>>,
    pub next_tick: u64,
}

impl<V> Store<V> {
    /// The slots as mathematical values.
    pub open spec fn views(self) -> Seq<SlotView<V>> {
        cell_views(self.cells@)
    }

    /// The slots are distinct, `used` is their weight, and every slot is
    /// found through the index.
    pub open spec fn consistent(self) -> bool {
        &&& distinct(self.views())
        &&& self.used == weight(self.views())
        &&& ticks_grow(self.cells@, self.next_tick)
        &&& indexed(self.cells@, self.index@)
    }

    /// The empty store.
    pub fn new() -> (store: Self)
        ensures
            store.views().len() == 0,
            store.consistent(),
            store.used == 0,
    {
        Store { cells: Vec::new(), used: 0, index: HashMap::new(), next_tick: 0 }
    }

    /// The number of slots.
    pub fn len(&self) -> (n: usize)
        ensures
            n == self.views().len(),
    {
        self.cells.len()
    }

    /// The slot at `i`.
    pub fn slot_at(&self, i: usize) -> (slot: &Slot<V>)
        requires
            i < self.views().len(),
        ensures
            slot.path@ == self.views()[i as int].path,
            slot.key@ == self.views()[i as int].key,
            slot.value == self.views()[i as int].value,
            slot.size == self.views()[i as int].size,
    {
        &self.cells[i].slot
    }

    /// Finds the cell with the given tick, by bisection.
    pub fn locate(&self, tick: u64) -> (r: Option<usize>)
        requires
            ticks_grow(self.cells@, self.next_tick),
        ensures
            match r {
                Some(i) => i < self.cells@.len() && self.cells@[i as int].tick == tick,
                None => forall|i: int| 0 <= i < self.cells@.len() ==> (
                #[trigger] self.cells@[i]).tick != tick,
            },
    {
        let mut low: usize = 0;
        let mut high: usize = self.cells.len();
        while low < high
            invariant
                low <= high <= self.cells@.len(),
                ticks_grow(self.cells@, self.next_tick),
                forall|i: int| 0 <= i < low ==> (#[trigger] self.cells@[i]).tick < tick,
                forall|i: int| high <= i < self.cells@.len() ==> (#[trigger] self.cells@[i]).tick
                    > tick,
            decreases high - low,
        {
            let mid = low + (high - low) / 2;
            let here = self.cells[mid].tick;
            if here == tick {
                return Some(mid);
            } else if here < tick {
                proof {
                    assert forall|i: int| 0 <= i < mid + 1 implies (#[trigger] self.cells@[i]).tick
                        < tick by {
                        if i < mid {
                            assert(self.cells@[i].tick < self.cells@[mid as int].tick);
                        }
                    }
                }
                low = mid + 1;
            } else {
                proof {
                    assert forall|i: int| mid <= i < self.cells@.len() implies (
                    #[trigger] self.cells@[i]).tick > tick by {
                        if mid < i {
                            assert(self.cells@[mid as int].tick < self.cells@[i].tick);
                        }
                    }
                }
                high = mid;
            }
        }
        None
    }

    /// Finds the slot for `path` and `key`.
    pub fn find(&self, path: &String, key: &[u8]) -> (r: Option<usize>)
        requires
            self.consistent(),
        ensures
            match r {
                Some(i) => i < self.views().len() && is_for(self.views()[i as int], path@, key@)
                    && holds(self.views(), path@, key@) && place(self.views(), path@, key@) == i,
                None => !holds(self.views(), path@, key@),
            },
    {
        broadcast use vstd::std_specs::hash::group_hash_axioms;

        let h = hash_of(path, key);
        let bucket = match self.index.get(&h) {
            Some(bucket) => bucket,
            None => {
                proof {
                    if holds(self.views(), path@, key@) {
                        let i = place(self.views(), path@, key@);
                        assert(is_for(self.views()[i], path@, key@));
                        assert(self.index@.contains_key(
                            slot_hash(self.cells@[i].slot.path@, self.cells@[i].slot.key@),
                        ));
                    }
                }
                return None;
            },
        };
        let mut k: usize = 0;
        while k < bucket.len()
            invariant
                k <= bucket@.len(),
                self.consistent(),
                self.index@.contains_key(h) && *bucket == self.index@[h],
                h == slot_hash(path@, key@),
                forall|x: int, i: int|
                    0 <= x < k && 0 <= i < self.cells@.len() && (#[trigger] self.cells@[i]).tick
                        == #[trigger] bucket@[x] ==> !is_for(self.views()[i], path@, key@),
            decreases bucket.len() - k,
        {
            match self.locate(bucket[k]) {
                Some(i) => {
                    if self.cells[i].slot.path == *path && bytes_equal(
                        self.cells[i].slot.key.as_slice(),
                        key,
                    ) {
                        proof {
                            lemma_place(self.views(), i as int);
                        }
                        return Some(i);
                    }
                    proof {
                        assert forall|x: int, j: int|
                            0 <= x < k + 1 && 0 <= j < self.cells@.len() && (
                            #[trigger] self.cells@[j]).tick
                                == #[trigger] bucket@[x] implies !is_for(
                            self.views()[j],
                            path@,
                            key@,
                        ) by {
                            if x == k {
                                if j < i {
                                    assert(self.cells@[j].tick < self.cells@[i as int].tick);
                                } else if i < j {
                                    assert(self.cells@[i as int].tick < self.cells@[j].tick);
                                }
                            }
                        }
                    }
                },
                None => {},
            }
            k += 1;
        }
        proof {
            if holds(self.views(), path@, key@) {
                let i = place(self.views(), path@, key@);
                assert(is_for(self.views()[i], path@, key@));
                assert(bucket@.contains(self.cells@[i].tick));
                let x = choose|x: int| 0 <= x < bucket@.len() && bucket@[x] == self.cells@[i].tick;
                assert(self.cells@[i].tick == bucket@[x]);
            }
        }
        None
    }

    /// Takes the slot at `i` out.
    pub fn take_at(&mut self, i: usize) -> (slot: Slot<V>)
        requires
            old(self).consistent(),
            i < old(self).views().len(),
        ensures
            final(self).consistent(),
            final(self).views() == old(self).views().remove(i as int),
            final(self).used + slot.size == old(self).used,
            slot.path@ == old(self).views()[i as int].path,
            slot.key@ == old(self).views()[i as int].key,
            slot.value == old(self).views()[i as int].value,
            slot.size == old(self).views()[i as int].size,
            !holds(final(self).views(), slot.path@, slot.key@),
    {
        broadcast use vstd::std_specs::hash::group_hash_axioms;

        let ghost before = self.views();
        let ghost cells0 = self.cells@;
        let ghost index0 = self.index@;
        proof {
            lemma_weight_remove(before, i as int);
            lemma_distinct_remove(before, i as int);
        }
        let cell = self.cells.remove(i);
        assert(self.views() =~= before.remove(i as int));
        let Cell { slot, tick } = *cell;
        self.used = self.used - slot.size;
        let h = hash_of(&slot.path, slot.key.as_slice());
        match self.index.remove(&h) {
            Some(bucket) => {
                let mut bucket = bucket;
                drop_tick(&mut bucket, tick);
                self.index.insert(h, bucket);
            },
            None => {},
        }
        proof {
            assert forall|a: int, b: int| 0 <= a < b < self.cells@.len() implies (
            #[trigger] self.cells@[a]).tick < (#[trigger] self.cells@[b]).tick by {
                let x = if a < i { a } else { a + 1 };
                let y = if b < i { b } else { b + 1 };
                assert(self.cells@[a] == cells0[x] && self.cells@[b] == cells0[y]);
            }
            assert forall|a: int| 0 <= a < self.cells@.len() implies (
            #[trigger] self.cells@[a]).tick < self.next_tick && self.index@.contains_key(
                slot_hash(self.cells@[a].slot.path@, self.cells@[a].slot.key@),
            ) && self.index@[slot_hash(
                self.cells@[a].slot.path@,
                self.cells@[a].slot.key@,
            )]@.contains(self.cells@[a].tick) by {
                let x = if a < i { a } else { a + 1 };
                assert(self.cells@[a] == cells0[x]);
                assert(index0.contains_key(slot_hash(cells0[x].slot.path@, cells0[x].slot.key@)));
                if x < i {
                    assert(cells0[x].tick < cells0[i as int].tick);
                } else {
                    assert(cells0[i as int].tick < cells0[x].tick);
                }
            }
        }
        slot
    }

    /// Numbers the ticks of the cells anew, from zero on, and rebuilds the
    /// index.
    pub fn renumber(&mut self)
        requires
            distinct(old(self).views()),
            old(self).used == weight(old(self).views()),
        ensures
            final(self).consistent(),
            final(self).views() == old(self).views(),
            final(self).used == old(self).used,
            final(self).next_tick == final(self).views().len(),
    {
        broadcast use vstd::std_specs::hash::group_hash_axioms;

        let ghost before = self.views();
        let mut cells: Vec<Box<Cell<V>>> = Vec::new();
        core::mem::swap(&mut cells, &mut self.cells);
        let ghost all = cells@;
        let n = cells.len();
        let mut index: HashMap<u64, Vec<u64>> = HashMap::new();
        let mut fresh: Vec<Box<Cell<V>>> = Vec::new();
        let mut i: usize = 0;
        proof {
            assert(all.skip(0) =~= all);
        }
        while i < n
            invariant
                i <= n,
                n == all.len(),
                cells@ == all.skip(i as int),
                fresh@.len() == i,
                forall|k: int| 0 <= k < i ==> (#[trigger] fresh@[k]).tick == k && fresh@[k].slot
                    == all[k].slot,
                indexed(fresh@, index@),
            decreases n - i,
        {
            let cell = cells.remove(0);
            proof {
                assert(cell == all[i as int]);
                assert(cells@ =~= all.skip(i as int + 1));
            }
            let Cell { slot, tick: _ } = *cell;
            let h = hash_of(&slot.path, slot.key.as_slice());
            let ghost fresh0 = fresh@;
            index_tick(&mut index, h, i as u64);
            fresh.push(Box::new(Cell { slot, tick: i as u64 }));
            proof {
                assert forall|k: int| 0 <= k < fresh@.len() implies index@.contains_key(
                    slot_hash((#[trigger] fresh@[k]).slot.path@, fresh@[k].slot.key@),
                ) && index@[slot_hash(fresh@[k].slot.path@, fresh@[k].slot.key@)]@.contains(
                    fresh@[k].tick,
                ) by {
                    if k < i {
                        assert(fresh@[k] == fresh0[k]);
                    }
                }
            }
            i += 1;
        }
        self.cells = fresh;
        self.index = index;
        self.next_tick = n as u64;
        proof {
            assert(self.views() =~= before);
        }
    }

    /// Rebuilds the index from the cells.
    pub fn reindex(&mut self)
        requires
            distinct(old(self).views()),
            old(self).used == weight(old(self).views()),
            ticks_grow(old(self).cells@, old(self).next_tick),
        ensures
            final(self).consistent(),
            final(self).views() == old(self).views(),
            final(self).used == old(self).used,
    {
        broadcast use vstd::std_specs::hash::group_hash_axioms;

        let n = self.cells.len();
        let mut index: HashMap<u64, Vec<u64>> = HashMap::new();
        let mut i: usize = 0;
        while i < n
            invariant
                i <= n,
                n == self.cells@.len(),
                *self == *old(self),
                indexed(self.cells@.take(i as int), index@),
            decreases n - i,
        {
            let h = hash_of(&self.cells[i].slot.path, self.cells[i].slot.key.as_slice());
            let tick = self.cells[i].tick;
            index_tick(&mut index, h, tick);
            proof {
                let done = self.cells@.take(i as int + 1);
                assert forall|k: int| 0 <= k < done.len() implies index@.contains_key(
                    slot_hash((#[trigger] done[k]).slot.path@, done[k].slot.key@),
                ) && index@[slot_hash(done[k].slot.path@, done[k].slot.key@)]@.contains(
                    done[k].tick,
                ) by {
                    if k < i {
                        assert(done[k] == self.cells@.take(i as int)[k]);
                    }
                }
            }
            i += 1;
        }
        proof {
            assert(self.cells@.take(n as int) =~= self.cells@);
        }
        self.index = index;
    }

    /// Adds a slot at the most recently used end, where a tick is left
    /// for it.
    pub fn append(&mut self, slot: Slot<V>)
        requires
            old(self).consistent(),
            !holds(old(self).views(), slot.path@, slot.key@),
            old(self).used + slot.size <= usize::MAX,
            old(self).next_tick < u64::MAX,
        ensures
            final(self).consistent(),
            final(self).views() == old(self).views().push(
                SlotView {
                    path: slot.path@,
                    key: slot.key@,
                    value: slot.value,
                    size: slot.size as nat,
                },
            ),
            final(self).used == old(self).used + slot.size,
    {
        let ghost before = self.views();
        let ghost view = SlotView {
            path: slot.path@,
            key: slot.key@,
            value: slot.value,
            size: slot.size as nat,
        };
        proof {
            lemma_weight_push(before, view);
            lemma_distinct_push(before, view);
        }
        let tick = self.next_tick;
        let h = hash_of(&slot.path, slot.key.as_slice());
        let ghost cells0 = self.cells@;
        index_tick(&mut self.index, h, tick);
        self.used = self.used + slot.size;
        self.cells.push(Box::new(Cell { slot, tick }));
        self.next_tick = tick + 1;
        proof {
            assert(self.views() =~= before.push(view));
            assert forall|a: int, b: int| 0 <= a < b < self.cells@.len() implies (
            #[trigger] self.cells@[a]).tick < (#[trigger] self.cells@[b]).tick by {
                assert(self.cells@[a] == cells0[a]);
                if b < cells0.len() {
                    assert(self.cells@[b] == cells0[b]);
                }
            }
            assert forall|k: int| 0 <= k < self.cells@.len() implies (
            #[trigger] self.cells@[k]).tick < self.next_tick && self.index@.contains_key(
                slot_hash(self.cells@[k].slot.path@, self.cells@[k].slot.key@),
            ) && self.index@[slot_hash(
                self.cells@[k].slot.path@,
                self.cells@[k].slot.key@,
            )]@.contains(self.cells@[k].tick) by {
                if k < cells0.len() {
                    assert(self.cells@[k] == cells0[k]);
                }
            }
        }
    }

    /// Adds a slot at the most recently used end.
    pub fn add(&mut self, slot: Slot<V>)
        requires
            old(self).consistent(),
            !holds(old(self).views(), slot.path@, slot.key@),
            old(self).used + slot.size <= usize::MAX,
            old(self).views().len() < u64::MAX,
        ensures
            final(self).consistent(),
            final(self).views() == old(self).views().push(
                SlotView {
                    path: slot.path@,
                    key: slot.key@,
                    value: slot.value,
                    size: slot.size as nat,
                },
            ),
            final(self).used == old(self).used + slot.size,
    {
        if self.next_tick == u64::MAX {
            self.renumber();
        }
        self.append(slot);
    }
}

/// One more, unless the counter is full.
pub fn bumped(counter: u64) -> (next: u64)
    ensures
        next == if counter < u64::MAX {
            counter + 1
        } else {
            counter as int
        },
{
    if counter < u64::MAX {
        counter + 1
    } else {
        counter
    }
}

/// A cache of values of `V`, bounded by a number of slots and by the sum of
/// their sizes, that evicts what was used least recently.
pub struct Lru<V> {
    store: Store<V>,
    max_capacity: usize,
    memory_limit: usize,
    hit_count: u64,
    miss_count: u64,
    eviction_count: u64,
}

impl<V> Lru<V> {
    #[verifier::type_invariant]
    spec fn bounded(self) -> bool {
        self.store.consistent() && within(
            self.store.views(),
            self.max_capacity as nat,
            self.memory_limit as nat,
        )
    }

    /// The slots, from the least recently used to the most recently used.
    pub closed spec fn slots(self) -> Seq<SlotView<V>> {
        self.store.views()
    }

    /// The most slots the cache holds.
    pub closed spec fn capacity(self) -> nat {
        self.max_capacity as nat
    }

    /// The most the sizes of the slots add up to.
    pub closed spec fn limit(self) -> nat {
        self.memory_limit as nat
    }

    /// The number of lookups that found their slot.
    pub closed spec fn hits(self) -> nat {
        self.hit_count as nat
    }

    /// The number of lookups that found nothing.
    pub closed spec fn misses(self) -> nat {
        self.miss_count as nat
    }

    /// The number of slots that were evicted.
    pub closed spec fn evictions(self) -> nat {
        self.eviction_count as nat
    }

    /// An empty cache with the given bounds.
    pub fn new(max_capacity: usize, memory_limit: usize) -> (cache: Self)
        ensures
            cache.slots().len() == 0,
            cache.capacity() == max_capacity,
            cache.limit() == memory_limit,
            cache.hits() == 0,
            cache.misses() == 0,
            cache.evictions() == 0,
    {
        Lru {
            store: Store::new(),
            max_capacity,
            memory_limit,
            hit_count: 0,
            miss_count: 0,
            eviction_count: 0,
        }
    }

    /// The number of slots. Whenever it is asked, the slots are distinct and
    /// within both bounds.
    pub fn len(&self) -> (n: usize)
        ensures
            n == self.slots().len(),
            distinct(self.slots()),
            within(self.slots(), self.capacity(), self.limit()),
    {
        proof {
            use_type_invariant(self);
        }
        self.store.len()
    }

    /// The sum of the sizes of the slots.
    pub fn memory_usage(&self) -> (n: usize)
        ensures
            n == weight(self.slots()),
            n <= self.limit(),
    {
        proof {
            use_type_invariant(self);
        }
        self.store.used
    }

    pub fn max_capacity(&self) -> (n: usize)
        ensures
            n == self.capacity(),
    {
        self.max_capacity
    }

    pub fn memory_limit(&self) -> (n: usize)
        ensures
            n == self.limit(),
    {
        self.memory_limit
    }

    pub fn hit_count(&self) -> (n: u64)
        ensures
            n == self.hits(),
    {
        self.hit_count
    }

    pub fn miss_count(&self) -> (n: u64)
        ensures
            n == self.misses(),
    {
        self.miss_count
    }

    pub fn eviction_count(&self) -> (n: u64)
        ensures
            n == self.evictions(),
    {
        self.eviction_count
    }

    /// Looks the slot for `path` and `key` up, and makes it the most recently
    /// used one. A hit and a miss are counted.
    pub fn get(&mut self, path: &String, key: &[u8]) -> (r: Option<&V>)
        ensures
            final(self).slots() == touched(old(self).slots(), path@, key@),
            final(self).capacity() == old(self).capacity(),
            final(self).limit() == old(self).limit(),
            final(self).evictions() == old(self).evictions(),
            match r {
                Some(v) => holds(old(self).slots(), path@, key@) && *v == old(self).slots()[place(
                    old(self).slots(),
                    path@,
                    key@,
                )].value && final(self).hits() == bumped_spec(old(self).hits())
                    && final(self).misses() == old(self).misses(),
                None => !holds(old(self).slots(), path@, key@) && final(self).misses()
                    == bumped_spec(old(self).misses()) && final(self).hits() == old(self).hits(),
            },
    {
        proof {
            use_type_invariant(&*self);
        }
        let found = self.store.find(path, key);
        match found {
            Some(i) => {
                let mut store = Store::new();
                core::mem::swap(&mut store, &mut self.store);
                let slot = store.take_at(i);
                store.add(slot);
                self.store = store;
                self.hit_count = bumped(self.hit_count);
                let n = self.store.len();
                Some(&self.store.slot_at(n - 1).value)
            },
            None => {
                self.miss_count = bumped(self.miss_count);
                None
            },
        }
    }

    /// Puts a value of the given size under `path` and `key`.
    ///
    /// An older slot for the same path and key is dropped. Then the least
    /// recently used slots are evicted until there is room or nothing is
    /// left, and the value goes in if there is room for it: a value that is
    /// larger than the limit on its own, or a cache without capacity, holds
    /// nothing.
    pub fn put(&mut self, path: String, key: Vec<u8>, value: V, size: usize)
        ensures
            final(self).slots() == after_put(
                old(self).slots(),
                old(self).capacity(),
                old(self).limit(),
                SlotView { path: path@, key: key@, value, size: size as nat },
            ),
            final(self).capacity() == old(self).capacity(),
            final(self).limit() == old(self).limit(),
            final(self).hits() == old(self).hits(),
            final(self).misses() == old(self).misses(),
            final(self).evictions() >= old(self).evictions(),
    {
        proof {
            use_type_invariant(&*self);
        }
        let ghost before = self.store.views();
        let ghost capacity = self.max_capacity as nat;
        let ghost limit = self.memory_limit as nat;
        let ghost view = SlotView { path: path@, key: key@, value, size: size as nat };
        let mut store = Store::new();
        core::mem::swap(&mut store, &mut self.store);
        match store.find(&path, key.as_slice()) {
            Some(i) => {
                let _ = store.take_at(i);
            },
            None => {},
        }
        let ghost cleared_first = store.views();
        assert(cleared_first == without(before, path@, key@));
        let mut evicted: u64 = 0;
        while store.len() > 0 && !(store.len() < self.max_capacity && size
            <= self.memory_limit && store.used <= self.memory_limit - size)
            invariant
                store.consistent(),
                within(store.views(), capacity, limit),
                capacity == self.max_capacity,
                limit == self.memory_limit,
                !holds(store.views(), path@, key@),
                make_room(cleared_first, capacity, limit, size as nat) == make_room(
                    store.views(),
                    capacity,
                    limit,
                    size as nat,
                ),
                self.store.views().len() == 0,
                self.store.consistent(),
            decreases store.views().len(),
        {
            proof {
                lemma_distinct_skip(store.views(), path@, key@);
                assert(store.views().skip(1) =~= store.views().remove(0));
            }
            let _ = store.take_at(0);
            evicted = bumped(evicted);
        }
        if store.len() < self.max_capacity && size <= self.memory_limit && store.used
            <= self.memory_limit - size {
            store.add(Slot { path, key, value, size });
        }
        proof {
            lemma_after_put(before, capacity, limit, view);
        }
        self.store = store;
        self.eviction_count = if self.eviction_count <= u64::MAX - evicted {
            self.eviction_count + evicted
        } else {
            u64::MAX
        };
    }

    /// Takes the slot for `path` and `key` out.
    pub fn remove(&mut self, path: &String, key: &[u8]) -> (r: Option<V>)
        ensures
            final(self).slots() == without(old(self).slots(), path@, key@),
            final(self).capacity() == old(self).capacity(),
            final(self).limit() == old(self).limit(),
            final(self).hits() == old(self).hits(),
            final(self).misses() == old(self).misses(),
            final(self).evictions() == old(self).evictions(),
            match r {
                Some(v) => holds(old(self).slots(), path@, key@) && v == old(self).slots()[place(
                    old(self).slots(),
                    path@,
                    key@,
                )].value,
                None => !holds(old(self).slots(), path@, key@),
            },
    {
        proof {
            use_type_invariant(&*self);
        }
        match self.store.find(path, key) {
            Some(i) => {
                let mut store = Store::new();
                core::mem::swap(&mut store, &mut self.store);
                let slot = store.take_at(i);
                self.store = store;
                Some(slot.value)
            },
            None => None,
        }
    }

    /// Evicts the least recently used slot, if there is one.
    pub fn evict_lru(&mut self) -> (evicted: bool)
        ensures
            evicted == (old(self).slots().len() > 0),
            final(self).slots() == if evicted {
                old(self).slots().skip(1)
            } else {
                old(self).slots()
            },
            final(self).capacity() == old(self).capacity(),
            final(self).limit() == old(self).limit(),
            final(self).hits() == old(self).hits(),
            final(self).misses() == old(self).misses(),
            final(self).evictions() == if evicted {
                bumped_spec(old(self).evictions())
            } else {
                old(self).evictions()
            },
    {
        proof {
            use_type_invariant(&*self);
        }
        if self.store.len() == 0 {
            return false;
        }
        let mut store = Store::new();
        core::mem::swap(&mut store, &mut self.store);
        proof {
            assert(store.views().skip(1) =~= store.views().remove(0));
        }
        let _ = store.take_at(0);
        self.store = store;
        self.eviction_count = bumped(self.eviction_count);
        true
    }

    /// Sets new bounds, and evicts the least recently used slots until both
    /// hold.
    pub fn resize(&mut self, new_capacity: usize, new_memory_limit: usize)
        ensures
            final(self).slots() == shrunk(
                old(self).slots(),
                new_capacity as nat,
                new_memory_limit as nat,
            ),
            final(self).capacity() == new_capacity,
            final(self).limit() == new_memory_limit,
            final(self).hits() == old(self).hits(),
            final(self).misses() == old(self).misses(),
            final(self).evictions() >= old(self).evictions(),
    {
        proof {
            use_type_invariant(&*self);
        }
        let ghost before = self.store.views();
        let mut store = Store::new();
        core::mem::swap(&mut store, &mut self.store);
        let mut evicted: u64 = 0;
        while store.len() > 0 && !(store.len() <= new_capacity && store.used
            <= new_memory_limit)
            invariant
                store.consistent(),
                shrunk(before, new_capacity as nat, new_memory_limit as nat) == shrunk(
                    store.views(),
                    new_capacity as nat,
                    new_memory_limit as nat,
                ),
            decreases store.views().len(),
        {
            proof {
                assert(store.views().skip(1) =~= store.views().remove(0));
            }
            let _ = store.take_at(0);
            evicted = bumped(evicted);
        }
        proof {
            lemma_shrunk(before, new_capacity as nat, new_memory_limit as nat);
        }
        *self = Lru {
            store,
            max_capacity: new_capacity,
            memory_limit: new_memory_limit,
            hit_count: self.hit_count,
            miss_count: self.miss_count,
            eviction_count: if self.eviction_count <= u64::MAX - evicted {
                self.eviction_count + evicted
            } else {
                u64::MAX
            },
        };
    }

    /// Drops every slot and clears the counters.
    pub fn clear(&mut self)
        ensures
            final(self).slots().len() == 0,
            final(self).capacity() == old(self).capacity(),
            final(self).limit() == old(self).limit(),
            final(self).hits() == 0,
            final(self).misses() == 0,
            final(self).evictions() == 0,
    {
        *self = Lru {
            store: Store::new(),
            max_capacity: self.max_capacity,
            memory_limit: self.memory_limit,
            hit_count: 0,
            miss_count: 0,
            eviction_count: 0,
        };
    }
}

/// One more, unless the counter is full.
pub open spec fn bumped_spec(counter: nat) -> nat {
    if counter < u64::MAX {
        counter + 1
    } else {
        counter
    }
}

impl<V> Store<V> {
    /// Drops every slot of `path`.
    pub fn drop_path(&mut self, path: &String)
        requires
            old(self).consistent(),
        ensures
            final(self).consistent(),
            final(self).views() == off_path(old(self).views(), path@),
    {
        let ghost before = self.views();
        let ghost mut seen: int = 0;
        let mut i: usize = 0;
        assert(before.take(0) =~= Seq::<SlotView<V>>::empty());
        assert(before.skip(0) =~= before);
        assert(off_path(before.take(0), path@) + before.skip(0) =~= before);
        while i < self.cells.len()
            invariant
                self.consistent(),
                0 <= seen <= before.len(),
                i == off_path(before.take(seen), path@).len(),
                self.views() == off_path(before.take(seen), path@) + before.skip(seen),
            decreases before.len() - seen,
        {
            let ghost kept = off_path(before.take(seen), path@);
            proof {
                assert(self.views()[i as int] == before.skip(seen)[0]);
                assert(seen < before.len());
                assert(before.take(seen + 1).drop_last() =~= before.take(seen));
                assert(before.take(seen + 1).last() == before[seen]);
            }
            if self.cells[i].slot.path == *path {
                let _ = self.take_at(i);
                proof {
                    assert(self.views() =~= kept + before.skip(seen + 1));
                    seen = seen + 1;
                }
            } else {
                proof {
                    assert(self.views() =~= kept.push(before[seen]) + before.skip(seen + 1));
                    seen = seen + 1;
                }
                i += 1;
            }
        }
        proof {
            assert(seen == before.len());
            assert(before.take(seen) =~= before);
            assert(before.skip(seen) =~= Seq::<SlotView<V>>::empty());
            assert(self.views() =~= off_path(before, path@));
        }
    }

    /// Gives every slot of the path `from` the path `to`.
    pub fn move_path(&mut self, from: &String, to: &String)
        requires
            old(self).consistent(),
            distinct(moved(old(self).views(), from@, to@)),
        ensures
            final(self).views() == moved(old(self).views(), from@, to@),
            final(self).consistent(),
            final(self).used == old(self).used,
    {
        let ghost before = self.views();
        let ghost cells0 = self.cells@;
        let mut i: usize = 0;
        let n = self.cells.len();
        while i < n
            invariant
                i <= n,
                n == before.len(),
                self.cells@.len() == n,
                self.used == old(self).used,
                self.next_tick == old(self).next_tick,
                forall|j: int| 0 <= j < n ==> (#[trigger] self.cells@[j]).tick == cells0[j].tick,
                forall|j: int| 0 <= j < i ==> (#[trigger] self.views()[j]) == moved(
                    before,
                    from@,
                    to@,
                )[j],
                forall|j: int| i <= j < n ==> (#[trigger] self.views()[j]) == before[j],
            decreases n - i,
        {
            if self.cells[i].slot.path == *from {
                let ghost now = self.views();
                let ghost raw = self.cells@;
                let cell = self.cells.remove(i);
                let Cell { slot, tick } = *cell;
                let fresh = Box::new(
                    Cell {
                        slot: Slot {
                            path: to.clone(),
                            key: slot.key,
                            value: slot.value,
                            size: slot.size,
                        },
                        tick,
                    },
                );
                let ghost put = fresh;
                self.cells.insert(i, fresh);
                proof {
                    assert(self.cells@ =~= raw.update(i as int, put));
                    assert(now[i as int] == before[i as int]);
                    assert(self.views()[i as int] == moved(before, from@, to@)[i as int]);
                    assert forall|j: int| 0 <= j < i + 1 implies (#[trigger] self.views()[j])
                        == moved(before, from@, to@)[j] by {
                        if j < i {
                            assert(self.views()[j] == now[j]);
                        }
                    }
                    assert forall|j: int| i + 1 <= j < n implies (#[trigger] self.views()[j])
                        == before[j] by {
                        assert(self.views()[j] == now[j]);
                    }
                    assert forall|j: int| 0 <= j < n implies (#[trigger] self.cells@[j]).tick
                        == cells0[j].tick by {
                        if j != i {
                            assert(self.cells@[j] == raw[j]);
                        }
                    }
                }
            }
            i += 1;
        }
        proof {
            assert(self.views() =~= moved(before, from@, to@));
            lemma_moved_weight(before, from@, to@);
            assert forall|a: int, b: int| 0 <= a < b < self.cells@.len() implies (
            #[trigger] self.cells@[a]).tick < (#[trigger] self.cells@[b]).tick by {
                assert(cells0[a].tick < cells0[b].tick);
            }
            assert forall|a: int| 0 <= a < self.cells@.len() implies (
            #[trigger] self.cells@[a]).tick < self.next_tick by {
                assert(cells0[a].tick < old(self).next_tick);
            }
        }
        self.reindex();
    }
}

impl<V> Lru<V> {
    /// Drops every slot of `path`.
    pub fn remove_path(&mut self, path: &String)
        ensures
            final(self).slots() == off_path(old(self).slots(), path@),
            final(self).capacity() == old(self).capacity(),
            final(self).limit() == old(self).limit(),
            final(self).hits() == old(self).hits(),
            final(self).misses() == old(self).misses(),
            final(self).evictions() == old(self).evictions(),
    {
        proof {
            use_type_invariant(&*self);
            lemma_off_path(self.store.views(), path@);
        }
        let mut store = Store::new();
        core::mem::swap(&mut store, &mut self.store);
        store.drop_path(path);
        self.store = store;
    }

    /// Follows the renaming of a run: what was cached under `to` is stale
    /// and dropped, and what was cached under `from` is cached under `to`.
    pub fn rename_path(&mut self, from: &String, to: &String)
        ensures
            final(self).slots() == repathed(old(self).slots(), from@, to@),
            final(self).capacity() == old(self).capacity(),
            final(self).limit() == old(self).limit(),
            final(self).hits() == old(self).hits(),
            final(self).misses() == old(self).misses(),
            final(self).evictions() == old(self).evictions(),
    {
        proof {
            use_type_invariant(&*self);
            lemma_repathed(self.store.views(), from@, to@);
            lemma_off_path(self.store.views(), to@);
        }
        if *from == *to {
            return ;
        }
        let mut store = Store::new();
        core::mem::swap(&mut store, &mut self.store);
        store.drop_path(to);
        store.move_path(from, to);
        self.store = store;
    }

    /// The paths of the slots, from the least recently used on.
    pub fn paths(&self) -> (out: Vec<String>)
        ensures
            out@.len() == self.slots().len(),
            forall|i: int| 0 <= i < out@.len() ==> (#[trigger] out@[i])@ == self.slots()[i].path,
    {
        let mut out: Vec<String> = Vec::new();
        let n = self.store.len();
        let mut i: usize = 0;
        while i < n
            invariant
                i <= n,
                n == self.store.views().len(),
                out@.len() == i,
                forall|j: int| 0 <= j < i ==> (#[trigger] out@[j])@ == self.store.views()[j].path,
            decreases n - i,
        {
            out.push(self.store.slot_at(i).path.clone());
            i += 1;
        }
        out
    }
}

} // verus!
