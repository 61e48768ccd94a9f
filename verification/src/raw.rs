//! The slot table: an open-addressing hash table from key identities to
//! payloads.
//!
//! The directory is a flat array of slots; an occupied slot names a key and
//! the position of that key's payload in the payload arena.  The arena only
//! ever grows at the end: directory growth rehashes the slots but never
//! touches a payload, so a payload position handed out earlier keeps naming
//! the same value across later insertions of other keys.  Keys are never
//! removed, which is why a probe can stop at the first empty slot.

use crate::probe::{
    get_hash_index, lemma_probe_onto, lemma_probe_pos_bound, lemma_probe_step, probe_pos,
    start_of, QuadraticProbe,
};
use crate::StoreError;
use vstd::arithmetic::div_mod::{lemma_mod_division_less_than_divisor, lemma_small_mod};
use vstd::arithmetic::power2::{lemma2_to64, lemma_pow2_adds, pow2};
use vstd::prelude::*;

verus! {

/// An occupied directory cell: a key identity and the position of the key's
/// payload in the payload arena.
#[derive(Clone, Copy)]
pub struct SlotEntry {
    pub key: u64,
    pub payload: usize,
}

/// A directory capacity the table accepts: a power of two, at least four.
pub open spec fn valid_cap(cap: nat) -> bool {
    &&& 4 <= cap
    &&& exists|k: nat| cap == pow2(k)
}

/// The slot that step `u` of `key`'s probe sequence stands on.
pub open spec fn slot_on_path(dir: Seq<Option<SlotEntry>>, key: u64, u: nat) -> Option<SlotEntry> {
    dir[probe_pos(start_of(key, dir.len()), u, dir.len()) as int]
}

/// The first `t` steps of `key`'s probe sequence all stand on slots that are
/// occupied by other keys, so a probe for `key` walks past them.
pub open spec fn blocked_upto(dir: Seq<Option<SlotEntry>>, key: u64, t: nat) -> bool {
    forall|u: nat|
        u < t ==> (#[trigger] slot_on_path(dir, key, u)).is_some() && slot_on_path(
            dir,
            key,
            u,
        ).unwrap().key != key
}

/// A probe for `key` first hits `key`'s own slot at step `t`.
pub open spec fn found_at(dir: Seq<Option<SlotEntry>>, key: u64, t: nat) -> bool {
    &&& blocked_upto(dir, key, t)
    &&& slot_on_path(dir, key, t).is_some()
    &&& slot_on_path(dir, key, t).unwrap().key == key
}

/// The directory holds a slot for `key`.
pub open spec fn dir_has_key(dir: Seq<Option<SlotEntry>>, key: u64) -> bool {
    exists|t: nat| t < dir.len() && found_at(dir, key, t)
}

/// The probe step at which `key` is found.
pub open spec fn find_step(dir: Seq<Option<SlotEntry>>, key: u64) -> nat {
    choose|t: nat| t < dir.len() && found_at(dir, key, t)
}

/// The directory index of `key`'s slot.
pub open spec fn key_pos(dir: Seq<Option<SlotEntry>>, key: u64) -> int {
    probe_pos(start_of(key, dir.len()), find_step(dir, key), dir.len()) as int
}

/// Where `key`'s payload stands in the payload arena.
pub open spec fn payload_index_in(dir: Seq<Option<SlotEntry>>, key: u64) -> nat {
    dir[key_pos(dir, key)].unwrap().payload as nat
}

/// How many slots of the directory are occupied.
pub open spec fn occupied_count(dir: Seq<Option<SlotEntry>>) -> nat
    decreases dir.len(),
{
    if dir.len() == 0 {
        0
    } else if dir.last().is_some() {
        occupied_count(dir.drop_last()) + 1
    } else {
        occupied_count(dir.drop_last())
    }
}

/// Every occupied slot is where its own key's probe sequence first hits.
pub open spec fn slots_reachable(dir: Seq<Option<SlotEntry>>) -> bool {
    forall|p: int|
        0 <= p < dir.len() && (#[trigger] dir[p]).is_some() ==> exists|t: nat|
            t < dir.len() && found_at(dir, dir[p].unwrap().key, t) && probe_pos(
                start_of(dir[p].unwrap().key, dir.len()),
                t,
                dir.len(),
            ) == p
}

/// Every occupied slot points into the payload arena.
pub open spec fn payloads_valid(dir: Seq<Option<SlotEntry>>, arena_len: nat) -> bool {
    forall|p: int|
        0 <= p < dir.len() && (#[trigger] dir[p]).is_some() ==> dir[p].unwrap().payload
            < arena_len
}

/// No two occupied slots share a payload.
pub open spec fn payloads_injective(dir: Seq<Option<SlotEntry>>) -> bool {
    forall|p1: int, p2: int|
        0 <= p1 < dir.len() && 0 <= p2 < dir.len() && p1 != p2 && (#[trigger] dir[p1]).is_some()
            && (#[trigger] dir[p2]).is_some() ==> dir[p1].unwrap().payload
            != dir[p2].unwrap().payload
}

/// The mapping a directory and its payload arena spell out: each stored key
/// to the payload its slot points at.
pub open spec fn dir_view<V>(dir: Seq<Option<SlotEntry>>, payloads: Seq<V>) -> Map<u64, V> {
    Map::new(
        |k: u64| dir_has_key(dir, k),
        |k: u64| payloads[payload_index_in(dir, k) as int],
    )
}

/// A key is found at one step only: the probe walk is deterministic.
proof fn lemma_found_unique(dir: Seq<Option<SlotEntry>>, key: u64, t1: nat, t2: nat)
    requires
        found_at(dir, key, t1),
        found_at(dir, key, t2),
    ensures
        t1 == t2,
{
    if t1 < t2 {
        assert(slot_on_path(dir, key, t1).unwrap().key != key);
    } else if t2 < t1 {
        assert(slot_on_path(dir, key, t2).unwrap().key != key);
    }
}

/// A probe that walked past `t` occupied foreign slots and then hit an empty
/// slot proves the key absent.
proof fn lemma_seek_none(dir: Seq<Option<SlotEntry>>, key: u64, t: nat)
    requires
        blocked_upto(dir, key, t),
        slot_on_path(dir, key, t).is_none(),
    ensures
        !dir_has_key(dir, key),
{
    if dir_has_key(dir, key) {
        let t2 = choose|t2: nat| t2 < dir.len() && found_at(dir, key, t2);
        if t2 < t {
            assert(slot_on_path(dir, key, t2).unwrap().key != key);
        } else if t2 == t {
            assert(slot_on_path(dir, key, t).is_some());
        } else {
            assert(slot_on_path(dir, key, t).is_some());
        }
    }
}

/// An occupied slot is exactly where its own key is found: the probe
/// position of the key's find step is that slot, and the payload the slot
/// names is the key's payload.
proof fn lemma_key_pos_of_slot(dir: Seq<Option<SlotEntry>>, p: int)
    requires
        slots_reachable(dir),
        0 <= p < dir.len(),
        dir[p].is_some(),
    ensures
        dir_has_key(dir, dir[p].unwrap().key),
        key_pos(dir, dir[p].unwrap().key) == p,
        payload_index_in(dir, dir[p].unwrap().key) == dir[p].unwrap().payload,
{
    let k = dir[p].unwrap().key;
    let t0 = choose|t: nat|
        t < dir.len() && found_at(dir, k, t) && probe_pos(start_of(k, dir.len()), t, dir.len())
            == p;
    assert(found_at(dir, k, t0));
    assert(dir_has_key(dir, k));
    let fs = find_step(dir, k);
    assert(found_at(dir, k, fs));
    lemma_found_unique(dir, k, t0, fs);
}

/// Two occupied slots never hold the same key.
proof fn lemma_keys_unique(dir: Seq<Option<SlotEntry>>, p1: int, p2: int)
    requires
        slots_reachable(dir),
        0 <= p1 < dir.len(),
        0 <= p2 < dir.len(),
        dir[p1].is_some(),
        dir[p2].is_some(),
        dir[p1].unwrap().key == dir[p2].unwrap().key,
    ensures
        p1 == p2,
{
    lemma_key_pos_of_slot(dir, p1);
    lemma_key_pos_of_slot(dir, p2);
}

/// Filling a slot that was empty does not disturb where any key is found:
/// a find that held before the write still holds after it.
proof fn lemma_found_at_transfer(
    dir: Seq<Option<SlotEntry>>,
    upd: Seq<Option<SlotEntry>>,
    pos: int,
    e: SlotEntry,
    k2: u64,
    s: nat,
)
    requires
        0 <= pos < dir.len(),
        dir[pos].is_none(),
        upd == dir.update(pos, Some(e)),
        found_at(dir, k2, s),
    ensures
        found_at(upd, k2, s),
{
    let cap = dir.len();
    let start2 = start_of(k2, cap);
    assert(upd.len() == cap);
    let ps = probe_pos(start2, s, cap) as int;
    lemma_probe_pos_bound(start2, s, cap);
    assert(dir[ps].is_some());
    assert(ps != pos);
    assert(slot_on_path(upd, k2, s) == upd[ps]);
    assert(blocked_upto(upd, k2, s)) by {
        assert forall|u: nat|
            u < s implies (#[trigger] slot_on_path(upd, k2, u)).is_some() && slot_on_path(
            upd,
            k2,
            u,
        ).unwrap().key != k2 by {
            let pu = probe_pos(start2, u, cap) as int;
            lemma_probe_pos_bound(start2, u, cap);
            assert(slot_on_path(dir, k2, u).is_some() && slot_on_path(dir, k2, u).unwrap().key
                != k2);
            assert(dir[pu].is_some());
            assert(pu != pos);
            assert(upd[pu] == dir[pu]);
        }
    }
}

/// Writing a fresh key into the first empty slot of its probe sequence
/// keeps the whole directory well-placed, stores exactly that key at the
/// written slot, and leaves every other key's slot and payload alone.
proof fn lemma_insert_entry(
    dir: Seq<Option<SlotEntry>>,
    upd: Seq<Option<SlotEntry>>,
    key: u64,
    pi: usize,
    t: nat,
)
    requires
        valid_cap(dir.len()),
        slots_reachable(dir),
        !dir_has_key(dir, key),
        t < dir.len(),
        blocked_upto(dir, key, t),
        slot_on_path(dir, key, t).is_none(),
        upd == dir.update(
            probe_pos(start_of(key, dir.len()), t, dir.len()) as int,
            Some(SlotEntry { key, payload: pi }),
        ),
    ensures
        slots_reachable(upd),
        dir_has_key(upd, key),
        payload_index_in(upd, key) == pi,
        forall|k2: u64| k2 != key ==> (#[trigger] dir_has_key(upd, k2)) == dir_has_key(dir, k2),
        forall|k2: u64|
            k2 != key && dir_has_key(dir, k2) ==> #[trigger] payload_index_in(upd, k2)
                == payload_index_in(dir, k2) && key_pos(upd, k2) == key_pos(dir, k2),
        occupied_count(upd) == occupied_count(dir) + 1,
{
    let cap = dir.len();
    let start = start_of(key, cap);
    let pos = probe_pos(start, t, cap) as int;
    let e = SlotEntry { key, payload: pi };
    lemma_probe_pos_bound(start, t, cap);
    assert(upd.len() == cap);
    assert(dir[pos].is_none());
    assert(upd[pos] == Some(e));
    // The new key is found at step t in the updated directory.
    assert(blocked_upto(upd, key, t)) by {
        assert forall|u: nat|
            u < t implies (#[trigger] slot_on_path(upd, key, u)).is_some() && slot_on_path(
            upd,
            key,
            u,
        ).unwrap().key != key by {
            let pu = probe_pos(start, u, cap) as int;
            lemma_probe_pos_bound(start, u, cap);
            assert(slot_on_path(dir, key, u).is_some() && slot_on_path(dir, key, u).unwrap().key
                != key);
            assert(dir[pu].is_some());
            assert(pu != pos);
            assert(upd[pu] == dir[pu]);
        }
    }
    assert(slot_on_path(upd, key, t) == upd[pos]);
    assert(found_at(upd, key, t));
    assert(dir_has_key(upd, key));
    lemma_found_unique(upd, key, t, find_step(upd, key));
    assert(key_pos(upd, key) == pos);
    assert(payload_index_in(upd, key) == pi);
    // Other keys are found in the updated directory exactly when they were
    // found before, at the same slot with the same payload.
    assert forall|k2: u64| k2 != key implies (#[trigger] dir_has_key(upd, k2)) == dir_has_key(
        dir,
        k2,
    ) by {
        if dir_has_key(dir, k2) {
            let s = find_step(dir, k2);
            assert(found_at(dir, k2, s));
            lemma_found_at_transfer(dir, upd, pos, e, k2, s);
            assert(dir_has_key(upd, k2));
        }
        if dir_has_key(upd, k2) {
            let s = find_step(upd, k2);
            assert(found_at(upd, k2, s));
            let ps = probe_pos(start_of(k2, cap), s, cap) as int;
            lemma_probe_pos_bound(start_of(k2, cap), s, cap);
            assert(slot_on_path(upd, k2, s) == upd[ps]);
            assert(upd[ps].is_some() && upd[ps].unwrap().key == k2);
            assert(ps != pos);
            assert(dir[ps] == upd[ps]);
            lemma_key_pos_of_slot(dir, ps);
            assert(dir_has_key(dir, k2));
        }
    }
    assert forall|k2: u64|
        k2 != key && dir_has_key(dir, k2) implies #[trigger] payload_index_in(upd, k2)
        == payload_index_in(dir, k2) && key_pos(upd, k2) == key_pos(dir, k2) by {
        let s = find_step(dir, k2);
        assert(found_at(dir, k2, s));
        lemma_found_at_transfer(dir, upd, pos, e, k2, s);
        assert(dir_has_key(upd, k2));
        lemma_found_unique(upd, k2, s, find_step(upd, k2));
        let ps = probe_pos(start_of(k2, cap), s, cap) as int;
        lemma_probe_pos_bound(start_of(k2, cap), s, cap);
        assert(key_pos(upd, k2) == ps && key_pos(dir, k2) == ps);
        assert(dir[ps].is_some());
        assert(ps != pos);
        assert(upd[ps] == dir[ps]);
    }
    // The whole directory stays well-placed.
    assert forall|p: int|
        0 <= p < upd.len() && (#[trigger] upd[p]).is_some() implies exists|t2: nat|
        t2 < upd.len() && found_at(upd, upd[p].unwrap().key, t2) && probe_pos(
        start_of(upd[p].unwrap().key, upd.len()),
        t2,
        upd.len(),
    ) == p by {
        if p == pos {
            assert(t < upd.len() && found_at(upd, upd[p].unwrap().key, t) && probe_pos(
                start_of(upd[p].unwrap().key, upd.len()),
                t,
                upd.len(),
            ) == p);
        } else {
            assert(dir[p] == upd[p]);
            let k3 = dir[p].unwrap().key;
            lemma_key_pos_of_slot(dir, p);
            assert(k3 != key);
            let t0 = choose|t0: nat|
                t0 < dir.len() && found_at(dir, k3, t0) && probe_pos(
                    start_of(k3, dir.len()),
                    t0,
                    dir.len(),
                ) == p;
            lemma_found_at_transfer(dir, upd, pos, e, k3, t0);
            assert(t0 < upd.len() && found_at(upd, upd[p].unwrap().key, t0) && probe_pos(
                start_of(upd[p].unwrap().key, upd.len()),
                t0,
                upd.len(),
            ) == p);
        }
    }
    lemma_occupied_count_update(dir, pos, e);
}

/// A fully occupied prefix of a sequence: if every slot is occupied, the
/// occupied count is the whole length.
proof fn lemma_occupied_count_full(dir: Seq<Option<SlotEntry>>)
    requires
        forall|p: int| 0 <= p < dir.len() ==> (#[trigger] dir[p]).is_some(),
    ensures
        occupied_count(dir) == dir.len(),
    decreases dir.len(),
{
    if dir.len() > 0 {
        lemma_occupied_count_full(dir.drop_last());
    }
}

/// Writing an entry into an empty slot raises the occupied count by one.
proof fn lemma_occupied_count_update(dir: Seq<Option<SlotEntry>>, p: int, e: SlotEntry)
    requires
        0 <= p < dir.len(),
        dir[p].is_none(),
    ensures
        occupied_count(dir.update(p, Some(e))) == occupied_count(dir) + 1,
    decreases dir.len(),
{
    let upd = dir.update(p, Some(e));
    if p == dir.len() - 1 {
        assert(upd.drop_last() =~= dir.drop_last());
    } else {
        assert(upd.drop_last() =~= dir.drop_last().update(p, Some(e)));
        lemma_occupied_count_update(dir.drop_last(), p, e);
        assert(upd.last() == dir.last());
    }
}

/// Scanning one more slot adds that slot's occupancy to the running count.
proof fn lemma_occupied_count_take_step(dir: Seq<Option<SlotEntry>>, i: int)
    requires
        0 <= i < dir.len(),
    ensures
        occupied_count(dir.take(i + 1)) == occupied_count(dir.take(i)) + if dir[i].is_some() {
            1int
        } else {
            0int
        },
{
    assert(dir.take(i + 1).drop_last() =~= dir.take(i));
    assert(dir.take(i + 1).last() == dir[i]);
}

/// A scanned prefix never holds more occupied slots than the whole
/// directory.
proof fn lemma_occupied_count_take_le(dir: Seq<Option<SlotEntry>>, i: int)
    requires
        0 <= i <= dir.len(),
    ensures
        occupied_count(dir.take(i)) <= occupied_count(dir),
    decreases dir.len() - i,
{
    if i == dir.len() {
        assert(dir.take(i) =~= dir);
    } else {
        lemma_occupied_count_take_step(dir, i);
        lemma_occupied_count_take_le(dir, i + 1);
    }
}

/// A directory with no occupied slot has an occupied count of zero.
proof fn lemma_occupied_count_none(dir: Seq<Option<SlotEntry>>)
    requires
        forall|p: int| 0 <= p < dir.len() ==> (#[trigger] dir[p]).is_none(),
    ensures
        occupied_count(dir) == 0,
    decreases dir.len(),
{
    if dir.len() > 0 {
        lemma_occupied_count_none(dir.drop_last());
    }
}

/// A directory whose every key and payload also stands in a source
/// directory inherits the source's payload injectivity.
proof fn lemma_injective_from_source(
    src: Seq<Option<SlotEntry>>,
    dst: Seq<Option<SlotEntry>>,
)
    requires
        slots_reachable(src),
        slots_reachable(dst),
        payloads_injective(src),
        forall|k: u64|
            #[trigger] dir_has_key(dst, k) ==> dir_has_key(src, k) && payload_index_in(dst, k)
                == payload_index_in(src, k),
    ensures
        payloads_injective(dst),
{
    assert forall|p1: int, p2: int|
        0 <= p1 < dst.len() && 0 <= p2 < dst.len() && p1 != p2 && (#[trigger] dst[p1]).is_some()
            && (#[trigger] dst[p2]).is_some() implies dst[p1].unwrap().payload
        != dst[p2].unwrap().payload by {
        let k1 = dst[p1].unwrap().key;
        let k2 = dst[p2].unwrap().key;
        lemma_key_pos_of_slot(dst, p1);
        lemma_key_pos_of_slot(dst, p2);
        if k1 == k2 {
            lemma_keys_unique(dst, p1, p2);
        }
        assert(k1 != k2);
        // Both keys stand in the source, at distinct slots.
        let r1 = key_pos(src, k1);
        let r2 = key_pos(src, k2);
        assert(found_at(src, k1, find_step(src, k1)));
        assert(found_at(src, k2, find_step(src, k2)));
        lemma_probe_pos_bound(start_of(k1, src.len()), find_step(src, k1), src.len());
        lemma_probe_pos_bound(start_of(k2, src.len()), find_step(src, k2), src.len());
        assert(src[r1].is_some() && src[r1].unwrap().key == k1);
        assert(src[r2].is_some() && src[r2].unwrap().key == k2);
        assert(r1 != r2);
        assert(src[r1].unwrap().payload != src[r2].unwrap().payload);
    }
}

/// Overwriting one key's payload cell rewrites that key's value in the
/// table's mapping and nothing else: the other keys' slots point at other
/// cells.
proof fn lemma_view_update<V>(
    dir: Seq<Option<SlotEntry>>,
    payloads: Seq<V>,
    key: u64,
    pi: usize,
    x: V,
)
    requires
        slots_reachable(dir),
        payloads_valid(dir, payloads.len()),
        payloads_injective(dir),
        dir_has_key(dir, key),
        payload_index_in(dir, key) == pi,
    ensures
        dir_view(dir, payloads.update(pi as int, x)) == dir_view(dir, payloads).insert(key, x),
{
    let fs = find_step(dir, key);
    assert(found_at(dir, key, fs));
    lemma_probe_pos_bound(start_of(key, dir.len()), fs, dir.len());
    let kp = key_pos(dir, key);
    assert(dir[kp].is_some() && dir[kp].unwrap().key == key);
    assert forall|k2: u64|
        dir_has_key(dir, k2) && k2 != key implies payload_index_in(dir, k2) != pi by {
        let fs2 = find_step(dir, k2);
        assert(found_at(dir, k2, fs2));
        lemma_probe_pos_bound(start_of(k2, dir.len()), fs2, dir.len());
        let kp2 = key_pos(dir, k2);
        assert(dir[kp2].is_some() && dir[kp2].unwrap().key == k2);
        assert(kp2 != kp);
        assert(dir[kp2].unwrap().payload != dir[kp].unwrap().payload);
    }
    assert(dir_view(dir, payloads.update(pi as int, x)) =~= dir_view(dir, payloads).insert(
        key,
        x,
    ));
}

/// If every step of a probe sequence up to the capacity is blocked, the
/// directory is full.
proof fn lemma_blocked_full(dir: Seq<Option<SlotEntry>>, key: u64)
    requires
        valid_cap(dir.len()),
        blocked_upto(dir, key, dir.len()),
    ensures
        occupied_count(dir) == dir.len(),
{
    let cap = dir.len();
    let k = choose|k: nat| cap == pow2(k);
    assert forall|p: int| 0 <= p < cap implies (#[trigger] dir[p]).is_some() by {
        lemma_probe_onto(k, start_of(key, cap), p as nat);
        let t = choose|t: nat|
            t < pow2(k) && probe_pos(start_of(key, cap), t, pow2(k)) == p as nat;
        assert(slot_on_path(dir, key, t).is_some());
    }
    lemma_occupied_count_full(dir);
}

/// Walks `key`'s probe sequence and returns the index of the first slot that
/// is either empty or already holds `key`.  Keys are never removed, so an
/// empty slot ends every search; the directory is never full, so such a slot
/// is always reached.
pub fn seek(slots: &Vec<Option<SlotEntry>>, key: u64) -> (r: usize)
    requires
        valid_cap(slots@.len()),
        slots@.len() <= usize::MAX / 2,
        occupied_count(slots@) < slots@.len(),
    ensures
        r < slots@.len(),
        exists|t: nat|
            t < slots@.len() && probe_pos(start_of(key, slots@.len()), t, slots@.len()) == r
                && blocked_upto(slots@, key, t),
        slots@[r as int].is_some() ==> slots@[r as int].unwrap().key == key,
{
    let ghost dir = slots@;
    let cap = slots.len();
    let ghost start = start_of(key, dir.len());
    let start_index = (get_hash_index(key) % (cap as u64)) as usize;
    proof {
        lemma_mod_division_less_than_divisor(crate::probe::hash_spec(key) as int, cap as int);
        lemma_small_mod(start, cap as nat);
    }
    let mut probe = QuadraticProbe::new(start_index, cap);
    loop
        invariant
            valid_cap(dir.len()),
            dir.len() <= usize::MAX / 2,
            occupied_count(dir) < dir.len(),
            dir == slots@,
            cap == dir.len(),
            start == start_of(key, dir.len()),
            probe.wf(),
            probe.modulus == cap,
            probe.iteration < cap,
            probe.index == probe_pos(start, probe.iteration as nat, cap as nat),
            blocked_upto(dir, key, probe.iteration as nat),
        decreases cap - probe.iteration,
    {
        let ghost t = probe.iteration as nat;
        let i = probe.get_index();
        proof {
            lemma_probe_pos_bound(start, t, cap as nat);
        }
        match slots[i] {
            None => {
                return i;
            },
            Some(entry) => {
                if entry.key == key {
                    return i;
                }
            },
        }
        proof {
            assert(slot_on_path(dir, key, t).is_some() && slot_on_path(dir, key, t).unwrap().key
                != key);
            assert(blocked_upto(dir, key, t + 1)) by {
                assert forall|u: nat|
                    u < t + 1 implies (#[trigger] slot_on_path(dir, key, u)).is_some()
                    && slot_on_path(dir, key, u).unwrap().key != key by {
                    if u < t {
                        assert(blocked_upto(dir, key, t));
                    }
                }
            }
            if t + 1 == cap {
                lemma_blocked_full(dir, key);
                assert(false);
            }
            lemma_probe_step(start, t, cap as nat);
        }
        probe.increment();
    }
}

/// The slot table.  The directory starts empty, grows to four slots on the
/// first insertion and doubles whenever it runs past seven eighths full.
pub struct RawTypeContainer<V> {
    slots: Vec<Option<SlotEntry>>,
    payloads: Vec<V>,
    length: usize,
}

impl<V> View for RawTypeContainer<V> {
    type V = Map<u64, V>;

    /// What the table holds: each stored key identity and its value.
    closed spec fn view(&self) -> Map<u64, V> {
        dir_view(self.slots@, self.payloads@)
    }
}

impl<V> RawTypeContainer<V> {
    /// Number of keys stored.
    pub closed spec fn spec_len(&self) -> nat {
        self.length as nat
    }

    /// Number of directory slots.
    pub closed spec fn spec_cap(&self) -> nat {
        self.slots@.len()
    }

    /// The payload arena: every stored value, in insertion order.  Growth
    /// of the directory never disturbs it.
    pub closed spec fn spec_payloads(&self) -> Seq<V> {
        self.payloads@
    }

    /// The arena position of `key`'s payload.
    pub closed spec fn payload_index_of(&self, key: u64) -> nat {
        payload_index_in(self.slots@, key)
    }

    /// The table's invariant, established by `new` and kept by every method:
    /// the directory is a power-of-two array with room to spare, its
    /// occupied slots stand where their keys' probes first hit, and each
    /// points at its own cell of the payload arena.
    pub closed spec fn wf(&self) -> bool {
        &&& self.inv_core()
        &&& (self.slots@.len() > 0 ==> (self.length as nat) < self.slots@.len())
    }

    spec fn inv_core(&self) -> bool {
        let dir = self.slots@;
        &&& (dir.len() == 0 || valid_cap(dir.len()))
        &&& dir.len() <= usize::MAX / 2
        &&& self.length as nat == occupied_count(dir)
        &&& self.length as nat <= dir.len()
        &&& self.payloads@.len() == self.length as nat
        &&& slots_reachable(dir)
        &&& payloads_valid(dir, self.payloads@.len())
        &&& payloads_injective(dir)
    }

    /// A fresh table: no directory yet, nothing stored.
    pub fn new() -> (r: RawTypeContainer<V>)
        ensures
            r.wf(),
            r@ == Map::<u64, V>::empty(),
            r.spec_len() == 0,
            r.spec_cap() == 0,
            r.spec_payloads() == Seq::<V>::empty(),
    {
        let r = RawTypeContainer { slots: Vec::new(), payloads: Vec::new(), length: 0 };
        proof {
            assert(r@ =~= Map::<u64, V>::empty());
        }
        r
    }

    /// How many keys the table stores.
    pub fn len(&self) -> (r: usize)
        ensures
            r == self.spec_len(),
    {
        self.length
    }

    /// Looks `key` up and, when present, hands out a shared reference to its
    /// payload; absence is reported, never an arbitrary value.
    pub fn get(&self, key: u64) -> (r: Option<&V>)
        requires
            self.wf(),
        ensures
            match r {
                Some(v) => self@.contains_key(key) && *v == self@[key],
                None => !self@.contains_key(key),
            },
    {
        if self.slots.len() == 0 {
            proof {
                assert(!dir_has_key(self.slots@, key));
            }
            return None;
        }
        let i = seek(&self.slots, key);
        let ghost dir = self.slots@;
        let ghost t = choose|t: nat|
            t < dir.len() && probe_pos(start_of(key, dir.len()), t, dir.len()) == i
                && blocked_upto(dir, key, t);
        match self.slots[i] {
            Some(entry) => {
                proof {
                    assert(found_at(dir, key, t));
                    assert(dir_has_key(dir, key));
                    lemma_found_unique(dir, key, t, find_step(dir, key));
                    assert(payload_index_in(dir, key) == entry.payload);
                }
                Some(&self.payloads[entry.payload])
            },
            None => {
                proof {
                    lemma_seek_none(dir, key, t);
                }
                None
            },
        }
    }

    /// Looks `key` up and, when present, hands out an exclusive reference
    /// to its payload.  Only that key's value can change through the
    /// reference: the directory, the key set and every other payload stay
    /// exactly as they were.
    pub fn get_mut(&mut self, key: u64) -> (r: Option<&mut V>)
        requires
            old(self).wf(),
        ensures
            final(self).wf(),
            r.is_some() == old(self)@.contains_key(key),
            r.is_some() ==> *r.unwrap() == old(self)@[key] && final(self)@ == old(self)@.insert(
                key,
                *final(r.unwrap()),
            ) && final(self).spec_len() == old(self).spec_len() && final(self).spec_cap() == old(
                self,
            ).spec_cap() && final(self).spec_payloads() == old(self).spec_payloads().update(
                old(self).payload_index_of(key) as int,
                *final(r.unwrap()),
            ) && final(self).payload_index_of(key) == old(self).payload_index_of(key),
            r.is_none() ==> *final(self) == *old(self),
    {
        if self.slots.len() == 0 {
            proof {
                assert(!dir_has_key(self.slots@, key));
            }
            return None;
        }
        let ghost dir = self.slots@;
        let ghost pls = self.payloads@;
        let i = seek(&self.slots, key);
        let ghost t = choose|t: nat|
            t < dir.len() && probe_pos(start_of(key, dir.len()), t, dir.len()) == i
                && blocked_upto(dir, key, t);
        match self.slots[i] {
            Some(entry) => {
                proof {
                    assert(found_at(dir, key, t));
                    assert(dir_has_key(dir, key));
                    lemma_found_unique(dir, key, t, find_step(dir, key));
                    assert(payload_index_in(dir, key) == entry.payload);
                    assert forall|x: V|
                        dir_view(dir, pls.update(entry.payload as int, x)) == dir_view(
                            dir,
                            pls,
                        ).insert(key, x) by {
                        lemma_view_update(dir, pls, key, entry.payload, x);
                    }
                }
                Some(&mut self.payloads[entry.payload])
            },
            None => {
                proof {
                    lemma_seek_none(dir, key, t);
                }
                None
            },
        }
    }

    /// The arena position of `key`'s payload: the stable handle a lookup
    /// rests on.  It keeps naming the same cell across later insertions of
    /// other keys, however often the directory grows.
    pub fn payload_handle(&self, key: u64) -> (r: Option<usize>)
        requires
            self.wf(),
        ensures
            r.is_some() == self@.contains_key(key),
            r.is_some() ==> r.unwrap() == self.payload_index_of(key),
    {
        if self.slots.len() == 0 {
            proof {
                assert(!dir_has_key(self.slots@, key));
            }
            return None;
        }
        let ghost dir = self.slots@;
        let i = seek(&self.slots, key);
        let ghost t = choose|t: nat|
            t < dir.len() && probe_pos(start_of(key, dir.len()), t, dir.len()) == i
                && blocked_upto(dir, key, t);
        match self.slots[i] {
            Some(entry) => {
                proof {
                    assert(found_at(dir, key, t));
                    assert(dir_has_key(dir, key));
                    lemma_found_unique(dir, key, t, find_step(dir, key));
                }
                Some(entry.payload)
            },
            None => {
                proof {
                    lemma_seek_none(dir, key, t);
                }
                None
            },
        }
    }

    /// Reads the arena cell a payload handle names.
    pub fn payload_at(&self, i: usize) -> (r: &V)
        requires
            self.wf(),
            i < self.spec_payloads().len(),
        ensures
            *r == self.spec_payloads()[i as int],
    {
        &self.payloads[i]
    }

    /// A stored key's payload handle points into the arena, at the very
    /// value the table maps the key to.
    pub proof fn lemma_payload_lookup(&self, key: u64)
        requires
            self.wf(),
            self@.contains_key(key),
        ensures
            self.payload_index_of(key) < self.spec_payloads().len(),
            self@[key] == self.spec_payloads()[self.payload_index_of(key) as int],
    {
        let dir = self.slots@;
        assert(dir_has_key(dir, key));
        let fs = find_step(dir, key);
        assert(found_at(dir, key, fs));
        lemma_probe_pos_bound(start_of(key, dir.len()), fs, dir.len());
        assert(dir[key_pos(dir, key)].is_some());
    }

    /// Doubles the directory (or allocates the first four slots) and
    /// rehashes every occupied slot into the fresh array by re-running the
    /// insert probe.  Payloads are not touched: only the slot array is
    /// replaced, which is what keeps payload positions stable across growth.
    fn grow(&mut self)
        requires
            old(self).inv_core(),
            4 * old(self).spec_cap() <= usize::MAX,
        ensures
            final(self).inv_core(),
            final(self)@ == old(self)@,
            final(self).spec_payloads() == old(self).spec_payloads(),
            final(self).spec_len() == old(self).spec_len(),
            final(self).spec_cap() == if old(self).spec_cap() == 0 {
                4nat
            } else {
                2 * old(self).spec_cap()
            },
            final(self).spec_len() < final(self).spec_cap(),
            forall|k: u64|
                old(self)@.contains_key(k) ==> #[trigger] final(self).payload_index_of(k) == old(
                    self,
                ).payload_index_of(k),
    {
        let old_cap = self.slots.len();
        let new_cap = if old_cap == 0 {
            4
        } else {
            2 * old_cap
        };
        proof {
            lemma2_to64();
            if old_cap == 0 {
                assert(new_cap as nat == pow2(2));
            } else {
                let k = choose|k: nat| old_cap as nat == pow2(k);
                lemma_pow2_adds(1, k);
                assert(new_cap as nat == pow2(k + 1));
            }
            assert(valid_cap(new_cap as nat));
        }
        // A fresh directory, entirely empty.
        let mut new_slots: Vec<Option<SlotEntry>> = Vec::new();
        while new_slots.len() < new_cap
            invariant
                new_slots@.len() <= new_cap,
                forall|p: int| 0 <= p < new_slots@.len() ==> (#[trigger] new_slots@[p]).is_none(),
            decreases new_cap - new_slots.len(),
        {
            new_slots.push(None);
        }
        proof {
            lemma_occupied_count_none(new_slots@);
            assert forall|k: u64| !(#[trigger] dir_has_key(new_slots@, k)) by {
                if dir_has_key(new_slots@, k) {
                    let s = find_step(new_slots@, k);
                    assert(found_at(new_slots@, k, s));
                    lemma_probe_pos_bound(start_of(k, new_slots@.len()), s, new_slots@.len());
                    assert(slot_on_path(new_slots@, k, s).is_some());
                    assert(false);
                }
            }
            assert(occupied_count(self.slots@.take(0)) == 0);
        }
        // Rehash: re-run the insert probe for every occupied slot.
        let ghost dirv = self.slots@;
        let ghost plen = self.payloads@.len();
        let mut i: usize = 0;
        while i < old_cap
            invariant
                *self == *old(self),
                dirv == self.slots@,
                old_cap == dirv.len(),
                plen == self.payloads@.len(),
                old(self).inv_core(),
                new_slots@.len() == new_cap,
                valid_cap(new_cap as nat),
                new_cap <= usize::MAX / 2,
                old_cap < new_cap,
                i <= old_cap,
                occupied_count(new_slots@) == occupied_count(dirv.take(i as int)),
                slots_reachable(new_slots@),
                payloads_valid(new_slots@, plen),
                payloads_injective(new_slots@),
                forall|k: u64|
                    #[trigger] dir_has_key(new_slots@, k) <==> (dir_has_key(dirv, k) && key_pos(
                        dirv,
                        k,
                    ) < i),
                forall|k: u64|
                    #[trigger] dir_has_key(new_slots@, k) ==> payload_index_in(new_slots@, k)
                        == payload_index_in(dirv, k),
            decreases old_cap - i,
        {
            let ghost ns0 = new_slots@;
            match self.slots[i] {
                None => {
                    proof {
                        lemma_occupied_count_take_step(dirv, i as int);
                        assert forall|k: u64|
                            dir_has_key(dirv, k) && key_pos(dirv, k) < i + 1 implies key_pos(
                            dirv,
                            k,
                        ) < i by {
                            if key_pos(dirv, k) == i {
                                let fs = find_step(dirv, k);
                                assert(found_at(dirv, k, fs));
                                assert(slot_on_path(dirv, k, fs).is_some());
                                assert(false);
                            }
                        }
                    }
                },
                Some(entry) => {
                    proof {
                        lemma_key_pos_of_slot(dirv, i as int);
                        assert(key_pos(dirv, entry.key) == i);
                        assert(!dir_has_key(new_slots@, entry.key));
                        lemma_occupied_count_take_le(dirv, i as int);
                    }
                    let j = seek(&new_slots, entry.key);
                    let ghost t = choose|t: nat|
                        t < new_slots@.len() && probe_pos(
                            start_of(entry.key, new_slots@.len()),
                            t,
                            new_slots@.len(),
                        ) == j && blocked_upto(new_slots@, entry.key, t);
                    match new_slots[j] {
                        Some(_) => {
                            proof {
                                assert(found_at(ns0, entry.key, t));
                                assert(dir_has_key(ns0, entry.key));
                                assert(false);
                            }
                        },
                        None => {
                            new_slots[j] = Some(entry);
                            proof {
                                assert(new_slots@ == ns0.update(j as int, Some(entry)));
                                lemma_insert_entry(
                                    ns0,
                                    new_slots@,
                                    entry.key,
                                    entry.payload,
                                    t,
                                );
                                lemma_occupied_count_take_step(dirv, i as int);
                                // Which keys the new directory now holds.
                                assert forall|k: u64| #[trigger]
                                    dir_has_key(new_slots@, k) <==> (dir_has_key(dirv, k)
                                    && key_pos(dirv, k) < i + 1) by {
                                    if k != entry.key {
                                        assert(dir_has_key(new_slots@, k) == dir_has_key(
                                            ns0,
                                            k,
                                        ));
                                        if dir_has_key(dirv, k) && key_pos(dirv, k) == i {
                                            let fs = find_step(dirv, k);
                                            assert(found_at(dirv, k, fs));
                                            assert(slot_on_path(dirv, k, fs)
                                                == dirv[key_pos(dirv, k)]);
                                            assert(dirv[i as int].unwrap().key == k);
                                            assert(false);
                                        }
                                    }
                                }
                                assert forall|k: u64| #[trigger]
                                    dir_has_key(new_slots@, k) implies payload_index_in(
                                    new_slots@,
                                    k,
                                ) == payload_index_in(dirv, k) by {
                                    if k == entry.key {
                                        assert(payload_index_in(new_slots@, k)
                                            == entry.payload);
                                        assert(payload_index_in(dirv, k)
                                            == dirv[i as int].unwrap().payload);
                                    } else {
                                        assert(dir_has_key(ns0, k));
                                    }
                                }
                                // Payload positions stay in range and distinct.
                                assert forall|p: int|
                                    0 <= p < new_slots@.len() && (#[trigger] new_slots@[p])
                                        .is_some() implies new_slots@[p].unwrap().payload
                                    < plen by {
                                    if p != j as int {
                                        assert(new_slots@[p] == ns0[p]);
                                    } else {
                                        assert(new_slots@[p].unwrap().payload == entry.payload);
                                        assert(dirv[i as int].is_some());
                                    }
                                }
                                lemma_injective_from_source(dirv, new_slots@);
                            }
                        },
                    }
                },
            }
            i += 1;
        }
        proof {
            assert(dirv.take(old_cap as int) =~= dirv);
            assert forall|k: u64|
                dir_has_key(dirv, k) implies key_pos(dirv, k) < old_cap by {
                assert(found_at(dirv, k, find_step(dirv, k)));
                lemma_probe_pos_bound(start_of(k, dirv.len()), find_step(dirv, k), dirv.len());
            }
        }
        self.slots = new_slots;
        proof {
            assert(self@ =~= old(self)@);
            assert(2 * old_cap <= usize::MAX / 2);
        }
    }

    /// Grows the directory when occupancy runs past seven eighths of the
    /// capacity, or when the minimum-size directory of four is full.
    fn grow_maybe(&mut self)
        requires
            old(self).inv_core(),
            old(self).spec_cap() > 0,
            old(self).spec_len() <= usize::MAX / 8,
        ensures
            final(self).inv_core(),
            final(self)@ == old(self)@,
            final(self).spec_payloads() == old(self).spec_payloads(),
            final(self).spec_len() == old(self).spec_len(),
            final(self).spec_cap() >= old(self).spec_cap(),
            final(self).spec_len() < final(self).spec_cap(),
            forall|k: u64|
                old(self)@.contains_key(k) ==> #[trigger] final(self).payload_index_of(k) == old(
                    self,
                ).payload_index_of(k),
    {
        let cap = self.slots.len();
        proof {
            lemma2_to64();
            if cap > 4 {
                let k = choose|k: nat| cap as nat == pow2(k);
                assert(k >= 3) by {
                    if k < 3 {
                        vstd::arithmetic::power2::lemma_pow2_strictly_increases(k, 3);
                    }
                }
                lemma_pow2_adds(3, (k - 3) as nat);
                assert(cap as nat == 8 * pow2((k - 3) as nat));
            }
        }
        if (cap > 4 && self.length > cap / 8 * 7) || (cap == 4 && self.length == 4) {
            proof {
                if cap > 4 {
                    let c8 = cap as int / 8;
                    assert(cap == 8 * c8);
                    assert(7 * c8 < self.length as int);
                    assert(8 * (usize::MAX as int / 8) <= usize::MAX as int) by (nonlinear_arith);
                    assert(56 * c8 <= 8 * (usize::MAX as int / 8) - 8);
                    assert(4 * cap == 32 * c8);
                    assert(32 * c8 <= 56 * c8);
                }
            }
            self.grow();
        } else {
            proof {
                if cap > 4 {
                    let c8 = cap as int / 8;
                    assert(cap == 8 * c8);
                    assert(self.length <= 7 * c8);
                    assert(7 * c8 < 8 * c8);
                }
            }
        }
    }

    /// Inserts `value` under `key` if the key has no slot yet; an occupied
    /// key is a reported, recoverable error and the stored value stays as it
    /// was.  On success the payload arena gains exactly one cell at its end,
    /// so every payload position handed out earlier still names the same
    /// value: insertion never invalidates what previous lookups returned.
    pub fn try_insert(&mut self, key: u64, value: V) -> (r: Result<(), StoreError>)
        requires
            old(self).wf(),
            old(self).spec_len() < usize::MAX / 8,
        ensures
            final(self).wf(),
            match r {
                Ok(_) => {
                    &&& !old(self)@.contains_key(key)
                    &&& final(self)@ == old(self)@.insert(key, value)
                    &&& final(self).spec_len() == old(self).spec_len() + 1
                    &&& final(self).spec_payloads() == old(self).spec_payloads().push(value)
                    &&& final(self).payload_index_of(key) == old(self).spec_payloads().len()
                    &&& forall|k2: u64|
                        old(self)@.contains_key(k2) ==> #[trigger] final(self).payload_index_of(
                            k2,
                        ) == old(self).payload_index_of(k2)
                },
                Err(e) => {
                    &&& e == StoreError::KeyAlreadyPresent
                    &&& old(self)@.contains_key(key)
                    &&& *final(self) == *old(self)
                },
            },
    {
        if self.slots.len() == 0 {
            self.grow();
        }
        let ghost dir = self.slots@;
        let i = seek(&self.slots, key);
        let ghost t = choose|t: nat|
            t < dir.len() && probe_pos(start_of(key, dir.len()), t, dir.len()) == i
                && blocked_upto(dir, key, t);
        match self.slots[i] {
            Some(_) => {
                proof {
                    assert(found_at(dir, key, t));
                    assert(dir_has_key(dir, key));
                    if old(self).spec_cap() == 0 {
                        assert(self@ == old(self)@);
                        assert(false);
                    }
                }
                Err(StoreError::KeyAlreadyPresent)
            },
            None => {
                proof {
                    lemma_seek_none(dir, key, t);
                }
                let pi = self.payloads.len();
                self.payloads.push(value);
                self.slots[i] = Some(SlotEntry { key, payload: pi });
                self.length = self.length + 1;
                proof {
                    assert(self.slots@ == dir.update(
                        i as int,
                        Some(SlotEntry { key, payload: pi }),
                    ));
                    lemma_insert_entry(
                        dir,
                        self.slots@,
                        key,
                        pi,
                        t,
                    );
                    // Payload positions: existing slots point below the old
                    // arena end, the new slot points at the pushed cell.
                    assert forall|p: int|
                        0 <= p < self.slots@.len() && (#[trigger] self.slots@[p])
                            .is_some() implies self.slots@[p].unwrap().payload
                        < self.payloads@.len() by {
                        if p != i as int {
                            assert(self.slots@[p] == dir[p]);
                        }
                    }
                    assert forall|p1: int, p2: int|
                        0 <= p1 < self.slots@.len() && 0 <= p2 < self.slots@.len() && p1 != p2
                            && (#[trigger] self.slots@[p1]).is_some() && (#[trigger] self.slots@[p2]).is_some()
                        implies self.slots@[p1].unwrap().payload != self.slots@[p2].unwrap().payload by {
                        if p1 != i as int && p2 != i as int {
                            assert(self.slots@[p1] == dir[p1] && self.slots@[p2] == dir[p2]);
                        } else if p1 == i as int {
                            assert(self.slots@[p2] == dir[p2]);
                        } else {
                            assert(self.slots@[p1] == dir[p1]);
                        }
                    }
                    // The view gains exactly the new key.
                    assert(dir_view(self.slots@, self.payloads@) =~= dir_view(
                        dir,
                        old(self).spec_payloads(),
                    ).insert(key, value));
                }
                self.grow_maybe();
                Ok(())
            },
        }
    }
}

/// The slot table behind its public handle: at most one value per key
/// identity, insert-if-absent, shared and exclusive lookup.
pub struct TypeContainer<V> {
    container: RawTypeContainer<V>,
}

impl<V> View for TypeContainer<V> {
    type V = Map<u64, V>;

    /// What the container holds: each stored key identity and its value.
    closed spec fn view(&self) -> Map<u64, V> {
        self.container@
    }
}

impl<V> TypeContainer<V> {
    /// The container's invariant; `new` establishes it and every method
    /// keeps it.
    pub closed spec fn wf(&self) -> bool {
        self.container.wf()
    }

    /// Number of keys stored.
    pub closed spec fn spec_len(&self) -> nat {
        self.container.spec_len()
    }

    /// The payload arena, in insertion order; growth never disturbs it.
    pub closed spec fn spec_payloads(&self) -> Seq<V> {
        self.container.spec_payloads()
    }

    /// The arena position of `key`'s payload.
    pub closed spec fn payload_index_of(&self, key: u64) -> nat {
        self.container.payload_index_of(key)
    }

    /// A fresh container: nothing stored, so every key reads as absent
    /// until its first insertion.
    pub fn new() -> (r: TypeContainer<V>)
        ensures
            r.wf(),
            r@ == Map::<u64, V>::empty(),
            r.spec_len() == 0,
            r.spec_payloads() == Seq::<V>::empty(),
    {
        TypeContainer { container: RawTypeContainer::new() }
    }

    /// Inserts `value` under `key` if the key is absent; a second insertion
    /// for the same key fails with `KeyAlreadyPresent` and the stored value
    /// stays the one from the first successful insert.  On success the
    /// payload arena gains one cell at its end and every earlier payload
    /// keeps its position and its value: an insertion never invalidates
    /// what previous lookups returned, even when it grows the directory.
    pub fn try_insert(&mut self, key: u64, value: V) -> (r: Result<(), StoreError>)
        requires
            old(self).wf(),
            old(self).spec_len() < usize::MAX / 8,
        ensures
            final(self).wf(),
            match r {
                Ok(_) => {
                    &&& !old(self)@.contains_key(key)
                    &&& final(self)@ == old(self)@.insert(key, value)
                    &&& final(self).spec_len() == old(self).spec_len() + 1
                    &&& final(self).spec_payloads() == old(self).spec_payloads().push(value)
                    &&& final(self).payload_index_of(key) == old(self).spec_payloads().len()
                    &&& forall|k2: u64|
                        old(self)@.contains_key(k2) ==> #[trigger] final(self).payload_index_of(
                            k2,
                        ) == old(self).payload_index_of(k2)
                },
                Err(e) => {
                    &&& e == StoreError::KeyAlreadyPresent
                    &&& old(self)@.contains_key(key)
                    &&& *final(self) == *old(self)
                },
            },
    {
        self.container.try_insert(key, value)
    }

    /// Looks `key` up: a shared reference to its value when present,
    /// absence otherwise.
    pub fn get(&self, key: u64) -> (r: Option<&V>)
        requires
            self.wf(),
        ensures
            match r {
                Some(v) => self@.contains_key(key) && *v == self@[key],
                None => !self@.contains_key(key),
            },
    {
        self.container.get(key)
    }

    /// How many keys the container stores.
    pub fn len(&self) -> (r: usize)
        ensures
            r == self.spec_len(),
    {
        self.container.len()
    }

    /// Looks `key` up for writing: an exclusive reference to its value when
    /// present.  Only that key's value can change through the reference;
    /// unrelated keys are unaffected.
    pub fn get_mut(&mut self, key: u64) -> (r: Option<&mut V>)
        requires
            old(self).wf(),
        ensures
            final(self).wf(),
            r.is_some() == old(self)@.contains_key(key),
            r.is_some() ==> *r.unwrap() == old(self)@[key] && final(self)@ == old(self)@.insert(
                key,
                *final(r.unwrap()),
            ) && final(self).spec_len() == old(self).spec_len() && final(self).spec_payloads()
                == old(self).spec_payloads().update(
                old(self).payload_index_of(key) as int,
                *final(r.unwrap()),
            ) && final(self).payload_index_of(key) == old(self).payload_index_of(key),
            r.is_none() ==> *final(self) == *old(self),
    {
        self.container.get_mut(key)
    }

    /// The arena position of `key`'s payload: a handle that stays valid
    /// across later insertions of other keys.
    pub fn payload_handle(&self, key: u64) -> (r: Option<usize>)
        requires
            self.wf(),
        ensures
            r.is_some() == self@.contains_key(key),
            r.is_some() ==> r.unwrap() == self.payload_index_of(key),
    {
        self.container.payload_handle(key)
    }

    /// Reads the arena cell a payload handle names.
    pub fn payload_at(&self, i: usize) -> (r: &V)
        requires
            self.wf(),
            i < self.spec_payloads().len(),
        ensures
            *r == self.spec_payloads()[i as int],
    {
        self.container.payload_at(i)
    }

    /// A stored key's payload handle points into the arena, at the very
    /// value the container maps the key to.
    pub proof fn lemma_payload_lookup(&self, key: u64)
        requires
            self.wf(),
            self@.contains_key(key),
        ensures
            self.payload_index_of(key) < self.spec_payloads().len(),
            self@[key] == self.spec_payloads()[self.payload_index_of(key) as int],
    {
        self.container.lemma_payload_lookup(key);
    }
}

} // verus!
