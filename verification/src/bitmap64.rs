//! The wide-register table: slot states packed thirty-two to a
//! 64-bit word.

use crate::keys::SlotKey;
use crate::model::{
    count_occupied, find_off, free_off, is_match, is_pow2, lemma_count_bounds, lemma_count_positive,
    lemma_count_update, lemma_count_zero, lemma_find_no_match, lemma_find_off_props,
    lemma_find_off_sound, lemma_free_off_props, lemma_mod_in_range,
    lemma_pow2_divides, lemma_probe_bijection, lemma_probe_step, pow2_from,
    probe_idx, slot_key, slot_off, slot_val, Slots,
};
use crate::model::{
    find_stop, free_stop, lemma_contains_complete, lemma_find_off_fill_empty, lemma_find_off_frame,
    prefix_nonempty,
};
use crate::state_bits::{get_state_u64, set_state_u64, word_state, DELETED, EMPTY, OCCUPIED};
use vstd::pervasive::VecAdditionalExecFns;
use vstd::prelude::*;

verus! {

/// An open-addressing hash map with linear probing whose per-slot state
/// (empty, occupied or deleted) is packed two bits per slot into 64-bit
/// words.
///
/// The capacity is always a power of two, at least 64, and the number of
/// occupied slots is kept below three quarters of it; crossing that
/// bound on insertion doubles the capacity and rehashes every entry.
pub struct BitMap64<K, V> {
    bitmap: Vec<u64>,
    buckets: Vec<Option<(K, V)>>,
    capacity: usize,
    size: usize,
}

impl<K: SlotKey, V> View for BitMap64<K, V> {
    type V = Map<K, V>;

    /// The table abstractly: the map that sends each stored key to the
    /// value a lookup walk reaches first.
    closed spec fn view(&self) -> Map<K, V> {
        Map::new(|k: K| self.contains_spec(k), |k: K| slot_val(self.slots(), self.found_slot(k)))
    }
}

impl<K: SlotKey, V> BitMap64<K, V> {
    /// The unpacked state sequence, one state per slot.
    pub closed spec fn states(&self) -> Seq<u8> {
        Seq::new(self.capacity as nat, |i: int| word_state(self.bitmap@, i))
    }

    /// The entry array.
    pub closed spec fn slots(&self) -> Slots<K, V> {
        self.buckets@
    }

    /// The current number of slots.
    pub closed spec fn spec_capacity(&self) -> int {
        self.capacity as int
    }

    /// The current number of occupied slots.
    pub closed spec fn spec_len(&self) -> int {
        self.size as int
    }

    /// The slot at which `key`'s probe sequence begins.
    pub closed spec fn start_of(&self, key: K) -> int {
        (key.hash_spec() as usize) as int % self.capacity as int
    }

    /// The number of probe steps after which a lookup walk for `key`
    /// stops.
    pub closed spec fn find_offset(&self, key: K) -> int {
        find_off(self.states(), self.slots(), self.capacity as int, self.start_of(key), key, 0)
    }

    /// The number of probe steps after which an insertion walk for
    /// `key` stops.
    pub closed spec fn free_offset(&self, key: K) -> int {
        free_off(self.states(), self.slots(), self.capacity as int, self.start_of(key), key, 0)
    }

    /// The slot at which a lookup walk for `key` stops.
    pub closed spec fn found_slot(&self, key: K) -> int {
        probe_idx(self.start_of(key), self.find_offset(key), self.capacity as int)
    }

    /// A lookup walk for `key` reaches an occupied slot holding it.
    pub closed spec fn contains_spec(&self, key: K) -> bool {
        self.find_offset(key) < self.capacity as int && self.states()[self.found_slot(key)]
            != EMPTY
    }

    /// Every slot an occupied slot's probe prefix passes over is
    /// non-empty, so lookup walks cannot stop short of the entry.
    pub closed spec fn slot_reachable(&self, i: int) -> bool {
        prefix_nonempty(
            self.states(),
            self.capacity as int,
            self.start_of(slot_key(self.slots(), i)),
            i,
        )
    }

    /// The structural invariant: parallel arrays of the right sizes, a
    /// power-of-two capacity, states consistent with entries, an exact
    /// occupied count, and reachability of every entry.
    pub closed spec fn inv(&self) -> bool {
        &&& self.buckets@.len() == self.capacity as int
        &&& self.bitmap@.len() * 32 == self.capacity as int
        &&& is_pow2(self.capacity as int)
        &&& self.capacity >= 64
        &&& self.size as int == count_occupied(self.states())
        &&& forall|i: int|
            0 <= i < self.capacity as int ==> (#[trigger] self.states()[i] == EMPTY
                || self.states()[i] == OCCUPIED || self.states()[i] == DELETED)
        &&& forall|i: int|
            0 <= i < self.capacity as int ==> ((#[trigger] self.states()[i] == OCCUPIED)
                <==> self.buckets@[i] is Some)
        &&& forall|i: int|
            0 <= i < self.capacity as int && self.states()[i] == OCCUPIED
                ==> #[trigger] self.slot_reachable(i)
    }

    /// Well-formedness: the structural invariant plus the load-factor
    /// bound, kept by every operation.
    pub closed spec fn wf(&self) -> bool {
        &&& self.inv()
        &&& self.spec_len() * 4 < self.spec_capacity() * 3
    }

    /// No two occupied slots hold the same key.
    pub closed spec fn distinct_keys(&self) -> bool {
        forall|i: int, j: int|
            #![trigger self.states()[i], self.states()[j]]
            0 <= i < self.capacity as int && 0 <= j < self.capacity as int && i != j
                && self.states()[i] == OCCUPIED && self.states()[j] == OCCUPIED ==> slot_key(
                self.slots(),
                i,
            ) != slot_key(self.slots(), j)
    }

    /// The table holds no tombstones.
    pub closed spec fn tombstone_free(&self) -> bool {
        forall|i: int| 0 <= i < self.capacity as int ==> #[trigger] self.states()[i] != DELETED
    }

    /// An insertion walk for `key` would stop at a tombstone although
    /// the table holds `key` further along the walk. Inserting then
    /// stores the key a second time: the known blemish of stopping at
    /// the first tombstone.
    pub closed spec fn shadowed(&self, key: K) -> bool {
        &&& self.free_offset(key) < self.capacity as int
        &&& self.states()[probe_idx(self.start_of(key), self.free_offset(key), self.capacity as int)]
            == DELETED
        &&& self@.contains_key(key)
    }

    /// At most one occupied slot holds `k`.
    spec fn key_distinct(&self, k: K) -> bool {
        forall|i: int, j: int|
            #![trigger self.states()[i], self.states()[j]]
            0 <= i < self.capacity as int && 0 <= j < self.capacity as int && i != j
                && self.states()[i] == OCCUPIED && self.states()[j] == OCCUPIED && slot_key(
                self.slots(),
                i,
            ) == k && slot_key(self.slots(), j) == k ==> false
    }

    /// With no two occupied slots sharing a key, every key is held by at
    /// most one slot.
    proof fn lemma_distinct_all_keys(&self)
        requires
            self.distinct_keys(),
        ensures
            forall|k: K| #[trigger] self.key_distinct(k),
    {
        assert forall|k: K| #[trigger] self.key_distinct(k) by {
            assert forall|i: int, j: int|
                #![trigger self.states()[i], self.states()[j]]
                0 <= i < self.capacity as int && 0 <= j < self.capacity as int && i != j
                    && self.states()[i] == OCCUPIED && self.states()[j] == OCCUPIED && slot_key(
                    self.slots(),
                    i,
                ) == k && slot_key(self.slots(), j) == k implies false by {}
        }
    }

    /// A key the table does not contain cannot be shadowed: shadowing
    /// requires the key to be stored past a tombstone on its own probe
    /// walk.
    pub proof fn lemma_absent_not_shadowed(&self, key: K)
        requires
            !self@.contains_key(key),
        ensures
            !self.shadowed(key),
    {
    }

    /// Load-factor bound: a well-formed table keeps its occupied count
    /// below three quarters of its capacity, so in particular below the
    /// capacity itself.
    pub proof fn lemma_load_factor(&self)
        requires
            self.wf(),
        ensures
            self.spec_len() * 4 < self.spec_capacity() * 3,
            self.spec_len() < self.spec_capacity(),
    {
    }

    /// Capacity shape: a well-formed table's capacity is a power of two
    /// no smaller than the variant minimum.
    pub proof fn lemma_capacity_shape(&self)
        requires
            self.wf(),
        ensures
            is_pow2(self.spec_capacity()),
            self.spec_capacity() >= 64,
    {
    }

    /// Hash `key` to the slot at which its probe sequence begins.
    fn hash(&self, key: &K) -> (i: usize)
        requires
            self.capacity > 0,
        ensures
            i as int == self.start_of(*key),
            i < self.capacity,
    {
        (key.hash_code() as usize) % self.capacity
    }

    /// Create a table with the default capacity of 64 slots.
    pub fn new() -> (r: Self)
        ensures
            r.wf(),
            r@ == Map::<K, V>::empty(),
            r.spec_len() == 0,
            r.spec_capacity() == 64,
            r.distinct_keys(),
            r.tombstone_free(),
    {
        Self::with_capacity(64)
    }

    /// Create a table whose capacity is the requested count rounded up
    /// to the next power of two, and at least 64.
    pub fn with_capacity(c: usize) -> (r: Self)
        requires
            c as int <= usize::MAX as int / 2 + 1,
        ensures
            r.wf(),
            r@ == Map::<K, V>::empty(),
            r.spec_len() == 0,
            r.spec_capacity() == pow2_from(c as int, 64),
            r.distinct_keys(),
            r.tombstone_free(),
    {
        let mut capacity: usize = 64;
        proof {
            assert(is_pow2(1));
            assert(is_pow2(2));
            assert(is_pow2(4));
            assert(is_pow2(8));
            assert(is_pow2(16));
            assert(is_pow2(32));
            assert(is_pow2(64));
        }
        while capacity < c
            invariant
                64 <= capacity,
                is_pow2(capacity as int),
                c as int <= usize::MAX as int / 2 + 1,
                pow2_from(c as int, capacity as int) == pow2_from(c as int, 64),
            decreases 2 * c as int - capacity as int,
        {
            capacity = capacity * 2;
        }
        Self::make(capacity)
    }

    /// Allocate an empty table of exactly `capacity` slots: a zeroed
    /// state register (all slots empty) and all-vacant entry storage.
    fn make(capacity: usize) -> (r: Self)
        requires
            is_pow2(capacity as int),
            capacity >= 64,
        ensures
            r.wf(),
            r@ == Map::<K, V>::empty(),
            r.spec_len() == 0,
            r.spec_capacity() == capacity as int,
            r.distinct_keys(),
            r.tombstone_free(),
    {
        proof {
            assert(is_pow2(1));
            assert(is_pow2(2));
            assert(is_pow2(4));
            assert(is_pow2(8));
            assert(is_pow2(16));
            assert(is_pow2(32));
            lemma_pow2_divides(capacity as int, 32);
        }
        let words: Vec<u64> = vec![0u64; capacity / 32];
        let mut buckets: Vec<Option<(K, V)>> = Vec::new();
        let mut n: usize = 0;
        while n < capacity
            invariant
                n <= capacity,
                buckets@.len() == n as int,
                forall|q: int| 0 <= q < n as int ==> buckets@[q] is None,
            decreases capacity - n,
        {
            buckets.push(None);
            n = n + 1;
        }
        let r = BitMap64 { bitmap: words, buckets, capacity, size: 0 };
        proof {
            assert forall|i: int| 0 <= i < capacity as int implies #[trigger] r.states()[i]
                == EMPTY by {
                crate::state_bits::lemma_u64_zero_states((i % 32) as u64);
            }
            lemma_count_zero(r.states());
            assert forall|k: K| !r.contains_spec(k) by {
                let st0 = r.start_of(k);
                lemma_mod_in_range(st0 + 0, capacity as int);
                assert(r.states()[probe_idx(st0, 0, capacity as int)] == EMPTY);
            }
            assert(r@ =~= Map::<K, V>::empty());
        }
        r
    }

    /// The number of entries the table holds.
    pub fn len(&self) -> (r: usize)
        ensures
            r as int == self.spec_len(),
    {
        self.size
    }

    /// The number of slots, always a power of two and at least 64.
    pub fn capacity(&self) -> (r: usize)
        requires
            self.wf(),
        ensures
            r as int == self.spec_capacity(),
            is_pow2(r as int),
            r >= 64,
    {
        self.capacity
    }

    /// Walk the probe sequence for `key` to the slot at which an
    /// insertion stops: the first empty slot, tombstone, or occupied
    /// slot already holding `key`.
    fn probe_free(&self, key: &K) -> (r: usize)
        requires
            self.inv(),
            self.spec_len() < self.spec_capacity(),
        ensures
            self.free_offset(*key) < self.spec_capacity(),
            r as int == probe_idx(self.start_of(*key), self.free_offset(*key), self.spec_capacity()),
            r < self.capacity,
    {
        let start = self.hash(key);
        let mut i = start;
        let mut j: usize = 0;
        let ghost s = self.states();
        let ghost b = self.slots();
        let ghost cap = self.capacity as int;
        let ghost st0 = self.start_of(*key);
        proof {
            lemma_mod_in_range(st0 + 0, cap);
        }
        while j < self.capacity
            invariant
                self.inv(),
                self.spec_len() < self.spec_capacity(),
                cap == self.capacity as int,
                s == self.states(),
                b == self.slots(),
                st0 == self.start_of(*key),
                0 <= st0 < cap,
                j <= self.capacity,
                i as int == probe_idx(st0, j as int, cap),
                i < self.capacity,
                free_off(s, b, cap, st0, *key, 0) == free_off(s, b, cap, st0, *key, j as int),
            decreases self.capacity - j,
        {
            let st = get_state_u64(&self.bitmap, i);
            if st != OCCUPIED {
                proof {
                    assert(free_off(s, b, cap, st0, *key, j as int) == j as int);
                }
                return i;
            }
            match &self.buckets[i] {
                Some(p) => {
                    if p.0.key_eq(key) {
                        proof {
                            assert(is_match(s, b, *key, i as int));
                            assert(free_off(s, b, cap, st0, *key, j as int) == j as int);
                        }
                        return i;
                    }
                },
                None => {
                    proof {
                        assert(false);
                    }
                },
            }
            proof {
                assert(!free_stop(s, b, *key, i as int));
                assert(free_off(s, b, cap, st0, *key, j as int) == free_off(
                    s,
                    b,
                    cap,
                    st0,
                    *key,
                    j as int + 1,
                ));
                lemma_probe_step(st0, j as int, cap);
            }
            i = (i + 1) % self.capacity;
            j = j + 1;
        }
        proof {
            // A full cycle passed over only occupied slots holding other
            // keys, so every slot is occupied; that contradicts the
            // occupied count being below the capacity.
            assert(free_off(s, b, cap, st0, *key, 0) == cap);
            lemma_free_off_props(s, b, cap, st0, *key, 0);
            lemma_probe_bijection(st0, cap);
            assert forall|x: int| 0 <= x < cap implies s[x] == OCCUPIED by {
                let jj = slot_off(st0, x, cap);
                assert(!free_stop(s, b, *key, probe_idx(st0, jj, cap)));
            }
            lemma_count_bounds(s);
            assert(false);
        }
        0
    }

    /// Insert `(key, val)` without checking the load factor: overwrite
    /// the entry the probe walk reaches, or claim the free slot it
    /// stops at.
    fn insert_at(&mut self, key: K, val: V)
        requires
            old(self).inv(),
            old(self).spec_len() < old(self).spec_capacity(),
        ensures
            final(self).inv(),
            final(self).spec_capacity() == old(self).spec_capacity(),
            final(self)@ == old(self)@.insert(key, val),
            final(self).spec_len() == old(self).spec_len() + (
            if old(self)@.contains_key(key) && !old(self).shadowed(key) {
                0int
            } else {
                1int
            }),
            old(self).distinct_keys() && !old(self).shadowed(key) ==> final(self).distinct_keys(),
            forall|k2: K|
                k2 != key && #[trigger] old(self).key_distinct(k2) ==> final(self).key_distinct(
                    k2,
                ),
            old(self).tombstone_free() ==> final(self).tombstone_free() && !old(self).shadowed(
                key,
            ),
    {
        let f = self.probe_free(&key);
        let st = get_state_u64(&self.bitmap, f);
        let ghost s1 = self.states();
        let ghost b1 = self.slots();
        let ghost cap = self.capacity as int;
        let ghost st0 = self.start_of(key);
        let ghost e = self.free_offset(key);
        let ghost fi = f as int;
        proof {
            lemma_free_off_props(s1, b1, cap, st0, key, 0);
            lemma_probe_bijection(st0, cap);
            assert(slot_off(st0, fi, cap) == e);
        }
        if st == OCCUPIED {
            // The walk stopped at the entry already holding `key`:
            // overwrite its value in place.
            proof {
                assert(is_match(s1, b1, key, fi));
            }
            self.buckets.set(f, Some((key, val)));
            proof {
                let s2 = self.states();
                let b2 = self.slots();
                assert(s2 =~= s1);
                assert(b2 == b1.update(fi, Some((key, val))));
                assert(count_occupied(s2) == count_occupied(s1));
                // The old table contained `key`, found at the same slot.
                assert forall|jj: int| 0 <= jj < e implies !find_stop(
                    s1,
                    b1,
                    key,
                    #[trigger] probe_idx(st0, jj, cap),
                ) by {
                    assert(!free_stop(s1, b1, key, probe_idx(st0, jj, cap)));
                }
                lemma_find_off_sound(s1, b1, cap, st0, key, 0, e);
                assert(old(self)@.contains_key(key));
                assert(!old(self).shadowed(key));
                // Reachability is untouched: states are unchanged and
                // the overwritten slot keeps its key.
                assert(slot_key(b2, fi) == slot_key(b1, fi));
                assert forall|i: int|
                    0 <= i < cap && self.states()[i] == OCCUPIED implies #[trigger] self
                    .slot_reachable(i) by {
                    assert(s1[i] == OCCUPIED);
                    assert(old(self).slot_reachable(i));
                    assert(slot_key(b2, i) == slot_key(b1, i));
                    assert(prefix_nonempty(s2, cap, self.start_of(slot_key(b2, i)), i));
                }
                // The new table finds `key` at the same slot, now with
                // the new value.
                assert forall|jj: int| 0 <= jj < e implies !find_stop(
                    s2,
                    b2,
                    key,
                    #[trigger] probe_idx(st0, jj, cap),
                ) by {
                    assert(!free_stop(s1, b1, key, probe_idx(st0, jj, cap)));
                    assert(probe_idx(st0, jj, cap) != fi);
                }
                assert(is_match(s2, b2, key, fi));
                lemma_find_off_sound(s2, b2, cap, st0, key, 0, e);
                assert(self@.contains_key(key) && self@[key] == val);
                // Every other key is looked up exactly as before.
                assert forall|k2: K|
                    #![trigger self@.dom().contains(k2)]
                    (self@.dom().contains(k2) == old(self)@.insert(key, val).dom().contains(k2))
                        && (self@.dom().contains(k2) ==> self@[k2] == old(self)@.insert(
                        key,
                        val,
                    )[k2]) by {
                    if k2 != key {
                        let stk = self.start_of(k2);
                        assert(0 <= stk < cap);
                        assert(!is_match(s1, b1, k2, fi));
                        assert(!is_match(s2, b2, k2, fi));
                        lemma_find_off_frame(s1, b1, s2, b2, cap, stk, k2, fi);
                        let d = find_off(s1, b1, cap, stk, k2, 0);
                        lemma_find_off_props(s1, b1, cap, stk, k2, 0);
                        if d < cap && s1[probe_idx(stk, d, cap)] != EMPTY {
                            assert(probe_idx(stk, d, cap) != fi);
                        }
                    }
                }
                assert(self@ =~= old(self)@.insert(key, val));
                // No slot changed its key or state, so distinctness and
                // absence of tombstones carry over.
                assert forall|i: int|
                    0 <= i < cap implies slot_key(b2, i) == slot_key(b1, i) && self.states()[i]
                    == s1[i] by {}
                if old(self).distinct_keys() {
                    assert(self.distinct_keys());
                }
                if old(self).tombstone_free() {
                    assert(self.tombstone_free());
                }
                assert forall|k2: K|
                    k2 != key && #[trigger] old(self).key_distinct(k2) implies self.key_distinct(
                    k2,
                ) by {
                    assert forall|i: int, j: int|
                        #![trigger self.states()[i], self.states()[j]]
                        0 <= i < cap && 0 <= j < cap && i != j && self.states()[i] == OCCUPIED
                            && self.states()[j] == OCCUPIED && slot_key(b2, i) == k2 && slot_key(
                            b2,
                            j,
                        ) == k2 implies false by {
                        if i != fi && j != fi {
                            assert(old(self).states()[i] == OCCUPIED);
                            assert(old(self).states()[j] == OCCUPIED);
                            assert(slot_key(b1, i) == k2 && slot_key(b1, j) == k2);
                        } else {
                            assert(slot_key(b2, fi) == key);
                        }
                    }
                }
            }
        } else {
            // The walk stopped at a free slot (empty or tombstone):
            // claim it for the new entry.
            proof {
                assert(s1[fi] == EMPTY || s1[fi] == DELETED);
            }
            self.buckets.set(f, Some((key, val)));
            set_state_u64(&mut self.bitmap, f, OCCUPIED as u64);
            self.size = self.size + 1;
            proof {
                let s2 = self.states();
                let b2 = self.slots();
                assert(s2 =~= s1.update(fi, OCCUPIED));
                assert(b2 == b1.update(fi, Some((key, val))));
                lemma_count_update(s1, fi, OCCUPIED);
                // The old table does not contain `key` unless the stop
                // was a tombstone shadowing it.
                if s1[fi] == EMPTY {
                    assert forall|jj: int| 0 <= jj < e implies !find_stop(
                        s1,
                        b1,
                        key,
                        #[trigger] probe_idx(st0, jj, cap),
                    ) by {
                        assert(!free_stop(s1, b1, key, probe_idx(st0, jj, cap)));
                    }
                    lemma_find_off_sound(s1, b1, cap, st0, key, 0, e);
                    assert(!old(self)@.contains_key(key));
                }
                assert(!(old(self)@.contains_key(key) && !old(self).shadowed(key)));
                // Reachability: the new entry's prefix is all occupied,
                // and no slot became empty.
                assert forall|i: int|
                    0 <= i < cap && self.states()[i] == OCCUPIED implies #[trigger] self
                    .slot_reachable(i) by {
                    if i == fi {
                        assert forall|jj: int| 0 <= jj < slot_off(st0, fi, cap) implies s2[
                        #[trigger] probe_idx(st0, jj, cap)] != EMPTY by {
                            assert(!free_stop(s1, b1, key, probe_idx(st0, jj, cap)));
                            assert(probe_idx(st0, jj, cap) != fi);
                        }
                        assert(prefix_nonempty(s2, cap, st0, fi));
                        assert(slot_key(b2, fi) == key);
                        assert(self.start_of(slot_key(b2, fi)) == st0);
                    } else {
                        assert(s1[i] == OCCUPIED);
                        assert(old(self).slot_reachable(i));
                        assert(slot_key(b2, i) == slot_key(b1, i));
                        let stk = self.start_of(slot_key(b2, i));
                        assert(prefix_nonempty(s1, cap, stk, i));
                        assert forall|jj: int| 0 <= jj < slot_off(stk, i, cap) implies s2[
                        #[trigger] probe_idx(stk, jj, cap)] != EMPTY by {
                            assert(s1[probe_idx(stk, jj, cap)] != EMPTY);
                        }
                        assert(prefix_nonempty(s2, cap, stk, i));
                    }
                }
                // The new table finds `key` at the claimed slot.
                assert forall|jj: int| 0 <= jj < e implies !find_stop(
                    s2,
                    b2,
                    key,
                    #[trigger] probe_idx(st0, jj, cap),
                ) by {
                    assert(!free_stop(s1, b1, key, probe_idx(st0, jj, cap)));
                    assert(probe_idx(st0, jj, cap) != fi);
                }
                assert(is_match(s2, b2, key, fi));
                lemma_find_off_sound(s2, b2, cap, st0, key, 0, e);
                assert(self@.contains_key(key) && self@[key] == val);
                // Every other key is looked up exactly as before: the
                // claimed slot was a tombstone (walked through before
                // and after) or empty (and then reachability rules out
                // any match beyond it).
                assert forall|k2: K|
                    #![trigger self@.dom().contains(k2)]
                    (self@.dom().contains(k2) == old(self)@.insert(key, val).dom().contains(k2))
                        && (self@.dom().contains(k2) ==> self@[k2] == old(self)@.insert(
                        key,
                        val,
                    )[k2]) by {
                    if k2 == key {
                    } else {
                    let stk = self.start_of(k2);
                    assert(0 <= stk < cap);
                    assert(!is_match(s2, b2, k2, fi));
                    let d1 = find_off(s1, b1, cap, stk, k2, 0);
                    let d2 = find_off(s2, b2, cap, stk, k2, 0);
                    lemma_find_off_props(s1, b1, cap, stk, k2, 0);
                    lemma_find_off_props(s2, b2, cap, stk, k2, 0);
                    if s1[fi] == DELETED {
                        assert(!is_match(s1, b1, k2, fi));
                        lemma_find_off_frame(s1, b1, s2, b2, cap, stk, k2, fi);
                        if d1 < cap && s1[probe_idx(stk, d1, cap)] != EMPTY {
                            assert(is_match(s1, b1, k2, probe_idx(stk, d1, cap)));
                            assert(probe_idx(stk, d1, cap) != fi);
                        }
                        if d2 < cap && s2[probe_idx(stk, d2, cap)] != EMPTY {
                            assert(is_match(s2, b2, k2, probe_idx(stk, d2, cap)));
                        }
                    } else {
                        assert forall|x: int|
                            0 <= x < cap && #[trigger] is_match(s1, b1, k2, x) implies
                        prefix_nonempty(s1, cap, stk, x) by {
                            assert(s1[x] == OCCUPIED);
                            assert(old(self).slot_reachable(x));
                            assert(slot_key(b1, x) == k2);
                        }
                        lemma_find_off_fill_empty(s1, b1, s2, b2, cap, stk, k2, fi);
                        if d1 < cap && s1[probe_idx(stk, d1, cap)] != EMPTY {
                            assert(is_match(s1, b1, k2, probe_idx(stk, d1, cap)));
                            assert(probe_idx(stk, d1, cap) != fi);
                        }
                        if d2 < cap && s2[probe_idx(stk, d2, cap)] != EMPTY {
                            assert(is_match(s2, b2, k2, probe_idx(stk, d2, cap)));
                        }
                    }
                    }
                }
                assert(self@ =~= old(self)@.insert(key, val));
                // Distinctness: with no shadowing, the key was absent
                // from every slot, so the claimed slot is its only one.
                if old(self).distinct_keys() && !old(self).shadowed(key) {
                    assert forall|x: int|
                        0 <= x < cap implies !is_match(s1, b1, key, x) by {
                        if is_match(s1, b1, key, x) {
                            assert(s1[x] == OCCUPIED);
                            assert(old(self).slot_reachable(x));
                            assert(slot_key(b1, x) == key);
                            assert(prefix_nonempty(s1, cap, st0, x));
                            lemma_contains_complete(s1, b1, cap, st0, key, x);
                        }
                    }
                    assert forall|i: int, j: int|
                        #![trigger self.states()[i], self.states()[j]]
                        0 <= i < cap && 0 <= j < cap && i != j && self.states()[i] == OCCUPIED
                            && self.states()[j] == OCCUPIED implies slot_key(b2, i) != slot_key(
                        b2,
                        j,
                    ) by {
                        if i != fi && j != fi {
                            assert(s1[i] == OCCUPIED && s1[j] == OCCUPIED);
                        } else if i == fi {
                            assert(!is_match(s1, b1, key, j));
                        } else {
                            assert(!is_match(s1, b1, key, i));
                        }
                    }
                }
                assert forall|k2: K|
                    k2 != key && #[trigger] old(self).key_distinct(k2) implies self.key_distinct(
                    k2,
                ) by {
                    assert forall|i: int, j: int|
                        #![trigger self.states()[i], self.states()[j]]
                        0 <= i < cap && 0 <= j < cap && i != j && self.states()[i] == OCCUPIED
                            && self.states()[j] == OCCUPIED && slot_key(b2, i) == k2 && slot_key(
                            b2,
                            j,
                        ) == k2 implies false by {
                        if i != fi && j != fi {
                            assert(old(self).states()[i] == OCCUPIED);
                            assert(old(self).states()[j] == OCCUPIED);
                            assert(slot_key(b1, i) == k2 && slot_key(b1, j) == k2);
                        } else {
                            assert(slot_key(b2, fi) == key);
                        }
                    }
                }
                if old(self).tombstone_free() {
                    assert(s1[fi] == EMPTY);
                    assert(self.tombstone_free());
                }
            }
        }
    }

    /// Double the capacity and re-insert every occupied entry, in slot
    /// order, into the fresh storage; tombstones are dropped. The keys
    /// present do not change; with distinct keys neither do the values.
    fn resize(&mut self)
        requires
            old(self).inv(),
            old(self).spec_capacity() * 2 <= usize::MAX as int,
        ensures
            final(self).inv(),
            final(self).spec_capacity() == 2 * old(self).spec_capacity(),
            final(self).tombstone_free(),
            final(self).spec_len() <= old(self).spec_len(),
            forall|k2: K|
                #[trigger] final(self)@.dom().contains(k2) == old(self)@.dom().contains(k2),
            forall|k2: K|
                old(self)@.dom().contains(k2) && #[trigger] old(self).key_distinct(k2)
                    ==> final(self)@[k2] == old(self)@[k2],
            old(self).distinct_keys() ==> final(self)@ == old(self)@ && final(self).spec_len()
                == old(self).spec_len() && final(self).distinct_keys(),
    {
        let ghost told = *old(self);
        let ghost s1 = self.states();
        let ghost b1 = self.slots();
        let ghost cap = self.capacity as int;
        proof {
            assert(is_pow2(2 * cap));
        }
        let mut nt: BitMap64<K, V> = Self::make(self.capacity * 2);
        let mut i: usize = 0;
        while i < self.capacity
            invariant
                told.inv(),
                s1 == told.states(),
                b1 == told.slots(),
                cap == told.spec_capacity(),
                self.bitmap == told.bitmap,
                self.capacity == told.capacity,
                self.buckets@.len() == cap,
                forall|x: int| i as int <= x < cap ==> self.buckets@[x] == b1[x],
                i <= self.capacity,
                nt.inv(),
                nt.tombstone_free(),
                nt.distinct_keys(),
                nt.spec_capacity() == 2 * cap,
                nt.spec_len() <= count_occupied(s1.subrange(0, i as int)),
                count_occupied(s1.subrange(0, i as int)) <= count_occupied(s1),
                told.distinct_keys() ==> nt.spec_len() == count_occupied(
                    s1.subrange(0, i as int),
                ),
                forall|k2: K|
                    #[trigger] nt@.dom().contains(k2) == exists|x: int|
                        0 <= x < i as int && #[trigger] is_match(s1, b1, k2, x),
                forall|k2: K|
                    #![trigger nt@.dom().contains(k2)]
                    nt@.dom().contains(k2) && told.key_distinct(k2) ==> told@.dom().contains(k2)
                        && nt@[k2] == told@[k2],
            decreases self.capacity - i,
        {
            let ghost prev = nt;
            let ghost pre = count_occupied(s1.subrange(0, i as int));
            proof {
                assert(s1.subrange(0, i as int + 1).drop_last() =~= s1.subrange(0, i as int));
                assert(count_occupied(s1.subrange(0, i as int + 1)) == pre + (if s1[i as int]
                    == OCCUPIED {
                    1int
                } else {
                    0int
                }));
                crate::model::lemma_count_prefix_le(s1, i as int + 1);
            }
            let st = get_state_u64(&self.bitmap, i);
            if st == OCCUPIED {
                let mut taken: Option<(K, V)> = None;
                self.buckets.set_and_swap(i, &mut taken);
                match taken {
                    Some(p) => {
                        let ghost kx = p.0;
                        let ghost vx = p.1;
                        proof {
                            assert(b1[i as int] == Some((kx, vx)));
                            assert(slot_key(b1, i as int) == kx && slot_val(b1, i as int) == vx);
                            assert(is_match(s1, b1, kx, i as int));
                            lemma_count_bounds(s1);
                            assert(nt.spec_len() < nt.spec_capacity());
                            if told.distinct_keys() {
                                // The key is new to the fresh table.
                                if nt@.dom().contains(kx) {
                                    let x = choose|x: int|
                                        0 <= x < i as int && #[trigger] is_match(s1, b1, kx, x);
                                    assert(s1[x] == OCCUPIED && s1[i as int] == OCCUPIED);
                                    assert(false);
                                }
                            }
                            if told.key_distinct(kx) {
                                // The key is held by this slot alone, so
                                // the old table maps it to this value.
                                let stx = told.start_of(kx);
                                assert(s1[i as int] == OCCUPIED);
                                assert(told.slot_reachable(i as int));
                                assert(prefix_nonempty(s1, cap, stx, i as int));
                                lemma_contains_complete(s1, b1, cap, stx, kx, i as int);
                                lemma_find_off_props(s1, b1, cap, stx, kx, 0);
                                lemma_probe_bijection(stx, cap);
                                let dx = find_off(s1, b1, cap, stx, kx, 0);
                                assert(is_match(s1, b1, kx, probe_idx(stx, dx, cap)));
                                assert(told.states()[probe_idx(stx, dx, cap)] == OCCUPIED);
                                assert(told.states()[i as int] == OCCUPIED);
                                assert(probe_idx(stx, dx, cap) == i as int);
                                assert(told@.contains_key(kx) && told@[kx] == vx);
                            }
                        }
                        nt.insert_at(p.0, p.1);
                        proof {
                            assert(nt@ == prev@.insert(kx, vx));
                            assert forall|k2: K|
                                #[trigger] nt@.dom().contains(k2) == exists|x: int|
                                    0 <= x < i as int + 1 && #[trigger] is_match(
                                        s1,
                                        b1,
                                        k2,
                                        x,
                                    ) by {
                                if k2 == kx {
                                    assert(is_match(s1, b1, k2, i as int));
                                    assert(nt@.dom().contains(k2));
                                } else {
                                    assert(nt@.dom().contains(k2) == prev@.dom().contains(k2));
                                    if prev@.dom().contains(k2) {
                                        let x = choose|x: int|
                                            0 <= x < i as int && #[trigger] is_match(s1, b1, k2, x);
                                        assert(is_match(s1, b1, k2, x));
                                    }
                                    if exists|x: int|
                                        0 <= x < i as int + 1 && #[trigger] is_match(
                                            s1,
                                            b1,
                                            k2,
                                            x,
                                        ) {
                                        let x = choose|x: int|
                                            0 <= x < i as int + 1 && #[trigger] is_match(
                                                s1,
                                                b1,
                                                k2,
                                                x,
                                            );
                                        assert(x != i as int);
                                        assert(prev@.dom().contains(k2));
                                    }
                                }
                            }
                            assert forall|k2: K|
                                #![trigger nt@.dom().contains(k2)]
                                nt@.dom().contains(k2) && told.key_distinct(k2) implies told@.dom()
                                .contains(k2) && nt@[k2] == told@[k2] by {
                                if k2 == kx {
                                    assert(told@.dom().contains(kx) && told@[kx] == vx);
                                    assert(nt@[kx] == vx);
                                } else {
                                    assert(nt@.dom().contains(k2) == prev@.dom().contains(k2));
                                    assert(prev@.dom().contains(k2) ==> nt@[k2] == prev@[k2]);
                                }
                            }
                        }
                    },
                    None => {
                        proof {
                            assert(false);
                        }
                    },
                }
            } else {
                proof {
                    assert forall|k2: K|
                        #[trigger] nt@.dom().contains(k2) == exists|x: int|
                            0 <= x < i as int + 1 && #[trigger] is_match(s1, b1, k2, x) by {
                        if nt@.dom().contains(k2) {
                            let x = choose|x: int|
                                0 <= x < i as int && #[trigger] is_match(s1, b1, k2, x);
                            assert(is_match(s1, b1, k2, x));
                        }
                        if exists|x: int|
                            0 <= x < i as int + 1 && #[trigger] is_match(s1, b1, k2, x) {
                            let x = choose|x: int|
                                0 <= x < i as int + 1 && #[trigger] is_match(s1, b1, k2, x);
                            assert(x != i as int);
                        }
                    }
                }
            }
            i = i + 1;
        }
        proof {
            assert(s1.subrange(0, cap) =~= s1);
            // The keys of the fresh table are exactly the old table's.
            assert forall|k2: K| #[trigger] nt@.dom().contains(k2) == told@.dom().contains(
                k2,
            ) by {
                if nt@.dom().contains(k2) {
                    let x = choose|x: int| 0 <= x < cap && #[trigger] is_match(s1, b1, k2, x);
                    assert(s1[x] == OCCUPIED);
                    assert(told.slot_reachable(x));
                    assert(slot_key(b1, x) == k2);
                    let stx = told.start_of(k2);
                    assert(prefix_nonempty(s1, cap, stx, x));
                    lemma_contains_complete(s1, b1, cap, stx, k2, x);
                }
                if told@.dom().contains(k2) {
                    let stx = told.start_of(k2);
                    let dx = find_off(s1, b1, cap, stx, k2, 0);
                    lemma_find_off_props(s1, b1, cap, stx, k2, 0);
                    assert(is_match(s1, b1, k2, probe_idx(stx, dx, cap)));
                    lemma_mod_in_range(stx + 0, cap);
                    vstd::arithmetic::div_mod::lemma_mod_bound(stx + dx, cap);
                }
            }
            assert forall|k2: K|
                old(self)@.dom().contains(k2) && #[trigger] old(self).key_distinct(k2) implies nt@[
            k2] == old(self)@[k2] by {
                assert(told@.dom().contains(k2));
                assert(nt@.dom().contains(k2));
                assert(told.key_distinct(k2));
            }
            if told.distinct_keys() {
                told.lemma_distinct_all_keys();
                assert forall|k2: K| #[trigger] nt@.dom().contains(k2) implies nt@[k2]
                    == told@[k2] by {
                    assert(told.key_distinct(k2));
                }
                assert(nt@ =~= told@);
            }
        }
        *self = nt;
    }

    /// Insert `(key, val)`: overwrite the entry holding `key` if the
    /// probe walk reaches one, else claim the first free slot; then
    /// double the capacity if the load factor has reached 3/4.
    pub fn insert(&mut self, key: K, val: V)
        requires
            old(self).wf(),
            old(self).spec_capacity() * 2 <= usize::MAX as int,
        ensures
            final(self).wf(),
            final(self).spec_capacity() == old(self).spec_capacity() || final(self).spec_capacity()
                == 2 * old(self).spec_capacity(),
            final(self)@.dom() == old(self)@.dom().insert(key),
            final(self).spec_capacity() == old(self).spec_capacity() ==> final(self)@ == old(
                self,
            )@.insert(key, val),
            old(self)@.contains_key(key) && !old(self).shadowed(key) ==> final(self).spec_capacity()
                == old(self).spec_capacity() && final(self).spec_len() == old(self).spec_len(),
            old(self).distinct_keys() && !old(self).shadowed(key) ==> final(self)@ == old(
                self,
            )@.insert(key, val) && final(self).distinct_keys() && final(self).spec_len() == old(
                self,
            ).spec_len() + (if old(self)@.contains_key(key) {
                0int
            } else {
                1int
            }),
            !(old(self)@.contains_key(key) && !old(self).shadowed(key))
                ==> ((final(self).spec_capacity() == 2 * old(self).spec_capacity()) <==> (old(
                self,
            ).spec_len() + 1) * 4 >= old(self).spec_capacity() * 3),
            final(self).spec_capacity() == old(self).spec_capacity() ==> final(self).spec_len()
                == old(self).spec_len() + (
            if old(self)@.contains_key(key) && !old(self).shadowed(key) {
                0int
            } else {
                1int
            }),
            final(self).spec_capacity() == 2 * old(self).spec_capacity()
                ==> final(self).tombstone_free(),
            old(self).distinct_keys() ==> (forall|k2: K|
                k2 != key && #[trigger] old(self)@.dom().contains(k2) ==> final(self)@.dom()
                    .contains(k2) && final(self)@[k2] == old(self)@[k2]),
            old(self).tombstone_free() ==> final(self).tombstone_free() && !old(self).shadowed(
                key,
            ),
    {
        let ghost told = *old(self);
        proof {
            assert(told.spec_len() < told.spec_capacity());
        }
        self.insert_at(key, val);
        let ghost mid = *self;
        proof {
            assert(is_pow2(1));
            assert(is_pow2(2));
            assert(is_pow2(4));
            lemma_pow2_divides(told.spec_capacity(), 4);
        }
        if self.size >= self.capacity / 4 * 3 {
            proof {
                assert(mid.spec_len() * 4 >= mid.spec_capacity() * 3);
                assert(told.spec_len() * 4 <= told.spec_capacity() * 3 - 4);
            }
            self.resize();
            proof {
                assert(self@.dom() =~= told@.dom().insert(key));
                if told.distinct_keys() {
                    told.lemma_distinct_all_keys();
                    assert forall|k2: K|
                        k2 != key && #[trigger] old(self)@.dom().contains(k2) implies self@.dom()
                        .contains(k2) && self@[k2] == old(self)@[k2] by {
                        assert(told.key_distinct(k2));
                        assert(mid.key_distinct(k2));
                        assert(mid@.dom().contains(k2) && mid@[k2] == told@[k2]);
                    }
                }
            }
        } else {
            proof {
                assert(self.spec_len() * 4 < self.spec_capacity() * 3);
                assert(self@.dom() =~= told@.dom().insert(key));
                if told.distinct_keys() {
                    assert forall|k2: K|
                        k2 != key && #[trigger] old(self)@.dom().contains(k2) implies self@.dom()
                        .contains(k2) && self@[k2] == old(self)@[k2] by {}
                }
            }
        }
    }

    /// Walk the probe sequence for `key` to the occupied slot holding
    /// it, if the table contains it.
    fn probe_find(&self, key: &K) -> (r: Option<usize>)
        requires
            self.inv(),
        ensures
            match r {
                Some(i) => self.contains_spec(*key) && i as int == self.found_slot(*key) && i
                    < self.capacity,
                None => !self.contains_spec(*key),
            },
    {
        let start = self.hash(key);
        let mut i = start;
        let mut j: usize = 0;
        let ghost s = self.states();
        let ghost b = self.slots();
        let ghost cap = self.capacity as int;
        let ghost st0 = self.start_of(*key);
        proof {
            lemma_mod_in_range(st0 + 0, cap);
        }
        while j < self.capacity
            invariant
                self.inv(),
                cap == self.capacity as int,
                s == self.states(),
                b == self.slots(),
                st0 == self.start_of(*key),
                0 <= st0 < cap,
                j <= self.capacity,
                i as int == probe_idx(st0, j as int, cap),
                i < self.capacity,
                find_off(s, b, cap, st0, *key, 0) == find_off(s, b, cap, st0, *key, j as int),
            decreases self.capacity - j,
        {
            let st = get_state_u64(&self.bitmap, i);
            if st == EMPTY {
                proof {
                    assert(find_off(s, b, cap, st0, *key, j as int) == j as int);
                }
                return None;
            }
            if st == OCCUPIED {
                match &self.buckets[i] {
                    Some(p) => {
                        if p.0.key_eq(key) {
                            proof {
                                assert(is_match(s, b, *key, i as int));
                                assert(find_off(s, b, cap, st0, *key, j as int) == j as int);
                            }
                            return Some(i);
                        }
                    },
                    None => {
                        proof {
                            assert(false);
                        }
                    },
                }
            }
            proof {
                assert(!is_match(s, b, *key, i as int));
                assert(find_off(s, b, cap, st0, *key, j as int) == find_off(
                    s,
                    b,
                    cap,
                    st0,
                    *key,
                    j as int + 1,
                ));
                lemma_probe_step(st0, j as int, cap);
            }
            i = (i + 1) % self.capacity;
            j = j + 1;
        }
        proof {
            assert(find_off(s, b, cap, st0, *key, j as int) == cap);
        }
        None
    }

    /// Remove `key`'s entry if the table holds one, marking its slot a
    /// tombstone (never empty again) and returning the removed value.
    pub fn delete(&mut self, key: &K) -> (r: Option<V>)
        requires
            old(self).wf(),
        ensures
            final(self).wf(),
            final(self).spec_capacity() == old(self).spec_capacity(),
            old(self)@.contains_key(*key) ==> r == Some(old(self)@[*key]) && final(self).spec_len()
                == old(self).spec_len() - 1,
            !old(self)@.contains_key(*key) ==> r is None && *final(self) == *old(self),
            forall|k2: K|
                k2 != *key ==> (#[trigger] final(self)@.dom().contains(k2) == old(
                    self,
                )@.dom().contains(k2)) && (old(self)@.dom().contains(k2) ==> final(self)@[k2] == old(
                    self,
                )@[k2]),
            old(self).distinct_keys() ==> final(self)@ == old(self)@.remove(*key) && final(self).distinct_keys() && !final(self)@.contains_key(*key),
    {
        let found = self.probe_find(key);
        match found {
            None => None,
            Some(f) => {
                let ghost s1 = self.states();
                let ghost b1 = self.slots();
                let ghost cap = self.capacity as int;
                let ghost st0 = self.start_of(*key);
                let ghost d = self.find_offset(*key);
                let ghost fi = f as int;
                proof {
                    lemma_find_off_props(s1, b1, cap, st0, *key, 0);
                    lemma_probe_bijection(st0, cap);
                    assert(is_match(s1, b1, *key, fi));
                    assert(slot_off(st0, fi, cap) == d);
                    lemma_count_positive(s1, fi);
                }
                let mut taken: Option<(K, V)> = None;
                self.buckets.set_and_swap(f, &mut taken);
                set_state_u64(&mut self.bitmap, f, DELETED as u64);
                self.size = self.size - 1;
                proof {
                    let s2 = self.states();
                    let b2 = self.slots();
                    assert(s2 =~= s1.update(fi, DELETED));
                    assert(b2 == b1.update(fi, None));
                    lemma_count_update(s1, fi, DELETED);
                    // Reachability: no slot became empty.
                    assert forall|i: int|
                        0 <= i < cap && self.states()[i] == OCCUPIED implies #[trigger] self
                        .slot_reachable(i) by {
                        assert(s1[i] == OCCUPIED);
                        assert(old(self).slot_reachable(i));
                        assert(slot_key(b2, i) == slot_key(b1, i));
                        let stk = self.start_of(slot_key(b2, i));
                        assert(prefix_nonempty(s1, cap, stk, i));
                        assert forall|jj: int| 0 <= jj < slot_off(stk, i, cap) implies s2[
                        #[trigger] probe_idx(stk, jj, cap)] != EMPTY by {
                            assert(s1[probe_idx(stk, jj, cap)] != EMPTY);
                        }
                        assert(prefix_nonempty(s2, cap, stk, i));
                    }
                    // Every other key is looked up exactly as before:
                    // the tombstone is walked through as the occupied
                    // slot was.
                    assert forall|k2: K|
                        #![trigger self@.dom().contains(k2)]
                        k2 != *key implies (self@.dom().contains(k2) == old(self)@.dom().contains(
                        k2,
                    )) && (old(self)@.dom().contains(k2) ==> self@[k2] == old(self)@[k2]) by {
                        let stk = self.start_of(k2);
                        assert(0 <= stk < cap);
                        assert(!is_match(s1, b1, k2, fi));
                        assert(!is_match(s2, b2, k2, fi));
                        lemma_find_off_frame(s1, b1, s2, b2, cap, stk, k2, fi);
                        let dd = find_off(s1, b1, cap, stk, k2, 0);
                        lemma_find_off_props(s1, b1, cap, stk, k2, 0);
                        if dd < cap && s1[probe_idx(stk, dd, cap)] != EMPTY {
                            assert(is_match(s1, b1, k2, probe_idx(stk, dd, cap)));
                            assert(probe_idx(stk, dd, cap) != fi);
                        }
                    }
                    // Under distinctness the removed key is gone: no
                    // other slot holds it.
                    if old(self).distinct_keys() {
                        assert forall|x: int|
                            0 <= x < cap implies !is_match(s2, b2, *key, x) by {
                            if is_match(s2, b2, *key, x) {
                                assert(x != fi);
                                assert(is_match(s1, b1, *key, x));
                                assert(s1[x] == OCCUPIED && s1[fi] == OCCUPIED);
                            }
                        }
                        lemma_find_no_match(s2, b2, cap, st0, *key, 0);
                        assert(self.start_of(*key) == st0);
                        assert(!self.contains_spec(*key));
                        assert(self@ =~= old(self)@.remove(*key));
                        assert forall|i: int, j: int|
                            #![trigger self.states()[i], self.states()[j]]
                            0 <= i < cap && 0 <= j < cap && i != j && self.states()[i] == OCCUPIED
                                && self.states()[j] == OCCUPIED implies slot_key(b2, i)
                            != slot_key(b2, j) by {
                            assert(s1[i] == OCCUPIED && s1[j] == OCCUPIED);
                        }
                    }
                }
                match taken {
                    Some(p) => Some(p.1),
                    None => {
                        proof {
                            assert(false);
                        }
                        None
                    },
                }
            },
        }
    }

    /// Look up `key`. Returns the value the table maps it to, if any;
    /// tombstones are walked through, an empty slot ends the walk.
    pub fn get(&self, key: &K) -> (r: Option<&V>)
        requires
            self.wf(),
        ensures
            match r {
                Some(v) => self@.contains_key(*key) && *v == self@[*key],
                None => !self@.contains_key(*key),
            },
    {
        let start = self.hash(key);
        let mut i = start;
        let mut j: usize = 0;
        let ghost s = self.states();
        let ghost b = self.slots();
        let ghost cap = self.capacity as int;
        let ghost st0 = self.start_of(*key);
        proof {
            lemma_mod_in_range(st0 + 0, cap);
        }
        while j < self.capacity
            invariant
                self.wf(),
                cap == self.capacity as int,
                s == self.states(),
                b == self.slots(),
                st0 == self.start_of(*key),
                0 <= st0 < cap,
                j <= self.capacity,
                i as int == probe_idx(st0, j as int, cap),
                i < self.capacity,
                find_off(s, b, cap, st0, *key, 0) == find_off(s, b, cap, st0, *key, j as int),
            decreases self.capacity - j,
        {
            let st = get_state_u64(&self.bitmap, i);
            if st == EMPTY {
                proof {
                    assert(find_off(s, b, cap, st0, *key, j as int) == j as int);
                }
                return None;
            }
            if st == OCCUPIED {
                match &self.buckets[i] {
                    Some(p) => {
                        if p.0.key_eq(key) {
                            proof {
                                assert(is_match(s, b, *key, i as int));
                                assert(find_off(s, b, cap, st0, *key, j as int) == j as int);
                                assert(self.found_slot(*key) == i as int);
                            }
                            return Some(&p.1);
                        }
                    },
                    None => {
                        proof {
                            assert(false);
                        }
                    },
                }
            }
            proof {
                assert(!is_match(s, b, *key, i as int));
                assert(find_off(s, b, cap, st0, *key, j as int) == find_off(
                    s,
                    b,
                    cap,
                    st0,
                    *key,
                    j as int + 1,
                ));
                lemma_probe_step(st0, j as int, cap);
            }
            i = (i + 1) % self.capacity;
            j = j + 1;
        }
        proof {
            assert(find_off(s, b, cap, st0, *key, j as int) == cap);
        }
        None
    }
}

} // verus!
