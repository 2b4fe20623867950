use bit_map::keys::SlotKey;
use bit_map::{BitMap, BitMap64};

/// The slot a key probes first in a table of the given capacity.
fn slot_of(k: u64, capacity: usize) -> usize {
    (k.hash_code() as usize) % capacity
}

/// Find a key other than `avoid` whose probe sequence starts at `slot`
/// in a table of the given capacity.
fn find_colliding_key(slot: usize, capacity: usize, avoid: &[u64]) -> u64 {
    let mut k: u64 = 0;
    loop {
        if slot_of(k, capacity) == slot && !avoid.contains(&k) {
            return k;
        }
        k += 1;
        assert!(k < 1_000_000, "no colliding key found");
    }
}

#[test]
fn round_trip_returns_most_recent_value() {
    let mut t: BitMap<u64, u64> = BitMap::new();
    for k in 0..5u64 {
        t.insert(k, k * 100);
    }
    t.insert(3, 999);
    for k in 0..5u64 {
        let expect = if k == 3 { 999 } else { k * 100 };
        assert_eq!(t.get(&k), Some(&expect));
    }
}

#[test]
fn delete_removes_until_reinserted() {
    let mut t: BitMap<u64, &'static str> = BitMap::new();
    t.insert(7, "seven");
    t.insert(8, "eight");
    assert_eq!(t.delete(&7), Some("seven"));
    assert_eq!(t.get(&7), None);
    assert_eq!(t.get(&8), Some(&"eight"));
    t.insert(7, "again");
    assert_eq!(t.get(&7), Some(&"again"));
}

#[test]
fn delete_absent_returns_none() {
    let mut t: BitMap<u64, u64> = BitMap::new();
    t.insert(1, 1);
    assert_eq!(t.delete(&2), None);
    assert_eq!(t.len(), 1);
}

#[test]
fn update_keeps_len_insert_grows_len() {
    let mut t: BitMap<u64, u64> = BitMap::new();
    assert_eq!(t.len(), 0);
    t.insert(10, 1);
    assert_eq!(t.len(), 1);
    t.insert(10, 2);
    assert_eq!(t.len(), 1);
    t.insert(11, 3);
    assert_eq!(t.len(), 2);
    assert_eq!(t.get(&10), Some(&2));
}

#[test]
fn load_factor_bound_holds_after_inserts() {
    let mut t: BitMap<u64, u64> = BitMap::new();
    for k in 0..200u64 {
        t.insert(k, k);
        assert!(t.len() * 4 < t.capacity() * 3);
    }
}

#[test]
fn capacity_is_power_of_two_with_minimum() {
    let t: BitMap<u64, u64> = BitMap::with_capacity(0);
    assert_eq!(t.capacity(), 8);
    let t: BitMap<u64, u64> = BitMap::with_capacity(9);
    assert_eq!(t.capacity(), 16);
    let t: BitMap<u64, u64> = BitMap::with_capacity(64);
    assert_eq!(t.capacity(), 64);
    let mut t: BitMap<u64, u64> = BitMap::new();
    for k in 0..1000u64 {
        t.insert(k, k);
        let c = t.capacity();
        assert!(c >= 8 && c & (c - 1) == 0);
    }
}

#[test]
fn resize_preserves_contents() {
    let mut t: BitMap<u64, u64> = BitMap::with_capacity(8);
    for k in 0..100u64 {
        t.insert(k, k + 1000);
    }
    for k in 0..100u64 {
        assert_eq!(t.get(&k), Some(&(k + 1000)));
    }
    assert_eq!(t.len(), 100);
}

#[test]
fn concrete_scenario_six_inserts_trigger_resize() {
    let mut t: BitMap<u64, u64> = BitMap::with_capacity(8);
    assert_eq!(t.capacity(), 8);
    t.insert(1, 10);
    t.insert(2, 20);
    t.insert(3, 30);
    t.insert(4, 40);
    t.insert(5, 50);
    assert_eq!(t.capacity(), 8);
    t.insert(6, 60);
    // After the sixth insert the load factor reached 6/8 = 0.75, so the
    // capacity doubled.
    assert_eq!(t.capacity(), 16);
    assert_eq!(t.len(), 6);
    for k in 1..=6u64 {
        assert_eq!(t.get(&k), Some(&(k * 10)));
    }
}

#[test]
fn tombstone_reused_by_insert() {
    let mut t: BitMap<u64, &'static str> = BitMap::with_capacity(8);
    let a: u64 = 0;
    let slot = slot_of(a, 8);
    let b = find_colliding_key(slot, 8, &[a]);
    t.insert(a, "a");
    assert_eq!(t.len(), 1);
    assert_eq!(t.delete(&a), Some("a"));
    assert_eq!(t.len(), 0);
    // `b` hashes to the tombstoned slot and takes it over.
    t.insert(b, "b");
    assert_eq!(t.len(), 1);
    assert_eq!(t.get(&a), None);
    assert_eq!(t.get(&b), Some(&"b"));
}

#[test]
fn lookup_walks_through_tombstone() {
    let mut t: BitMap<u64, &'static str> = BitMap::with_capacity(8);
    let a: u64 = 0;
    let slot = slot_of(a, 8);
    let b = find_colliding_key(slot, 8, &[a]);
    // `b` collides with `a` and probes one slot forward.
    t.insert(a, "a");
    t.insert(b, "b");
    assert_eq!(t.delete(&a), Some("a"));
    // The tombstone at `a`'s slot must not end the search for `b`.
    assert_eq!(t.get(&b), Some(&"b"));
    assert_eq!(t.len(), 1);
}

#[test]
fn known_blemish_reinsert_past_tombstone_duplicates() {
    // Insertion stops at the first tombstone without checking whether
    // the key lives further along the chain, so re-inserting a shadowed
    // key stores it twice and len() counts both copies. The lookup
    // still returns the newly inserted value.
    let mut t: BitMap<u64, &'static str> = BitMap::with_capacity(8);
    let a: u64 = 0;
    let slot = slot_of(a, 8);
    let b = find_colliding_key(slot, 8, &[a]);
    t.insert(a, "a");
    t.insert(b, "b");
    t.delete(&a);
    assert_eq!(t.len(), 1);
    t.insert(b, "b2");
    assert_eq!(t.len(), 2);
    assert_eq!(t.get(&b), Some(&"b2"));
}

#[test]
fn u32_and_usize_keys() {
    let mut t: BitMap<u32, u32> = BitMap::new();
    t.insert(5u32, 50);
    assert_eq!(t.get(&5u32), Some(&50));
    let mut t: BitMap<usize, usize> = BitMap::new();
    t.insert(5usize, 50);
    assert_eq!(t.get(&5usize), Some(&50));
    assert_eq!(t.delete(&5usize), Some(50));
    assert_eq!(t.get(&5usize), None);
}

#[test]
fn wide_round_trip_and_delete() {
    let mut t: BitMap64<u64, u64> = BitMap64::new();
    for k in 0..100u64 {
        t.insert(k, 2 * k);
    }
    assert_eq!(t.len(), 100);
    for k in 0..100u64 {
        assert_eq!(t.get(&k), Some(&(2 * k)));
    }
    t.insert(4, 999);
    assert_eq!(t.get(&4), Some(&999));
    assert_eq!(t.len(), 100);
    assert_eq!(t.delete(&4), Some(999));
    assert_eq!(t.get(&4), None);
    assert_eq!(t.len(), 99);
}

#[test]
fn wide_capacity_minimum_and_resize() {
    let t: BitMap64<u64, u64> = BitMap64::with_capacity(8);
    assert_eq!(t.capacity(), 64);
    let mut t: BitMap64<u64, u64> = BitMap64::with_capacity(64);
    for k in 0..47u64 {
        t.insert(k, k);
    }
    assert_eq!(t.capacity(), 64);
    // The 48th insert reaches 48/64 = 0.75 and doubles the capacity.
    t.insert(47, 47);
    assert_eq!(t.capacity(), 128);
    assert_eq!(t.len(), 48);
    for k in 0..48u64 {
        assert_eq!(t.get(&k), Some(&k));
    }
}

#[test]
fn wide_tombstone_walk() {
    let mut t: BitMap64<u64, u64> = BitMap64::new();
    let a: u64 = 0;
    let slot = (a.hash_code() as usize) % 64;
    let mut b: u64 = 1;
    while (b.hash_code() as usize) % 64 != slot {
        b += 1;
        assert!(b < 1_000_000);
    }
    t.insert(a, 1);
    t.insert(b, 2);
    assert_eq!(t.delete(&a), Some(1));
    assert_eq!(t.get(&b), Some(&2));
}
