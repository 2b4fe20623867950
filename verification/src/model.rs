//! The mathematical model of a slotted table: a sequence of slot states,
//! a parallel sequence of optional entries, and the linear probe
//! sequence over them. Both table variants share this model; they differ
//! only in how the state sequence is packed into words.

use crate::state_bits::{DELETED, EMPTY, OCCUPIED};
use vstd::arithmetic::div_mod::{lemma_fundamental_div_mod, lemma_fundamental_div_mod_converse};
use vstd::prelude::*;

verus! {

/// The entry array of a table: one optional `(key, value)` pair per slot.
pub type Slots<K, V> = Seq<Option<(K, V)>>;

/// The slot probed `j` steps after starting at slot `start`: linear
/// probing advances one slot at a time and wraps at `cap`.
pub open spec fn probe_idx(start: int, j: int, cap: int) -> int {
    (start + j) % cap
}

/// How many probe steps reach slot `i` from slot `start`.
pub open spec fn slot_off(start: int, i: int, cap: int) -> int {
    (i - start) % cap
}

/// The key stored in slot `i`.
pub open spec fn slot_key<K, V>(b: Slots<K, V>, i: int) -> K {
    b[i].unwrap().0
}

/// The value stored in slot `i`.
pub open spec fn slot_val<K, V>(b: Slots<K, V>, i: int) -> V {
    b[i].unwrap().1
}

/// Slot `i` holds an entry whose key is `key`.
pub open spec fn is_match<K, V>(s: Seq<u8>, b: Slots<K, V>, key: K, i: int) -> bool {
    s[i] == OCCUPIED && slot_key(b, i) == key
}

/// A lookup walk stops at slot `i`: the slot is empty (the key is
/// absent) or holds the key. Tombstones do not stop a lookup.
pub open spec fn find_stop<K, V>(s: Seq<u8>, b: Slots<K, V>, key: K, i: int) -> bool {
    s[i] == EMPTY || is_match(s, b, key, i)
}

/// An insertion walk stops at slot `i`: the slot is empty, a tombstone,
/// or holds the key already.
pub open spec fn free_stop<K, V>(s: Seq<u8>, b: Slots<K, V>, key: K, i: int) -> bool {
    s[i] != OCCUPIED || is_match(s, b, key, i)
}

/// The number of probe steps, at least `j`, after which a lookup walk
/// for `key` from `start` first stops; `cap` if it never stops within a
/// full cycle.
pub open spec fn find_off<K, V>(
    s: Seq<u8>,
    b: Slots<K, V>,
    cap: int,
    start: int,
    key: K,
    j: int,
) -> int
    decreases cap - j,
{
    if j < 0 || j >= cap {
        cap
    } else if find_stop(s, b, key, probe_idx(start, j, cap)) {
        j
    } else {
        find_off(s, b, cap, start, key, j + 1)
    }
}

/// The number of probe steps, at least `j`, after which an insertion
/// walk for `key` from `start` first stops; `cap` if it never stops
/// within a full cycle.
pub open spec fn free_off<K, V>(
    s: Seq<u8>,
    b: Slots<K, V>,
    cap: int,
    start: int,
    key: K,
    j: int,
) -> int
    decreases cap - j,
{
    if j < 0 || j >= cap {
        cap
    } else if free_stop(s, b, key, probe_idx(start, j, cap)) {
        j
    } else {
        free_off(s, b, cap, start, key, j + 1)
    }
}

/// Every slot on the probe walk from `start` to slot `i` (exclusive) is
/// non-empty, so a lookup walk cannot stop short of `i`.
pub open spec fn prefix_nonempty(s: Seq<u8>, cap: int, start: int, i: int) -> bool {
    forall|jj: int|
        0 <= jj < slot_off(start, i, cap) ==> s[#[trigger] probe_idx(start, jj, cap)] != EMPTY
}

/// How many slots of `s` are occupied.
pub open spec fn count_occupied(s: Seq<u8>) -> int
    decreases s.len(),
{
    if s.len() == 0 {
        0
    } else {
        count_occupied(s.drop_last()) + if s.last() == OCCUPIED {
            1int
        } else {
            0int
        }
    }
}

/// `n` is a power of two.
pub open spec fn is_pow2(n: int) -> bool
    decreases n,
{
    if n <= 0 {
        false
    } else if n == 1 {
        true
    } else {
        n % 2 == 0 && is_pow2(n / 2)
    }
}

/// The first power of two at least `c`, doubling up from `p`.
pub open spec fn pow2_from(c: int, p: int) -> int
    decreases 2 * c - p,
{
    if p <= 0 || p >= c {
        p
    } else {
        pow2_from(c, 2 * p)
    }
}

/// A power of two divides every larger power of two.
pub proof fn lemma_pow2_divides(n: int, d: int)
    requires
        is_pow2(n),
        is_pow2(d),
        d <= n,
    ensures
        n % d == 0,
    decreases n,
{
    if d == n {
        lemma_fundamental_div_mod_converse(n, d, 1, 0);
    } else if d == 1 {
        lemma_fundamental_div_mod_converse(n, 1, n, 0);
    } else {
        lemma_pow2_divides(n / 2, d / 2);
        let k = (n / 2) / (d / 2);
        lemma_fundamental_div_mod(n / 2, d / 2);
        lemma_fundamental_div_mod(n, 2);
        lemma_fundamental_div_mod(d, 2);
        assert(n == d * k) by (nonlinear_arith)
            requires
                n / 2 == (d / 2) * k,
                n == 2 * (n / 2),
                d == 2 * (d / 2),
        ;
        lemma_fundamental_div_mod_converse(n, d, k, 0);
    }
}

/// A sequence with no occupied slot has occupied count zero.
pub proof fn lemma_count_zero(s: Seq<u8>)
    requires
        forall|i: int| 0 <= i < s.len() ==> s[i] != OCCUPIED,
    ensures
        count_occupied(s) == 0,
    decreases s.len(),
{
    if s.len() > 0 {
        lemma_count_zero(s.drop_last());
    }
}

/// A number in `[0, 2*cap)` reduces modulo `cap` by at most one
/// subtraction.
pub proof fn lemma_mod_in_range(x: int, cap: int)
    requires
        cap > 0,
        0 <= x < 2 * cap,
    ensures
        x % cap == if x < cap {
            x
        } else {
            x - cap
        },
{
    if x < cap {
        lemma_fundamental_div_mod_converse(x, cap, 0, x);
    } else {
        lemma_fundamental_div_mod_converse(x, cap, 1, x - cap);
    }
}

/// Probe offsets and slot indices are inverse to each other: stepping
/// `slot_off(start, i, cap)` times from `start` reaches `i`, and the
/// offset of the slot reached after `j` steps is `j`.
pub proof fn lemma_probe_bijection(start: int, cap: int)
    requires
        cap > 0,
        0 <= start < cap,
    ensures
        forall|i: int|
            0 <= i < cap ==> 0 <= #[trigger] slot_off(start, i, cap) < cap && probe_idx(
                start,
                slot_off(start, i, cap),
                cap,
            ) == i,
        forall|j: int|
            0 <= j < cap ==> 0 <= #[trigger] probe_idx(start, j, cap) < cap && slot_off(
                start,
                probe_idx(start, j, cap),
                cap,
            ) == j,
{
    assert forall|i: int|
        0 <= i < cap implies 0 <= #[trigger] slot_off(start, i, cap) < cap && probe_idx(
        start,
        slot_off(start, i, cap),
        cap,
    ) == i by {
        if i >= start {
            lemma_fundamental_div_mod_converse(i - start, cap, 0, i - start);
            lemma_mod_in_range(start + (i - start), cap);
        } else {
            lemma_fundamental_div_mod_converse(i - start, cap, -1, i - start + cap);
            lemma_mod_in_range(start + (i - start + cap), cap);
        }
    }
    assert forall|j: int|
        0 <= j < cap implies 0 <= #[trigger] probe_idx(start, j, cap) < cap && slot_off(
        start,
        probe_idx(start, j, cap),
        cap,
    ) == j by {
        lemma_mod_in_range(start + j, cap);
        let i = probe_idx(start, j, cap);
        if start + j < cap {
            lemma_fundamental_div_mod_converse(i - start, cap, 0, j);
        } else {
            lemma_fundamental_div_mod_converse(i - start, cap, -1, j);
        }
    }
}

/// Advancing the probe index one step: the slot after the one reached in
/// `j` steps is reached in `j + 1` steps.
pub proof fn lemma_probe_step(start: int, j: int, cap: int)
    requires
        cap > 0,
        0 <= start < cap,
        0 <= j,
    ensures
        probe_idx(start, j + 1, cap) == (probe_idx(start, j, cap) + 1) % cap,
{
    let i = probe_idx(start, j, cap);
    lemma_fundamental_div_mod(start + j, cap);
    let q = (start + j) / cap;
    vstd::arithmetic::div_mod::lemma_mod_bound(start + j, cap);
    assert(cap * q == q * cap && (q + 1) * cap == q * cap + cap) by (nonlinear_arith);
    if i + 1 < cap {
        lemma_fundamental_div_mod_converse(start + j + 1, cap, q, i + 1);
        lemma_mod_in_range(i + 1, cap);
    } else {
        lemma_fundamental_div_mod_converse(start + j + 1, cap, q + 1, 0);
        lemma_mod_in_range(i + 1, cap);
    }
}

/// What is known of a lookup walk's result: it stops no earlier than
/// `j`, it stops at a stopping slot when it stops within the cycle, and
/// every slot it passed over was neither empty nor a match.
pub proof fn lemma_find_off_props<K, V>(
    s: Seq<u8>,
    b: Slots<K, V>,
    cap: int,
    start: int,
    key: K,
    j: int,
)
    requires
        0 <= j <= cap,
    ensures
        ({
            let d = find_off(s, b, cap, start, key, j);
            &&& j <= d <= cap
            &&& (d < cap ==> find_stop(s, b, key, probe_idx(start, d, cap)))
            &&& forall|jj: int|
                j <= jj < d ==> !find_stop(s, b, key, #[trigger] probe_idx(start, jj, cap))
        }),
    decreases cap - j,
{
    if j < cap && !find_stop(s, b, key, probe_idx(start, j, cap)) {
        lemma_find_off_props(s, b, cap, start, key, j + 1);
    }
}

/// A lookup walk stops exactly where the first stopping slot is: if
/// every step in `[j, d)` passes over a non-stopping slot and `d` is a
/// stopping slot (or the cycle's end), the walk from `j` stops at `d`.
pub proof fn lemma_find_off_sound<K, V>(
    s: Seq<u8>,
    b: Slots<K, V>,
    cap: int,
    start: int,
    key: K,
    j: int,
    d: int,
)
    requires
        0 <= j <= d <= cap,
        d < cap ==> find_stop(s, b, key, probe_idx(start, d, cap)),
        forall|jj: int| j <= jj < d ==> !find_stop(s, b, key, #[trigger] probe_idx(start, jj, cap)),
    ensures
        find_off(s, b, cap, start, key, j) == d,
    decreases d - j,
{
    if j < d {
        lemma_find_off_sound(s, b, cap, start, key, j + 1, d);
    }
}

/// What is known of an insertion walk's result, as for lookup walks.
pub proof fn lemma_free_off_props<K, V>(
    s: Seq<u8>,
    b: Slots<K, V>,
    cap: int,
    start: int,
    key: K,
    j: int,
)
    requires
        0 <= j <= cap,
    ensures
        ({
            let d = free_off(s, b, cap, start, key, j);
            &&& j <= d <= cap
            &&& (d < cap ==> free_stop(s, b, key, probe_idx(start, d, cap)))
            &&& forall|jj: int|
                j <= jj < d ==> !free_stop(s, b, key, #[trigger] probe_idx(start, jj, cap))
        }),
    decreases cap - j,
{
    if j < cap && !free_stop(s, b, key, probe_idx(start, j, cap)) {
        lemma_free_off_props(s, b, cap, start, key, j + 1);
    }
}

/// Replacing the state of one slot changes the occupied count by the
/// difference the replacement makes at that slot.
pub proof fn lemma_count_update(s: Seq<u8>, i: int, v: u8)
    requires
        0 <= i < s.len(),
    ensures
        count_occupied(s.update(i, v)) == count_occupied(s) - (if s[i] == OCCUPIED {
            1int
        } else {
            0int
        }) + (if v == OCCUPIED {
            1int
        } else {
            0int
        }),
    decreases s.len(),
{
    if i == s.len() - 1 {
        assert(s.update(i, v).drop_last() =~= s.drop_last());
    } else {
        assert(s.update(i, v).drop_last() =~= s.drop_last().update(i, v));
        lemma_count_update(s.drop_last(), i, v);
    }
}

/// The occupied count never exceeds the number of slots, and a sequence
/// whose slots are all occupied has count equal to its length.
pub proof fn lemma_count_bounds(s: Seq<u8>)
    ensures
        0 <= count_occupied(s) <= s.len(),
        (forall|i: int| 0 <= i < s.len() ==> s[i] == OCCUPIED) ==> count_occupied(s) == s.len(),
    decreases s.len(),
{
    if s.len() > 0 {
        lemma_count_bounds(s.drop_last());
    }
}

/// A prefix has at most as many occupied slots as the whole sequence.
pub proof fn lemma_count_prefix_le(s: Seq<u8>, i: int)
    requires
        0 <= i <= s.len(),
    ensures
        count_occupied(s.subrange(0, i)) <= count_occupied(s),
    decreases s.len(),
{
    if i == s.len() {
        assert(s.subrange(0, i) =~= s);
    } else {
        assert(s.drop_last().subrange(0, i) =~= s.subrange(0, i));
        lemma_count_prefix_le(s.drop_last(), i);
    }
}

/// An occupied slot makes the occupied count positive.
pub proof fn lemma_count_positive(s: Seq<u8>, i: int)
    requires
        0 <= i < s.len(),
        s[i] == OCCUPIED,
    ensures
        count_occupied(s) >= 1,
    decreases s.len(),
{
    if i < s.len() - 1 {
        lemma_count_positive(s.drop_last(), i);
    } else {
        lemma_count_bounds(s.drop_last());
    }
}

/// Changing one slot in a way that preserves being empty and matching
/// `key` leaves the lookup walk for `key` unchanged.
pub proof fn lemma_find_off_frame<K, V>(
    s1: Seq<u8>,
    b1: Slots<K, V>,
    s2: Seq<u8>,
    b2: Slots<K, V>,
    cap: int,
    start: int,
    key: K,
    f: int,
)
    requires
        cap > 0,
        0 <= start < cap,
        0 <= f < cap,
        s1.len() == cap,
        s2.len() == cap,
        b1.len() == cap,
        b2.len() == cap,
        forall|i: int| 0 <= i < cap && i != f ==> s2[i] == s1[i] && b2[i] == b1[i],
        (s2[f] == EMPTY <==> s1[f] == EMPTY),
        (is_match(s2, b2, key, f) <==> is_match(s1, b1, key, f)),
    ensures
        find_off(s2, b2, cap, start, key, 0) == find_off(s1, b1, cap, start, key, 0),
        ({
            let d = find_off(s1, b1, cap, start, key, 0);
            d < cap ==> (is_match(s1, b1, key, probe_idx(start, d, cap)) <==> is_match(
                s2,
                b2,
                key,
                probe_idx(start, d, cap),
            ))
        }),
{
    lemma_probe_bijection(start, cap);
    lemma_find_off_props(s1, b1, cap, start, key, 0);
    let d = find_off(s1, b1, cap, start, key, 0);
    assert forall|jj: int| 0 <= jj < d implies !find_stop(
        s2,
        b2,
        key,
        #[trigger] probe_idx(start, jj, cap),
    ) by {
        assert(!find_stop(s1, b1, key, probe_idx(start, jj, cap)));
    }
    if d < cap {
        assert(find_stop(s2, b2, key, probe_idx(start, d, cap)));
    }
    lemma_find_off_sound(s2, b2, cap, start, key, 0, d);
}

/// If every slot holding `key` is reachable (its probe prefix passes
/// over no empty slot), then filling one empty slot with an entry whose
/// key is not `key` does not change whether, or where, a lookup walk
/// for `key` finds a match.
pub proof fn lemma_find_off_fill_empty<K, V>(
    s1: Seq<u8>,
    b1: Slots<K, V>,
    s2: Seq<u8>,
    b2: Slots<K, V>,
    cap: int,
    start: int,
    key: K,
    f: int,
)
    requires
        cap > 0,
        0 <= start < cap,
        0 <= f < cap,
        s1.len() == cap,
        s2.len() == cap,
        b1.len() == cap,
        b2.len() == cap,
        forall|i: int| 0 <= i < cap && i != f ==> s2[i] == s1[i] && b2[i] == b1[i],
        s1[f] == EMPTY,
        s2[f] != EMPTY,
        !is_match(s2, b2, key, f),
        forall|i: int|
            0 <= i < cap && #[trigger] is_match(s1, b1, key, i) ==> prefix_nonempty(
                s1,
                cap,
                start,
                i,
            ),
    ensures
        ({
            let d1 = find_off(s1, b1, cap, start, key, 0);
            let d2 = find_off(s2, b2, cap, start, key, 0);
            &&& ((d1 < cap && is_match(s1, b1, key, probe_idx(start, d1, cap))) <==> (d2 < cap
                && is_match(s2, b2, key, probe_idx(start, d2, cap))))
            &&& ((d1 < cap && is_match(s1, b1, key, probe_idx(start, d1, cap))) ==> d2 == d1)
        }),
{
    lemma_probe_bijection(start, cap);
    lemma_find_off_props(s1, b1, cap, start, key, 0);
    lemma_find_off_props(s2, b2, cap, start, key, 0);
    let d1 = find_off(s1, b1, cap, start, key, 0);
    let d2 = find_off(s2, b2, cap, start, key, 0);
    let ef = slot_off(start, f, cap);
    if d1 < cap && is_match(s1, b1, key, probe_idx(start, d1, cap)) {
        // The walk in the old table stops at a match; the prefix has no
        // empty slot, so it does not pass over `f`, and the walk in the
        // new table is identical.
        assert(probe_idx(start, d1, cap) != f);
        assert(ef >= d1) by {
            if ef < d1 {
                assert(!find_stop(s1, b1, key, probe_idx(start, ef, cap)));
            }
        }
        assert forall|jj: int| 0 <= jj < d1 implies !find_stop(
            s2,
            b2,
            key,
            #[trigger] probe_idx(start, jj, cap),
        ) by {
            assert(!find_stop(s1, b1, key, probe_idx(start, jj, cap)));
            assert(probe_idx(start, jj, cap) != f);
        }
        lemma_find_off_sound(s2, b2, cap, start, key, 0, d1);
    } else {
        // The walk in the old table finds no match; were the walk in
        // the new table to stop at a match, that entry's probe prefix
        // would have to pass over the slot that was empty.
        if d2 < cap && is_match(s2, b2, key, probe_idx(start, d2, cap)) {
            let i2 = probe_idx(start, d2, cap);
            assert(i2 != f);
            assert(is_match(s1, b1, key, i2));
            assert(slot_off(start, i2, cap) == d2);
            if ef < d2 {
                assert(s1[probe_idx(start, ef, cap)] != EMPTY);
                assert(false);
            } else {
                assert forall|jj: int| 0 <= jj < d2 implies !find_stop(
                    s1,
                    b1,
                    key,
                    #[trigger] probe_idx(start, jj, cap),
                ) by {
                    assert(!find_stop(s2, b2, key, probe_idx(start, jj, cap)));
                    assert(probe_idx(start, jj, cap) != f);
                }
                lemma_find_off_sound(s1, b1, cap, start, key, 0, d2);
                assert(false);
            }
        }
    }
}

/// If slot `i` holds `key` and is reachable, the lookup walk for `key`
/// stops at a match (not necessarily at `i`).
pub proof fn lemma_contains_complete<K, V>(
    s: Seq<u8>,
    b: Slots<K, V>,
    cap: int,
    start: int,
    key: K,
    i: int,
)
    requires
        cap > 0,
        0 <= start < cap,
        0 <= i < cap,
        s.len() == cap,
        b.len() == cap,
        is_match(s, b, key, i),
        prefix_nonempty(s, cap, start, i),
    ensures
        ({
            let d = find_off(s, b, cap, start, key, 0);
            d < cap && is_match(s, b, key, probe_idx(start, d, cap))
        }),
{
    lemma_probe_bijection(start, cap);
    lemma_find_off_props(s, b, cap, start, key, 0);
    let d = find_off(s, b, cap, start, key, 0);
    let off_i = slot_off(start, i, cap);
    assert(d <= off_i) by {
        if d > off_i {
            assert(!find_stop(s, b, key, probe_idx(start, off_i, cap)));
        }
    }
    if s[probe_idx(start, d, cap)] == EMPTY {
        assert(d < off_i);
        assert(s[probe_idx(start, d, cap)] != EMPTY);
    }
}

/// The map reached from `m0` by performing the given insertions in
/// order.
pub open spec fn map_after_inserts<K, V>(m0: Map<K, V>, ops: Seq<(K, V)>) -> Map<K, V>
    decreases ops.len(),
{
    if ops.len() == 0 {
        m0
    } else {
        map_after_inserts(m0, ops.drop_last()).insert(ops.last().0, ops.last().1)
    }
}

/// Round trip: after a sequence of insertions, a key not inserted again
/// afterwards is mapped to the value of its most recent insertion.
pub proof fn lemma_last_insert_wins<K, V>(m0: Map<K, V>, ops: Seq<(K, V)>, n: int)
    requires
        0 <= n < ops.len(),
        forall|x: int| n < x < ops.len() ==> (#[trigger] ops[x]).0 != ops[n].0,
    ensures
        map_after_inserts(m0, ops).contains_key(ops[n].0),
        map_after_inserts(m0, ops)[ops[n].0] == ops[n].1,
    decreases ops.len(),
{
    if n < ops.len() - 1 {
        lemma_last_insert_wins(m0, ops.drop_last(), n);
    }
}

/// If no slot the walk can still reach matches `key`, the lookup walk
/// does not stop at a match.
pub proof fn lemma_find_no_match<K, V>(
    s: Seq<u8>,
    b: Slots<K, V>,
    cap: int,
    start: int,
    key: K,
    j: int,
)
    requires
        0 <= j <= cap,
        forall|jj: int| j <= jj < cap ==> !is_match(s, b, key, #[trigger] probe_idx(start, jj, cap)),
    ensures
        ({
            let d = find_off(s, b, cap, start, key, j);
            d == cap || s[probe_idx(start, d, cap)] == EMPTY
        }),
{
    let d = find_off(s, b, cap, start, key, j);
    lemma_find_off_props(s, b, cap, start, key, j);
}

} // verus!
