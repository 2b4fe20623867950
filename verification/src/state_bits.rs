//! Packed slot-state registers: two bits per slot, four slots per byte
//! in the narrow register, thirty-two slots per 64-bit word in the wide
//! one. Slot states are `EMPTY`, `OCCUPIED` and `DELETED`; the fourth
//! two-bit pattern is never written.

use vstd::prelude::*;

verus! {

/// Slot state: the slot has never held an entry.
pub const EMPTY: u8 = 0;

/// Slot state: the slot holds an entry.
pub const OCCUPIED: u8 = 1;

/// Slot state: the slot held an entry that was deleted (a tombstone).
pub const DELETED: u8 = 2;

/// The state of slot `i` in a byte-wide packed register.
pub open spec fn byte_state(words: Seq<u8>, i: int) -> u8 {
    (words[i / 4] >> ((2 * (i % 4)) as u8)) & 3u8
}

/// The state of slot `i` in a 64-bit-wide packed register.
pub open spec fn word_state(words: Seq<u64>, i: int) -> u8 {
    ((words[i / 32] >> ((2 * (i % 32)) as u64)) & 3u64) as u8
}

proof fn lemma_u8_set_bits(b: u8, s: u8, k: u8, m: u8)
    by (bit_vector)
    requires
        k < 4,
        m < 4,
        s < 4,
    ensures
        k == m ==> ((b & !(3u8 << (2 * k))) | (s << (2 * k))) >> (2 * m) & 3u8 == s,
        k != m ==> ((b & !(3u8 << (2 * k))) | (s << (2 * k))) >> (2 * m) & 3u8 == (b >> (2 * m))
            & 3u8,
{
}

proof fn lemma_u64_set_bits(b: u64, s: u64, k: u64, m: u64)
    by (bit_vector)
    requires
        k < 32,
        m < 32,
        s < 4,
    ensures
        k == m ==> ((b & !(3u64 << (2 * k))) | (s << (2 * k))) >> (2 * m) & 3u64 == s,
        k != m ==> ((b & !(3u64 << (2 * k))) | (s << (2 * k))) >> (2 * m) & 3u64 == (b >> (2 * m))
            & 3u64,
{
}

/// Every two-bit field of a zeroed byte decodes to `EMPTY`.
pub proof fn lemma_u8_zero_states(m: u8)
    by (bit_vector)
    requires
        m < 4,
    ensures
        (0u8 >> (2 * m)) & 3u8 == 0u8,
{
}

/// Every two-bit field of a zeroed 64-bit word decodes to `EMPTY`.
pub proof fn lemma_u64_zero_states(m: u64)
    by (bit_vector)
    requires
        m < 32,
    ensures
        (0u64 >> (2 * m)) & 3u64 == 0u64,
{
}

/// Read the two-bit state of slot `index` from the byte-wide register.
pub(crate) fn get_state(bitmap: &Vec<u8>, index: usize) -> (s: u8)
    requires
        index as int / 4 < bitmap@.len(),
    ensures
        s == byte_state(bitmap@, index as int),
{
    let byte_index: usize = index / 4;
    let off: u8 = 2 * ((index % 4) as u8);
    (bitmap[byte_index] >> off) & 3
}

/// Write the two-bit state of slot `index` in the byte-wide register,
/// leaving every other slot's state unchanged.
pub(crate) fn set_state(bitmap: &mut Vec<u8>, index: usize, state: u8)
    requires
        index as int / 4 < old(bitmap)@.len(),
        state < 4,
    ensures
        final(bitmap)@.len() == old(bitmap)@.len(),
        forall|j: int|
            0 <= j < old(bitmap)@.len() * 4 ==> #[trigger] byte_state(final(bitmap)@, j) == (
            if j == index as int {
                state
            } else {
                byte_state(old(bitmap)@, j)
            }),
{
    let byte_index: usize = index / 4;
    let off: u8 = 2 * ((index % 4) as u8);
    let b = bitmap[byte_index];
    let nb = (b & !(3u8 << off)) | (state << off);
    bitmap.set(byte_index, nb);
    proof {
        let k = (index as int % 4) as u8;
        assert forall|j: int| 0 <= j < old(bitmap)@.len() * 4 implies #[trigger] byte_state(
            bitmap@,
            j,
        ) == (if j == index as int {
            state
        } else {
            byte_state(old(bitmap)@, j)
        }) by {
            let m = (j % 4) as u8;
            if j / 4 == byte_index as int {
                lemma_u8_set_bits(b, state, k, m);
                vstd::arithmetic::div_mod::lemma_fundamental_div_mod(j, 4);
                vstd::arithmetic::div_mod::lemma_fundamental_div_mod(index as int, 4);
            }
        }
    }
}

/// Read the two-bit state of slot `index` from the 64-bit-wide register.
pub(crate) fn get_state_u64(bitmap: &Vec<u64>, index: usize) -> (s: u8)
    requires
        index as int / 32 < bitmap@.len(),
    ensures
        s == word_state(bitmap@, index as int),
{
    let word_index: usize = index / 32;
    let off: u64 = 2 * ((index % 32) as u64);
    ((bitmap[word_index] >> off) & 3) as u8
}

/// Write the two-bit state of slot `index` in the 64-bit-wide register,
/// leaving every other slot's state unchanged.
pub(crate) fn set_state_u64(bitmap: &mut Vec<u64>, index: usize, state: u64)
    requires
        index as int / 32 < old(bitmap)@.len(),
        state < 4,
    ensures
        final(bitmap)@.len() == old(bitmap)@.len(),
        forall|j: int|
            0 <= j < old(bitmap)@.len() * 32 ==> #[trigger] word_state(final(bitmap)@, j) == (
            if j == index as int {
                state as u8
            } else {
                word_state(old(bitmap)@, j)
            }),
{
    let word_index: usize = index / 32;
    let off: u64 = 2 * ((index % 32) as u64);
    let b = bitmap[word_index];
    let nb = (b & !(3u64 << off)) | (state << off);
    bitmap.set(word_index, nb);
    proof {
        let k = (index as int % 32) as u64;
        assert forall|j: int| 0 <= j < old(bitmap)@.len() * 32 implies #[trigger] word_state(
            bitmap@,
            j,
        ) == (if j == index as int {
            state as u8
        } else {
            word_state(old(bitmap)@, j)
        }) by {
            let m = (j % 32) as u64;
            if j / 32 == word_index as int {
                lemma_u64_set_bits(b, state, k, m);
                vstd::arithmetic::div_mod::lemma_fundamental_div_mod(j, 32);
                vstd::arithmetic::div_mod::lemma_fundamental_div_mod(index as int, 32);
            }
        }
    }
}

} // verus!
