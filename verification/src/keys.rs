//! The key capability the tables require: a reproducible hash code and
//! an executable equality test that agrees with mathematical equality.

use vstd::prelude::*;

verus! {

/// A type usable as a table key.
///
/// `hash_spec` is the key's hash code as a mathematical function of the
/// key alone, so the same key always probes from the same slot;
/// `hash_code` computes it, and `key_eq` decides mathematical equality.
pub trait SlotKey: Sized {
    /// The key's 64-bit hash code, a pure function of the key.
    spec fn hash_spec(&self) -> u64;

    /// Compute the hash code.
    fn hash_code(&self) -> (r: u64)
        ensures
            r == self.hash_spec(),
    ;

    /// Decide whether two keys are equal.
    fn key_eq(&self, other: &Self) -> (r: bool)
        ensures
            r == (self == other),
    ;
}

/// One round of the xorshift permutation, used to spread key bits over
/// the whole hash code.
pub open spec fn spec_mix64(x: u64) -> u64 {
    let a = x ^ (x << 13);
    let b = a ^ (a >> 7);
    b ^ (b << 17)
}

/// Executable counterpart of [`spec_mix64`].
pub fn mix64(x: u64) -> (r: u64)
    ensures
        r == spec_mix64(x),
{
    let a = x ^ (x << 13);
    let b = a ^ (a >> 7);
    b ^ (b << 17)
}

impl SlotKey for u64 {
    open spec fn hash_spec(&self) -> u64 {
        spec_mix64(*self)
    }

    fn hash_code(&self) -> (r: u64) {
        mix64(*self)
    }

    fn key_eq(&self, other: &Self) -> (r: bool) {
        *self == *other
    }
}

impl SlotKey for u32 {
    open spec fn hash_spec(&self) -> u64 {
        spec_mix64(*self as u64)
    }

    fn hash_code(&self) -> (r: u64) {
        mix64(*self as u64)
    }

    fn key_eq(&self, other: &Self) -> (r: bool) {
        *self == *other
    }
}

impl SlotKey for usize {
    open spec fn hash_spec(&self) -> u64 {
        spec_mix64(*self as u64)
    }

    fn hash_code(&self) -> (r: u64) {
        mix64(*self as u64)
    }

    fn key_eq(&self, other: &Self) -> (r: bool) {
        *self == *other
    }
}

} // verus!
