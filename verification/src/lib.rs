//! Open-addressing hash tables whose slot states (empty / occupied /
//! deleted) are packed two bits per slot into fixed-width words.
//!
//! Two variants are provided, identical except for the word width of the
//! packed state register: [`bitmap::BitMap`] packs four slot states into
//! each byte, [`bitmap64::BitMap64`] packs thirty-two into each 64-bit
//! word. Both resolve collisions by linear probing, keep their load
//! factor below 3/4 by doubling, and tombstone deleted slots.

pub mod bitmap;
pub mod bitmap64;
pub mod keys;
pub mod model;
pub mod state_bits;

pub use bitmap::BitMap;
pub use bitmap64::BitMap64;
