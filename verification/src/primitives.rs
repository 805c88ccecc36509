//! The plain values that the rest of the library is about: account addresses,
//! storage words and hashes.
use vstd::prelude::*;

verus! {

/// A 20-byte account address, as its four leading bytes and its sixteen
/// trailing bytes, both read big-endian.
#[derive(Clone, Copy, Debug, PartialEq, Eq, Hash, Structural)]
pub struct Address {
    pub hi: u32,
    pub lo: u128,
}

impl Address {
    /// The zero address, which is also the default one.
    pub fn zero() -> (r: Address)
        ensures
            r == (Address { hi: 0, lo: 0 }),
    {
        Address { hi: 0, lo: 0 }
    }
}

/// A 256-bit word, as its upper and its lower half.
#[derive(Clone, Copy, Debug, PartialEq, Eq, Hash, Structural)]
pub struct U256 {
    pub hi: u128,
    pub lo: u128,
}

/// The word zero, under which accesses to a whole account are filed.
pub open spec fn zero_word() -> U256 {
    U256 { hi: 0, lo: 0 }
}

impl U256 {
    pub fn zero() -> (r: U256)
        ensures
            r == zero_word(),
    {
        U256 { hi: 0, lo: 0 }
    }

    pub fn from_u64(value: u64) -> (r: U256)
        ensures
            r == (U256 { hi: 0, lo: value as u128 }),
    {
        U256 { hi: 0, lo: value as u128 }
    }
}

/// A 32-byte hash, as its upper and its lower half, both read big-endian.
#[derive(Clone, Copy, Debug, PartialEq, Eq, Hash, Structural)]
pub struct B256 {
    pub hi: u128,
    pub lo: u128,
}

/// One storage slot of one account.
pub type StorageKey = (Address, U256);

} // verus!
