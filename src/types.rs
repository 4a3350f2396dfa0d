use vstd::prelude::*;

verus! {

/// A 256-bit hash, held as its high and low halves (big-endian order).
#[derive(Clone, Copy, Debug, PartialEq, Eq, Structural, Default, Hash)]
pub struct H256 {
    pub hi: u128,
    pub lo: u128,
}

/// A 160-bit account address, held as its high 32 and low 128 bits.
#[derive(Clone, Copy, Debug, PartialEq, Eq, Structural, Default, Hash)]
pub struct Address {
    pub hi: u32,
    pub lo: u128,
}

/// A 256-bit unsigned integer, held as its high and low halves.
#[derive(Clone, Copy, Debug, PartialEq, Eq, Structural, Default, Hash)]
pub struct U256 {
    pub hi: u128,
    pub lo: u128,
}

pub open spec fn two_128() -> int {
    0x1_0000_0000_0000_0000int * 0x1_0000_0000_0000_0000int
}

impl H256 {
    /// The hash read as a number.
    pub open spec fn view(self) -> nat {
        (self.hi * two_128() + self.lo) as nat
    }

    pub fn from_u64(v: u64) -> (r: H256)
        ensures
            r@ == v as nat,
    {
        H256 { hi: 0, lo: v as u128 }
    }
}

impl Address {
    /// The address read as a number.
    pub open spec fn view(self) -> nat {
        (self.hi * two_128() + self.lo) as nat
    }

    pub fn from_u64(v: u64) -> (r: Address)
        ensures
            r@ == v as nat,
    {
        Address { hi: 0, lo: v as u128 }
    }
}

impl U256 {
    /// The number held.
    pub open spec fn view(self) -> nat {
        (self.hi * two_128() + self.lo) as nat
    }

    pub fn from_u64(v: u64) -> (r: U256)
        ensures
            r@ == v as nat,
    {
        U256 { hi: 0, lo: v as u128 }
    }
}

/// The plain-value form of an account record:
/// code size, code hash, storage root, balance, nonce.
pub type MetaView = (nat, nat, nat, nat, nat);

/// Account meta-information.
#[derive(Clone, Copy, Debug, PartialEq, Eq, Structural, Default)]
pub struct AccountMeta {
    /// The size of this account's code.
    pub code_size: usize,
    /// The hash of this account's code.
    pub code_hash: H256,
    /// Storage root for the trie.
    pub storage_root: H256,
    /// Account balance.
    pub balance: U256,
    /// Account nonce.
    pub nonce: U256,
}

impl AccountMeta {
    pub open spec fn view(self) -> MetaView {
        (self.code_size as nat, self.code_hash@, self.storage_root@, self.balance@, self.nonce@)
    }
}

/// Errors which can occur in the operation of the meta db.
#[derive(Clone, Debug, PartialEq, Eq)]
pub enum Error {
    /// A database error.
    Database(String),
    /// No journal entry found for the specified era, id.
    MissingJournalEntry(u64, H256),
    /// Request made for pruned state.
    StatePruned(u64, H256),
}

} // verus!
