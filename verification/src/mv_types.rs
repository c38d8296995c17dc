//! Locations, versions and values of the multi-version state.

use vstd::prelude::*;

use crate::primitives::{Address, KeyOrder, OrderedKey, B256, U256};

verus! {

/// Position of a transaction in its block.
pub type TxIndex = u32;

/// How many times a transaction has been re-executed (0 for the first run).
pub type Incarnation = u32;

/// A single piece of state that transactions read and write.
#[derive(Clone, Copy, PartialEq, Eq, Structural, Debug, Hash, PartialOrd, Ord)]
pub enum LocationKey {
    Storage(Address, U256),
    Balance(Address),
    Nonce(Address),
    CodeHash(Address),
}

impl LocationKey {
    pub open spec fn tag(self) -> int {
        match self {
            LocationKey::Storage(..) => 0,
            LocationKey::Balance(..) => 1,
            LocationKey::Nonce(..) => 2,
            LocationKey::CodeHash(..) => 3,
        }
    }

    /// The account the location belongs to.
    pub open spec fn spec_address(self) -> Address {
        match self {
            LocationKey::Storage(a, _) => a,
            LocationKey::Balance(a) => a,
            LocationKey::Nonce(a) => a,
            LocationKey::CodeHash(a) => a,
        }
    }

    pub fn address(&self) -> (a: Address)
        ensures
            a == self.spec_address(),
    {
        match self {
            LocationKey::Storage(a, _) => *a,
            LocationKey::Balance(a) => *a,
            LocationKey::Nonce(a) => *a,
            LocationKey::CodeHash(a) => *a,
        }
    }

    fn tag_exec(&self) -> (t: u8)
        ensures
            t == self.tag(),
    {
        match self {
            LocationKey::Storage(..) => 0,
            LocationKey::Balance(..) => 1,
            LocationKey::Nonce(..) => 2,
            LocationKey::CodeHash(..) => 3,
        }
    }
}

impl OrderedKey for LocationKey {
    open spec fn key_lt(self, other: Self) -> bool {
        self.tag() < other.tag() || (self.tag() == other.tag() && match (self, other) {
            (LocationKey::Storage(a, s), LocationKey::Storage(b, t)) => a.key_lt(b) || (a == b
                && s.key_lt(t)),
            _ => self.spec_address().key_lt(other.spec_address()),
        })
    }

    proof fn lemma_key_lt_irreflexive(x: Self) {
    }

    proof fn lemma_key_lt_transitive(x: Self, y: Self, z: Self) {
    }

    proof fn lemma_key_lt_total(x: Self, y: Self) {
    }

    fn compare(&self, other: &Self) -> (c: KeyOrder) {
        let ta = self.tag_exec();
        let tb = other.tag_exec();
        if ta < tb {
            return KeyOrder::Less;
        }
        if ta > tb {
            return KeyOrder::Greater;
        }
        match (self, other) {
            (LocationKey::Storage(a, s), LocationKey::Storage(b, t)) => {
                match a.compare(b) {
                    KeyOrder::Equal => s.compare(t),
                    c => c,
                }
            },
            _ => {
                let a = self.address();
                let b = other.address();
                a.compare(&b)
            },
        }
    }
}

/// A value written to a location.
#[derive(Clone, Copy, PartialEq, Eq, Structural, Debug)]
pub enum WriteValue {
    Balance(U256),
    Nonce(u64),
    CodeHash(B256),
    Storage(U256),
}

/// Where a recorded read got its value from.
#[derive(Clone, Copy, PartialEq, Eq, Structural, Debug, Hash, PartialOrd, Ord)]
pub enum ReadOrigin {
    /// Written by transaction `tx_index` in incarnation `incarnation`.
    MvHashMap { tx_index: TxIndex, incarnation: Incarnation },
    /// No earlier transaction wrote it; the base state supplied the value.
    Storage,
    /// Neither the multi-version state nor the base state has it.
    NotFound,
}

/// The answer of the multi-version state to a read.
#[derive(Clone, Copy, PartialEq, Eq, Structural, Debug)]
pub enum MvReadResult {
    /// The value written by `(tx_index, incarnation)`.
    Value(WriteValue, TxIndex, Incarnation),
    /// The latest earlier writer is being re-executed.
    Estimate(TxIndex),
    /// No earlier transaction wrote the location.
    NotFound,
}

} // verus!
