//! Reads of a state provider as the EVM asks for them.
//!
//! `DbBridge` answers the EVM's four kinds of state reads from any
//! `StateProvider`; errors of the provider become a `DbBridgeError`
//! carrying the provider error's message.

use vstd::prelude::*;

use crate::primitives::{Address, B256, U256};
use crate::state::{account_result_view, bytes_result_view, StateProvider};
use crate::types::{AccountInfo, AccountView, Bytes, EvmError};

verus! {

/// Error of a bridged read: the message of the provider's error.
#[derive(Debug, Clone, PartialEq, Eq)]
pub struct DbBridgeError(pub String);

impl DbBridgeError {
    /// The error for a provider error `e`: its message.
    pub fn from(e: EvmError) -> (r: DbBridgeError)
        ensures
            r.0@ == e.message(),
    {
        DbBridgeError(e.to_string())
    }

    /// `DbBridge error: ` and the carried message.
    pub open spec fn message(&self) -> Seq<char> {
        "DbBridge error: "@ + self.0@
    }

    /// Renders the error message.
    pub fn to_string(&self) -> (s: String)
        ensures
            s@ == self.message(),
    {
        let mut s = String::new();
        s.append("DbBridge error: ");
        s.append(self.0.as_str());
        s
    }
}

/// The bridge result `r` stands for the provider result `p`, with values
/// compared by `same`.
pub open spec fn bridged<T, V>(
    r: Result<T, DbBridgeError>,
    p: Result<V, EvmError>,
    same: spec_fn(T, V) -> bool,
) -> bool {
    match p {
        Ok(v) => r is Ok && same(r->Ok_0, v),
        Err(e) => r is Err && r->Err_0.0@ == e.message(),
    }
}

/// The EVM's view of a state provider.
pub struct DbBridge<'a, S: StateProvider> {
    state: &'a S,
}

impl<'a, S: StateProvider> DbBridge<'a, S> {
    /// The provider behind the bridge.
    pub closed spec fn provider(&self) -> S {
        *self.state
    }

    /// A bridge over `state`.
    pub fn new(state: &'a S) -> (b: Self)
        ensures
            b.provider() == *state,
    {
        DbBridge { state }
    }

    /// The account at `address`.
    pub fn basic(&mut self, address: Address) -> (r: Result<Option<AccountInfo>, DbBridgeError>)
        ensures
            *final(self) == *old(self),
            bridged(
                r,
                old(self).provider().spec_basic_account(address),
                |a: Option<AccountInfo>, v: Option<AccountView>|
                    match (a, v) {
                        (Some(x), Some(y)) => x@ == y,
                        (None, None) => true,
                        _ => false,
                    },
            ),
    {
        let r = self.state.basic_account(address);
        proof {
            assert(account_result_view(r) == self.provider().spec_basic_account(address));
        }
        match r {
            Ok(a) => Ok(a),
            Err(e) => Err(DbBridgeError::from(e)),
        }
    }

    /// The code stored under `code_hash`.
    pub fn code_by_hash(&mut self, code_hash: B256) -> (r: Result<Bytes, DbBridgeError>)
        ensures
            *final(self) == *old(self),
            bridged(
                r,
                old(self).provider().spec_code_by_hash(code_hash),
                |b: Bytes, v: Seq<u8>| b@ == v,
            ),
    {
        let r = self.state.code_by_hash(code_hash);
        proof {
            assert(bytes_result_view(r) == self.provider().spec_code_by_hash(code_hash));
        }
        match r {
            Ok(b) => Ok(b),
            Err(e) => Err(DbBridgeError::from(e)),
        }
    }

    /// The storage value at `(address, index)`.
    pub fn storage(&mut self, address: Address, index: U256) -> (r: Result<U256, DbBridgeError>)
        ensures
            *final(self) == *old(self),
            bridged(r, old(self).provider().spec_storage(address, index), |a: U256, v: U256| a == v),
    {
        match self.state.storage(address, index) {
            Ok(v) => Ok(v),
            Err(e) => Err(DbBridgeError::from(e)),
        }
    }

    /// The hash of block `number`.
    pub fn block_hash(&mut self, number: u64) -> (r: Result<B256, DbBridgeError>)
        ensures
            *final(self) == *old(self),
            bridged(r, old(self).provider().spec_block_hash(number), |a: B256, v: B256| a == v),
    {
        match self.state.block_hash(number) {
            Ok(h) => Ok(h),
            Err(e) => Err(DbBridgeError::from(e)),
        }
    }
}

} // verus!
