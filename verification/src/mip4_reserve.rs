//! MIP-4: the reserve balance precompile at address `0x20`.
//!
//! The precompile takes a 32-byte ABI-encoded address and answers, for 100
//! gas, with a 32-byte boolean: `1` when the address has not dipped into its
//! reserve balance in the current transaction, `0` when it has. Which
//! addresses dipped is tracked per transaction by `DippedIntoReserve`.

use vstd::prelude::*;

use crate::primitives::Address;
use crate::sorted_map::SortedMap;
use crate::text::{decimal_chars, push_decimal};

verus! {

/// Address of the precompile: `0x…20`.
pub open spec fn spec_mip4_reserve_address() -> Address {
    Address { hi: 0, lo: 0x20 }
}

pub fn mip4_reserve_address() -> (a: Address)
    ensures
        a == spec_mip4_reserve_address(),
{
    Address { hi: 0, lo: 0x20 }
}

/// Gas charged by the precompile.
pub const MIP4_GAS_COST: u64 = 100;

/// Length of the precompile's input: one ABI word.
pub const MIP4_INPUT_LENGTH: usize = 32;

/// Reserve balance settings.
#[derive(Debug, Clone, Copy, PartialEq, Eq, Structural)]
pub struct ReserveBalanceConfig {
    /// Balance (in wei) below which an account has dipped into its reserve.
    pub default_reserve_threshold: u64,
}

impl Default for ReserveBalanceConfig {
    /// A threshold of 1 ETH.
    fn default() -> (c: Self)
        ensures
            c.default_reserve_threshold == 1_000_000_000_000_000_000,
    {
        ReserveBalanceConfig { default_reserve_threshold: 1_000_000_000_000_000_000 }
    }
}

/// The addresses that dipped into their reserve in the current transaction.
pub struct DippedIntoReserve {
    inner: SortedMap<Address, bool>,
}

impl DippedIntoReserve {
    /// The tracked flags.
    pub closed spec fn view(&self) -> Map<Address, bool> {
        self.inner@
    }

    pub closed spec fn wf(&self) -> bool {
        self.inner.wf()
    }

    /// Whether `address` dipped.
    pub open spec fn spec_has_dipped(&self, address: Address) -> bool {
        self@.contains_key(address) && self@[address]
    }

    /// A tracker with no address dipped.
    pub fn new() -> (t: DippedIntoReserve)
        ensures
            t.wf(),
            t@ == Map::<Address, bool>::empty(),
    {
        DippedIntoReserve { inner: SortedMap::new() }
    }

    /// Records that `address` dipped into its reserve.
    pub fn mark_dipped(&mut self, address: Address)
        requires
            old(self).wf(),
        ensures
            final(self).wf(),
            final(self)@ == old(self)@.insert(address, true),
    {
        self.inner.insert(address, true);
    }

    /// Whether `address` dipped into its reserve (untracked addresses did not).
    pub fn has_dipped(&self, address: &Address) -> (b: bool)
        requires
            self.wf(),
        ensures
            b == self.spec_has_dipped(*address),
    {
        match self.inner.get(address) {
            Some(v) => *v,
            None => false,
        }
    }

    /// Forgets every flag, for a new transaction.
    pub fn reset(&mut self)
        ensures
            final(self).wf(),
            final(self)@ == Map::<Address, bool>::empty(),
    {
        self.inner.clear();
    }
}

impl Default for DippedIntoReserve {
    fn default() -> (t: Self)
        ensures
            t.wf(),
            t@ == Map::<Address, bool>::empty(),
    {
        DippedIntoReserve::new()
    }
}

/// Records that `address` dipped, in the tracker of the current transaction.
pub fn mark_address_dipped(tracker: &mut DippedIntoReserve, address: Address)
    requires
        old(tracker).wf(),
    ensures
        final(tracker).wf(),
        final(tracker)@ == old(tracker)@.insert(address, true),
{
    tracker.mark_dipped(address);
}

/// Whether `address` dipped, in the tracker of the current transaction.
pub fn has_address_dipped(tracker: &DippedIntoReserve, address: &Address) -> (b: bool)
    requires
        tracker.wf(),
    ensures
        b == tracker.spec_has_dipped(*address),
{
    tracker.has_dipped(address)
}

/// Clears the tracker of the current transaction.
pub fn reset_dipped_tracker(tracker: &mut DippedIntoReserve)
    ensures
        final(tracker).wf(),
        final(tracker)@ == Map::<Address, bool>::empty(),
{
    tracker.reset();
}

/// Failure of the precompile.
#[derive(Debug, Clone, PartialEq, Eq)]
pub enum PrecompileError {
    /// Less gas than the precompile costs.
    OutOfGas,
    /// Any other failure, with its message.
    Other(String),
}

/// Successful output of the precompile.
#[derive(Debug, Clone, PartialEq, Eq)]
pub struct PrecompileOutput {
    pub gas_used: u64,
    pub bytes: Vec<u8>,
}

/// The message for input of the wrong length.
pub open spec fn bad_length_message(len: nat) -> Seq<char> {
    "MIP-4: invalid input length "@ + decimal_chars(len) + ", expected 32"@
}

/// Reads the address from the last 20 bytes of a 32-byte ABI word (the 12
/// padding bytes are not checked).
pub fn decode_abi_address(input: &[u8]) -> (r: Result<Address, PrecompileError>)
    ensures
        input@.len() == 32 ==> (r matches Ok(a) && a.spec_bytes() == input@.subrange(12, 32)),
        input@.len() != 32 ==> (r matches Err(PrecompileError::Other(m)) && m@
            == bad_length_message(input@.len())),
{
    if input.len() != MIP4_INPUT_LENGTH {
        let mut m = String::new();
        m.append("MIP-4: invalid input length ");
        push_decimal(&mut m, input.len() as u64);
        m.append(", expected 32");
        return Err(PrecompileError::Other(m));
    }
    Ok(Address::from_slice_at(input, 12))
}

/// The 32-byte ABI word of a boolean.
pub open spec fn abi_bool(value: bool) -> Seq<u8> {
    Seq::new(31, |i: int| 0u8).push(if value {
        1u8
    } else {
        0u8
    })
}

/// Encodes a boolean as a 32-byte ABI word.
pub fn encode_abi_bool(value: bool) -> (out: Vec<u8>)
    ensures
        out@ == abi_bool(value),
{
    let mut out: Vec<u8> = Vec::new();
    let mut i: usize = 0;
    while i < 31
        invariant
            i <= 31,
            out@ == Seq::new(i as nat, |j: int| 0u8),
        decreases 31 - i,
    {
        out.push(0u8);
        i = i + 1;
    }
    out.push(if value {
        1u8
    } else {
        0u8
    });
    assert(out@ =~= abi_bool(value));
    out
}

/// The precompile: with at least 100 gas and a 32-byte input, answers `1`
/// when the encoded address has not dipped into its reserve in `tracker`'s
/// transaction and `0` when it has, using 100 gas.
pub fn reserve_balance_check(tracker: &DippedIntoReserve, input: &[u8], gas_limit: u64) -> (r: Result<
    PrecompileOutput,
    PrecompileError,
>)
    requires
        tracker.wf(),
    ensures
        gas_limit < 100 ==> r == Err::<PrecompileOutput, PrecompileError>(PrecompileError::OutOfGas),
        gas_limit >= 100 && input@.len() != 32 ==> (r matches Err(PrecompileError::Other(m))
            && m@ == bad_length_message(input@.len())),
        gas_limit >= 100 && input@.len() == 32 ==> (r matches Ok(out) && out.gas_used == 100
            && exists|a: Address|
            a.spec_bytes() == input@.subrange(12, 32) && out.bytes@ == abi_bool(
                !tracker.spec_has_dipped(a),
            )),
{
    if gas_limit < MIP4_GAS_COST {
        return Err(PrecompileError::OutOfGas);
    }
    let target_address = match decode_abi_address(input) {
        Ok(a) => a,
        Err(e) => {
            return Err(e);
        },
    };
    let has_dipped = tracker.has_dipped(&target_address);
    let output = encode_abi_bool(!has_dipped);
    Ok(PrecompileOutput { gas_used: MIP4_GAS_COST, bytes: output })
}

} // verus!
