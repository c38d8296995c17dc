//! Transactions, accounts, blocks, execution results, receipts and errors.

use vstd::prelude::*;

use crate::primitives::{Address, B256, U256};
use crate::text::{decimal_chars, push_decimal};

verus! {

/// Raw byte strings (calldata, return data, bytecode).
pub type Bytes = Vec<u8>;

/// Keccak-256 of the empty byte string: the code hash of accounts without code.
pub open spec fn spec_keccak_empty() -> B256 {
    B256 { hi: 0xc5d2460186f7233c927e7db2dcc703c0u128, lo: 0xe500b653ca82273b7bfad8045d85a470u128 }
}

pub fn keccak_empty() -> (h: B256)
    ensures
        h == spec_keccak_empty(),
{
    B256 { hi: 0xc5d2460186f7233c927e7db2dcc703c0u128, lo: 0xe500b653ca82273b7bfad8045d85a470u128 }
}

// ── Accounts ────────────────────────────────────────────────────────────────

/// The abstract contents of an account.
pub struct AccountView {
    pub balance: U256,
    pub nonce: u64,
    pub code_hash: B256,
    pub code: Option<Seq<u8>>,
}

/// Account state: balance, nonce, code hash and (optionally) the code itself.
#[derive(Debug, PartialEq, Eq)]
pub struct AccountInfo {
    pub balance: U256,
    pub nonce: u64,
    pub code_hash: B256,
    pub code: Option<Bytes>,
}

pub open spec fn opt_bytes_view(o: Option<Bytes>) -> Option<Seq<u8>> {
    match o {
        Some(b) => Some(b@),
        None => None,
    }
}

impl View for AccountInfo {
    type V = AccountView;

    open spec fn view(&self) -> AccountView {
        AccountView {
            balance: self.balance,
            nonce: self.nonce,
            code_hash: self.code_hash,
            code: opt_bytes_view(self.code),
        }
    }
}

pub fn clone_opt_bytes(o: &Option<Bytes>) -> (r: Option<Bytes>)
    ensures
        opt_bytes_view(r) == opt_bytes_view(*o),
{
    match o {
        Some(b) => {
            let c = b.clone();
            assert(c@ =~= b@);
            Some(c)
        },
        None => None,
    }
}

impl Clone for AccountInfo {
    fn clone(&self) -> (r: Self)
        ensures
            r@ == self@,
    {
        AccountInfo {
            balance: self.balance,
            nonce: self.nonce,
            code_hash: self.code_hash,
            code: clone_opt_bytes(&self.code),
        }
    }
}

impl AccountInfo {
    /// An externally owned account (no code).
    pub fn new(balance: U256, nonce: u64) -> (a: AccountInfo)
        ensures
            a.balance == balance,
            a.nonce == nonce,
            a.code_hash == spec_keccak_empty(),
            a.code is None,
    {
        AccountInfo { balance, nonce, code_hash: keccak_empty(), code: None }
    }

    /// Whether the account has no code (its code hash is that of empty code).
    pub fn is_empty_code(&self) -> (b: bool)
        ensures
            b == (self.code_hash == spec_keccak_empty()),
    {
        let e = keccak_empty();
        self.code_hash.hi == e.hi && self.code_hash.lo == e.lo
    }

    /// A contract account holding `code` under `code_hash`.
    pub fn new_contract(balance: U256, nonce: u64, code_hash: B256, code: Bytes) -> (a: AccountInfo)
        ensures
            a.balance == balance,
            a.nonce == nonce,
            a.code_hash == code_hash,
            a.code == Some(code),
    {
        AccountInfo { balance, nonce, code_hash, code: Some(code) }
    }
}

// ── Block environment and transactions ─────────────────────────────────────

/// Block-level execution environment.
#[derive(Debug, Clone, PartialEq, Eq)]
pub struct BlockEnv {
    pub number: u64,
    pub coinbase: Address,
    pub timestamp: u64,
    pub gas_limit: u64,
    pub base_fee: U256,
    pub difficulty: U256,
}

impl Default for BlockEnv {
    fn default() -> (e: Self)
        ensures
            e.number == 0,
            e.gas_limit == 30_000_000,
            e.timestamp == 0,
            e.coinbase == (Address { hi: 0, lo: 0 }),
            e.base_fee.value() == 0,
            e.difficulty.value() == 0,
    {
        BlockEnv {
            number: 0,
            coinbase: Address::zero(),
            timestamp: 0,
            gas_limit: 30_000_000,
            base_fee: U256::zero(),
            difficulty: U256::zero(),
        }
    }
}

/// A transaction to execute.
#[derive(Debug, Clone, PartialEq, Eq)]
pub struct Transaction {
    pub sender: Address,
    /// `None` for contract creation.
    pub to: Option<Address>,
    pub value: U256,
    pub data: Bytes,
    pub gas_limit: u64,
    pub nonce: u64,
    pub gas_price: U256,
}

impl Transaction {
    /// Whether this transaction creates a contract.
    pub fn is_create(&self) -> (b: bool)
        ensures
            b == self.to is None,
    {
        self.to.is_none()
    }
}

// ── Logs, results, receipts ─────────────────────────────────────────────────

/// The abstract contents of a log entry.
pub struct LogView {
    pub address: Address,
    pub topics: Seq<B256>,
    pub data: Seq<u8>,
}

/// A log entry emitted by LOG0..LOG4.
#[derive(Debug, PartialEq, Eq)]
pub struct Log {
    pub address: Address,
    pub topics: Vec<B256>,
    pub data: Bytes,
}

impl View for Log {
    type V = LogView;

    open spec fn view(&self) -> LogView {
        LogView { address: self.address, topics: self.topics@, data: self.data@ }
    }
}

impl Clone for Log {
    fn clone(&self) -> (r: Self)
        ensures
            r@ == self@,
    {
        let topics = self.topics.clone();
        let data = self.data.clone();
        assert(topics@ =~= self.topics@);
        assert(data@ =~= self.data@);
        Log { address: self.address, topics, data }
    }
}

/// The views of a list of logs.
pub open spec fn logs_view(logs: Seq<Log>) -> Seq<LogView> {
    logs.map_values(|l: Log| l@)
}

/// Clones a list of logs.
pub fn clone_logs(logs: &Vec<Log>) -> (r: Vec<Log>)
    ensures
        logs_view(r@) == logs_view(logs@),
{
    let mut r: Vec<Log> = Vec::new();
    let n = logs.len();
    let mut i: usize = 0;
    while i < n
        invariant
            i <= n,
            n == logs@.len(),
            r@.len() == i,
            forall|j: int| 0 <= j < i ==> #[trigger] r@[j]@ == logs@[j]@,
        decreases n - i,
    {
        let c = logs[i].clone();
        r.push(c);
        i = i + 1;
    }
    assert(logs_view(r@) =~= logs_view(logs@));
    r
}

/// Result of executing one transaction.
#[derive(Debug, PartialEq, Eq)]
pub enum ExecutionResult {
    Success { gas_used: u64, output: Bytes, logs: Vec<Log> },
    Revert { gas_used: u64, output: Bytes },
    Halt { gas_used: u64, reason: String },
}

impl ExecutionResult {
    pub open spec fn spec_gas_used(&self) -> u64 {
        match self {
            ExecutionResult::Success { gas_used, .. } => *gas_used,
            ExecutionResult::Revert { gas_used, .. } => *gas_used,
            ExecutionResult::Halt { gas_used, .. } => *gas_used,
        }
    }

    /// The logs of a successful execution; none otherwise.
    pub open spec fn spec_logs(&self) -> Seq<LogView> {
        match self {
            ExecutionResult::Success { logs, .. } => logs_view(logs@),
            _ => Seq::empty(),
        }
    }

    /// Gas consumed by this execution.
    pub fn gas_used(&self) -> (g: u64)
        ensures
            g == self.spec_gas_used(),
    {
        match self {
            ExecutionResult::Success { gas_used, .. } => *gas_used,
            ExecutionResult::Revert { gas_used, .. } => *gas_used,
            ExecutionResult::Halt { gas_used, .. } => *gas_used,
        }
    }

    /// Whether the execution succeeded.
    pub fn is_success(&self) -> (b: bool)
        ensures
            b == (self is Success),
    {
        match self {
            ExecutionResult::Success { .. } => true,
            _ => false,
        }
    }

    /// A copy of the logs of a successful execution; empty otherwise.
    pub fn logs_copy(&self) -> (r: Vec<Log>)
        ensures
            logs_view(r@) == self.spec_logs(),
    {
        match self {
            ExecutionResult::Success { logs, .. } => clone_logs(logs),
            _ => {
                let r: Vec<Log> = Vec::new();
                assert(logs_view(r@) =~= Seq::<LogView>::empty());
                r
            },
        }
    }
}

/// Outcome summary of one transaction in a block.
#[derive(Debug, Clone, PartialEq, Eq)]
pub struct Receipt {
    pub success: bool,
    /// Gas used in the block up to and including this transaction.
    pub cumulative_gas_used: u64,
    pub logs: Vec<Log>,
    pub contract_address: Option<Address>,
}

/// Result of executing a whole block.
#[derive(Debug, Clone, PartialEq, Eq)]
pub struct BlockResult {
    pub state_root: B256,
    pub receipts: Vec<Receipt>,
    pub gas_used: u64,
    pub logs: Vec<Log>,
}

// ── Errors ──────────────────────────────────────────────────────────────────

/// Errors of EVM execution and state access.
#[derive(Debug, Clone, PartialEq, Eq)]
pub enum EvmError {
    TransactionValidation(String),
    StateAccess(String),
    Internal(String),
    Precompile { address: String, reason: String },
    InvalidBlockEnv(String),
    ReserveBalance(String),
    /// A read hit a value that transaction `tx_index` is re-executing.
    ReadEstimate { tx_index: u32, location: String },
}

impl EvmError {
    /// The human-readable message of the error.
    pub open spec fn message(&self) -> Seq<char> {
        match self {
            EvmError::TransactionValidation(s) => "transaction validation failed: "@ + s@,
            EvmError::StateAccess(s) => "state access error: "@ + s@,
            EvmError::Internal(s) => "evm internal error: "@ + s@,
            EvmError::Precompile { address, reason } => "precompile error at "@ + address@ + ": "@
                + reason@,
            EvmError::InvalidBlockEnv(s) => "invalid block environment: "@ + s@,
            EvmError::ReserveBalance(s) => "reserve balance error: "@ + s@,
            EvmError::ReadEstimate { tx_index, location } => "read hit ESTIMATE of tx "@
                + decimal_chars(*tx_index as nat) + " at "@ + location@,
        }
    }

    /// Renders the error message.
    pub fn to_string(&self) -> (s: String)
        ensures
            s@ == self.message(),
    {
        let mut s = String::new();
        match self {
            EvmError::TransactionValidation(m) => {
                s.append("transaction validation failed: ");
                s.append(m.as_str());
            },
            EvmError::StateAccess(m) => {
                s.append("state access error: ");
                s.append(m.as_str());
            },
            EvmError::Internal(m) => {
                s.append("evm internal error: ");
                s.append(m.as_str());
            },
            EvmError::Precompile { address, reason } => {
                s.append("precompile error at ");
                s.append(address.as_str());
                s.append(": ");
                s.append(reason.as_str());
            },
            EvmError::InvalidBlockEnv(m) => {
                s.append("invalid block environment: ");
                s.append(m.as_str());
            },
            EvmError::ReserveBalance(m) => {
                s.append("reserve balance error: ");
                s.append(m.as_str());
            },
            EvmError::ReadEstimate { tx_index, location } => {
                s.append("read hit ESTIMATE of tx ");
                push_decimal(&mut s, *tx_index as u64);
                s.append(" at ");
                s.append(location.as_str());
            },
        }
        assert(s@ =~= self.message());
        s
    }
}

} // verus!
