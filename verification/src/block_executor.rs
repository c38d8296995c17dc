//! Sequential block execution: the reference that parallel execution is
//! compared against.
//!
//! Transactions run one after another against the evolving state. After
//! each one its account changes are applied (the coinbase's own changes are
//! skipped: fees are accumulated instead), its fee `gas_used * gas_price` is
//! added up, and a receipt with the cumulative gas is produced. At the end the
//! accumulated fees are credited to the coinbase and the state root is taken.
//! The EVM run of each transaction happens outside; `SequentialBlock` makes
//! every decision around it.

use vstd::prelude::*;

use crate::merge::{compute_state_root, credit_coinbase, gas_sum, receipt_of, spec_state_root};
use crate::primitives::{pow2_256, u256_of, Address, B256, U256};
use crate::read_write_sets::WriteSet;
use crate::state::{InMemoryState, StateView, StorageKey};
use crate::types::{
    logs_view, AccountInfo, BlockEnv, BlockResult, ExecutionResult, Log, LogView, Receipt,
};

verus! {

/// An account touched by a transaction: its new state and the storage slots
/// it changed (each slot at most once).
pub struct AccountChange {
    pub address: Address,
    pub info: AccountInfo,
    pub storage: Vec<(U256, U256)>,
}

/// The storage after writing `slots` of `address` in order.
pub open spec fn apply_slots(
    storage: Map<StorageKey, U256>,
    address: Address,
    slots: Seq<(U256, U256)>,
) -> Map<StorageKey, U256>
    decreases slots.len(),
{
    if slots.len() == 0 {
        storage
    } else {
        apply_slots(storage, address, slots.drop_last()).insert(
            StorageKey { address, slot: slots.last().0 },
            slots.last().1,
        )
    }
}

/// The state after one account change; changes of the coinbase are skipped.
pub open spec fn apply_change(v: StateView, c: AccountChange, coinbase: Address) -> StateView {
    if c.address == coinbase {
        v
    } else {
        StateView {
            accounts: v.accounts.insert(c.address, c.info@),
            storage: apply_slots(v.storage, c.address, c.storage@),
            ..v
        }
    }
}

/// The state after a transaction's account changes, in order.
pub open spec fn apply_changes(v: StateView, cs: Seq<AccountChange>, coinbase: Address) -> StateView
    decreases cs.len(),
{
    if cs.len() == 0 {
        v
    } else {
        apply_change(apply_changes(v, cs.drop_last(), coinbase), cs.last(), coinbase)
    }
}

/// The fee of a transaction: `gas_used * gas_price`, modulo 2^256.
pub open spec fn tx_fee(gas_used: u64, gas_price: U256) -> U256 {
    u256_of((gas_price.value() * gas_used) % pow2_256())
}

/// Applies the account changes of one transaction to `state`.
pub fn apply_account_changes(state: &mut InMemoryState, changes: &Vec<AccountChange>, coinbase: Address)
    ensures
        final(state)@ == apply_changes(old(state)@, changes@, coinbase),
{
    let n = changes.len();
    let mut i: usize = 0;
    while i < n
        invariant
            i <= n,
            n == changes@.len(),
            state@ == apply_changes(old(state)@, changes@.take(i as int), coinbase),
        decreases n - i,
    {
        let c = &changes[i];
        proof {
            assert(changes@.take(i + 1).drop_last() =~= changes@.take(i as int));
            assert(changes@.take(i + 1).last() == changes@[i as int]);
        }
        if c.address != coinbase {
            let ghost before = state@;
            state.insert_account(c.address, c.info.clone());
            let m = c.storage.len();
            let mut j: usize = 0;
            while j < m
                invariant
                    j <= m,
                    m == c.storage@.len(),
                    state@.accounts == before.accounts.insert(c.address, c.info@),
                    state@.code == before.code,
                    state@.block_hashes == before.block_hashes,
                    state@.storage == apply_slots(
                        before.storage,
                        c.address,
                        c.storage@.take(j as int),
                    ),
                decreases m - j,
            {
                let (slot, value) = c.storage[j];
                proof {
                    assert(c.storage@.take(j + 1).drop_last() =~= c.storage@.take(j as int));
                    assert(c.storage@.take(j + 1).last() == c.storage@[j as int]);
                }
                state.insert_storage(c.address, slot, value);
                j = j + 1;
            }
            assert(c.storage@.take(m as int) =~= c.storage@);
        }
        i = i + 1;
    }
    assert(changes@.take(n as int) =~= changes@);
}

/// Gas used by `rs`, summed.
pub open spec fn result_gas_sum(rs: Seq<ExecutionResult>) -> int
    decreases rs.len(),
{
    if rs.len() == 0 {
        0
    } else {
        result_gas_sum(rs.drop_last()) + rs.last().spec_gas_used()
    }
}

/// Receipt `r` is the receipt of the `i`-th of the results `rs` applied in
/// order: its success, the gas used up to and including it, its logs.
pub open spec fn receipt_for(r: Receipt, rs: Seq<ExecutionResult>, i: int) -> bool {
    &&& r.success == (rs[i] is Success)
    &&& r.cumulative_gas_used == result_gas_sum(rs.take(i + 1))
    &&& logs_view(r.logs@) == rs[i].spec_logs()
    &&& r.contract_address is None
}

/// A block's receipts and gas do not depend on the path: the receipt the
/// sequential block gives the `i`-th of the results applied in order is the
/// receipt a merge of the same results gives it, and both total the same
/// gas.
pub proof fn lemma_receipts_agree(results: Seq<ExecutionResult>, txs: Seq<(ExecutionResult, WriteSet)>)
    requires
        results.len() == txs.len(),
        forall|j: int| 0 <= j < txs.len() ==> #[trigger] txs[j].0 == results[j],
    ensures
        result_gas_sum(results) == gas_sum(txs),
        forall|r: Receipt, i: int| 0 <= i < txs.len() ==> (receipt_for(r, results, i) <==> receipt_of(r, txs, i)),
    decreases txs.len(),
{
    if txs.len() > 0 {
        lemma_receipts_agree(results.drop_last(), txs.drop_last());
    }
    assert forall|r: Receipt, i: int| 0 <= i < txs.len() implies (receipt_for(r, results, i) <==> receipt_of(
        r,
        txs,
        i,
    )) by {
        let k = i + 1;
        lemma_prefix_gas(results.take(k), txs.take(k));
    }
}

proof fn lemma_prefix_gas(results: Seq<ExecutionResult>, txs: Seq<(ExecutionResult, WriteSet)>)
    requires
        results.len() == txs.len(),
        forall|j: int| 0 <= j < txs.len() ==> #[trigger] txs[j].0 == results[j],
    ensures
        result_gas_sum(results) == gas_sum(txs),
    decreases txs.len(),
{
    if txs.len() > 0 {
        lemma_prefix_gas(results.drop_last(), txs.drop_last());
    }
}

/// A block being executed sequentially.
pub struct SequentialBlock {
    state: InMemoryState,
    coinbase: Address,
    total_gas_fee: U256,
    cumulative_gas: u64,
    receipts: Vec<Receipt>,
    logs: Vec<Log>,
    applied: Ghost<Seq<ExecutionResult>>,
}

impl SequentialBlock {
    /// The receipts and the gas follow the results applied so far.
    pub closed spec fn wf(&self) -> bool {
        &&& self.receipts@.len() == self.applied@.len()
        &&& self.cumulative_gas == result_gas_sum(self.applied@)
        &&& forall|i: int| 0 <= i < self.receipts@.len() ==> receipt_for(#[trigger] self.receipts@[i], self.applied@, i)
    }

    /// The results applied so far, in order.
    pub closed spec fn applied(&self) -> Seq<ExecutionResult> {
        self.applied@
    }

    /// The evolving state.
    pub closed spec fn state_view(&self) -> StateView {
        self.state@
    }

    pub closed spec fn spec_coinbase(&self) -> Address {
        self.coinbase
    }

    /// Fees accumulated so far.
    pub closed spec fn fees(&self) -> U256 {
        self.total_gas_fee
    }

    /// Gas used so far.
    pub closed spec fn gas(&self) -> u64 {
        self.cumulative_gas
    }

    /// Receipts of the transactions applied so far.
    pub closed spec fn spec_receipts(&self) -> Seq<Receipt> {
        self.receipts@
    }

    /// Logs of the transactions applied so far.
    pub closed spec fn spec_logs(&self) -> Seq<LogView> {
        logs_view(self.logs@)
    }

    /// A block starting from `base_state`, with nothing applied yet.
    pub fn new(base_state: &InMemoryState, block_env: &BlockEnv) -> (b: SequentialBlock)
        ensures
            b.state_view() == base_state@,
            b.spec_coinbase() == block_env.coinbase,
            b.fees().value() == 0,
            b.gas() == 0,
            b.spec_receipts().len() == 0,
            b.spec_logs().len() == 0,
            b.wf(),
            b.applied() == Seq::<ExecutionResult>::empty(),
    {
        SequentialBlock {
            state: base_state.clone(),
            coinbase: block_env.coinbase,
            total_gas_fee: U256::zero(),
            cumulative_gas: 0,
            receipts: Vec::new(),
            logs: Vec::new(),
            applied: Ghost(Seq::empty()),
        }
    }

    /// The state the next transaction runs against.
    pub fn state(&self) -> (s: &InMemoryState)
        ensures
            s@ == self.state_view(),
    {
        &self.state
    }

    /// Records one executed transaction: applies its account changes (all but
    /// the coinbase's), adds its fee, and appends its receipt and logs.
    pub fn apply_transaction(
        &mut self,
        gas_price: U256,
        result: &ExecutionResult,
        changes: &Vec<AccountChange>,
    )
        requires
            old(self).wf(),
            old(self).gas() + result.spec_gas_used() <= u64::MAX,
        ensures
            final(self).wf(),
            final(self).applied() == old(self).applied().push(*result),
            final(self).state_view() == apply_changes(
                old(self).state_view(),
                changes@,
                old(self).spec_coinbase(),
            ),
            final(self).spec_coinbase() == old(self).spec_coinbase(),
            final(self).fees() == u256_of(
                (old(self).fees().value() + tx_fee(result.spec_gas_used(), gas_price).value())
                    % pow2_256(),
            ),
            final(self).gas() == old(self).gas() + result.spec_gas_used(),
            final(self).spec_receipts().len() == old(self).spec_receipts().len() + 1,
            forall|i: int|
                0 <= i < old(self).spec_receipts().len() ==> #[trigger] final(self).spec_receipts()[i]
                    == old(self).spec_receipts()[i],
            ({
                let r = final(self).spec_receipts().last();
                &&& r.success == (*result is Success)
                &&& r.cumulative_gas_used == final(self).gas()
                &&& logs_view(r.logs@) == result.spec_logs()
                &&& r.contract_address is None
            }),
            final(self).spec_logs() == old(self).spec_logs() + result.spec_logs(),
    {
        apply_account_changes(&mut self.state, changes, self.coinbase);
        let gas = result.gas_used();
        let fee = gas_price.wrapping_mul_u64(gas);
        self.total_gas_fee = self.total_gas_fee.wrapping_add(&fee);
        self.cumulative_gas = self.cumulative_gas + gas;
        let receipt = Receipt {
            success: result.is_success(),
            cumulative_gas_used: self.cumulative_gas,
            logs: result.logs_copy(),
            contract_address: None,
        };
        self.receipts.push(receipt);
        let ghost prev = self.applied@;
        self.applied = Ghost(prev.push(*result));
        proof {
            let a = self.applied@;
            assert(a.take(a.len() as int) =~= a);
            assert(a.drop_last() =~= prev);
            assert forall|i: int| 0 <= i < self.receipts@.len() implies receipt_for(
                #[trigger] self.receipts@[i],
                a,
                i,
            ) by {
                if i < prev.len() {
                    assert(a.take(i + 1) =~= prev.take(i + 1));
                    assert(self.receipts@[i] == old(self).receipts@[i]);
                }
            }
        }
        let mut tx_logs = result.logs_copy();
        let ghost prev_logs = self.logs@;
        let ghost added = tx_logs@;
        self.logs.append(&mut tx_logs);
        proof {
            assert(self.logs@ == prev_logs + added);
            assert(logs_view(prev_logs + added) =~= logs_view(prev_logs) + logs_view(added));
        }
    }

    /// Finishes the block: with no transaction, a zero state root and nothing
    /// else; otherwise the accumulated fees are credited to the coinbase and
    /// the state root of the resulting state is computed.
    pub fn finish(self) -> (r: BlockResult)
        requires
            self.wf(),
        ensures
            r.receipts@.len() == self.applied().len(),
            forall|i: int| 0 <= i < r.receipts@.len() ==> receipt_for(#[trigger] r.receipts@[i], self.applied(), i),
            r.gas_used == result_gas_sum(self.applied()),
            self.spec_receipts().len() == 0 ==> r.state_root == (B256 { hi: 0, lo: 0 })
                && r.receipts@.len() == 0 && r.gas_used == 0 && r.logs@.len() == 0,
            self.spec_receipts().len() > 0 ==> {
                &&& spec_state_root(
                    credit_coinbase(self.state_view(), self.spec_coinbase(), self.fees()),
                    r.state_root,
                )
                &&& r.receipts@ == self.spec_receipts()
                &&& r.gas_used == self.gas()
                &&& logs_view(r.logs@) == self.spec_logs()
            },
    {
        if self.receipts.len() == 0 {
            return BlockResult {
                state_root: B256::zero(),
                receipts: Vec::new(),
                gas_used: 0,
                logs: Vec::new(),
            };
        }
        let mut state = self.state;
        let coinbase_acct = match state.get_account(&self.coinbase) {
            Some(a) => a.clone(),
            None => AccountInfo::new(U256::zero(), 0),
        };
        let balance = coinbase_acct.balance.wrapping_add(&self.total_gas_fee);
        state.insert_account(self.coinbase, AccountInfo::new(balance, coinbase_acct.nonce));
        let state_root = compute_state_root(&state);
        BlockResult {
            state_root,
            receipts: self.receipts,
            gas_used: self.cumulative_gas,
            logs: self.logs,
        }
    }
}

} // verus!
