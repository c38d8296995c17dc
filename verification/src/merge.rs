//! Merging the results of parallel execution into the post-block state, and
//! the deterministic state root.
//!
//! Write sets are applied in block order; each transaction gets a receipt
//! with the block's cumulative gas; the collected fees are credited to the
//! coinbase at the end. The state root is Keccak-256 over a canonical
//! encoding of all accounts and storage in increasing key order.

use vstd::prelude::*;

use crate::mv_types::{LocationKey, WriteValue};
use crate::primitives::{
    be_bytes, keccak256, pow2_256, push_be_bytes, spec_keccak256, u256_of, Address, OrderedKey, B256,
    U256,
};
use crate::read_write_sets::WriteSet;
use crate::sorted_map::{entries_map, lemma_entries_map, lemma_sorted_entries, sorted_entries, strictly_sorted};
use crate::state::{InMemoryState, StateView, StorageKey};
use crate::types::{
    logs_view, spec_keccak_empty, AccountInfo, AccountView, BlockEnv, BlockResult, EvmError,
    ExecutionResult, Log, LogView, Receipt,
};

verus! {

// ── Applying writes ─────────────────────────────────────────────────────────

/// The account a write creates when the address has none yet.
pub open spec fn default_account() -> AccountView {
    AccountView {
        balance: U256 { hi: 0, lo: 0 },
        nonce: 0,
        code_hash: spec_keccak_empty(),
        code: None,
    }
}

pub open spec fn account_or_default(v: StateView, a: Address) -> AccountView {
    if v.accounts.contains_key(a) {
        v.accounts[a]
    } else {
        default_account()
    }
}

/// A location and a value of the same kind.
pub open spec fn write_matches(loc: LocationKey, val: WriteValue) -> bool {
    match (loc, val) {
        (LocationKey::Balance(_), WriteValue::Balance(_)) => true,
        (LocationKey::Nonce(_), WriteValue::Nonce(_)) => true,
        (LocationKey::CodeHash(_), WriteValue::CodeHash(_)) => true,
        (LocationKey::Storage(_, _), WriteValue::Storage(_)) => true,
        _ => false,
    }
}

/// Every write of the set stores a value of its location's kind.
pub open spec fn writes_match(ws: Map<LocationKey, WriteValue>) -> bool {
    forall|l: LocationKey| #[trigger] ws.contains_key(l) ==> write_matches(l, ws[l])
}

/// The state after one write.
pub open spec fn apply_write(v: StateView, loc: LocationKey, val: WriteValue) -> StateView {
    match (loc, val) {
        (LocationKey::Balance(a), WriteValue::Balance(b)) => StateView {
            accounts: v.accounts.insert(a, AccountView { balance: b, ..account_or_default(v, a) }),
            ..v
        },
        (LocationKey::Nonce(a), WriteValue::Nonce(n)) => StateView {
            accounts: v.accounts.insert(a, AccountView { nonce: n, ..account_or_default(v, a) }),
            ..v
        },
        (LocationKey::CodeHash(a), WriteValue::CodeHash(h)) => StateView {
            accounts: v.accounts.insert(
                a,
                AccountView { code_hash: h, ..account_or_default(v, a) },
            ),
            ..v
        },
        (LocationKey::Storage(a, s), WriteValue::Storage(x)) => StateView {
            storage: v.storage.insert(StorageKey { address: a, slot: s }, x),
            ..v
        },
        _ => v,
    }
}

/// The state after a sequence of writes, applied in order.
pub open spec fn apply_entries(v: StateView, es: Seq<(LocationKey, WriteValue)>) -> StateView
    decreases es.len(),
{
    if es.len() == 0 {
        v
    } else {
        apply_write(apply_entries(v, es.drop_last()), es.last().0, es.last().1)
    }
}

/// Applies a write set to `state` in increasing location order.
pub fn apply_write_set(state: &mut InMemoryState, ws: &WriteSet)
    requires
        ws.wf(),
        writes_match(ws@),
    ensures
        final(state)@ == apply_entries(old(state)@, ws.entries()),
{
    let es = ws.iter();
    proof {
        ws.lemma_entries();
        lemma_entries_map(ws.entries());
    }
    let n = es.len();
    let mut i: usize = 0;
    while i < n
        invariant
            i <= n,
            n == es@.len(),
            es@ == ws.entries(),
            writes_match(ws@),
            ws@ == entries_map(ws.entries()),
            forall|j: int|
                0 <= j < ws.entries().len() ==> #[trigger] ws@.contains_key(ws.entries()[j].0)
                    && ws@[ws.entries()[j].0] == ws.entries()[j].1,
            state@ == apply_entries(old(state)@, es@.take(i as int)),
        decreases n - i,
    {
        let (loc, val) = es[i];
        proof {
            assert(ws@.contains_key(ws.entries()[i as int].0));
            assert(write_matches(loc, val));
            assert(es@.take(i + 1).drop_last() =~= es@.take(i as int));
        }
        let ghost before = state@;
        match (loc, val) {
            (LocationKey::Balance(addr), WriteValue::Balance(bal)) => {
                let mut acct = match state.get_account(&addr) {
                    Some(a) => a.clone(),
                    None => AccountInfo::new(U256::zero(), 0),
                };
                acct.balance = bal;
                state.insert_account(addr, acct);
            },
            (LocationKey::Nonce(addr), WriteValue::Nonce(nonce)) => {
                let mut acct = match state.get_account(&addr) {
                    Some(a) => a.clone(),
                    None => AccountInfo::new(U256::zero(), 0),
                };
                acct.nonce = nonce;
                state.insert_account(addr, acct);
            },
            (LocationKey::CodeHash(addr), WriteValue::CodeHash(hash)) => {
                let mut acct = match state.get_account(&addr) {
                    Some(a) => a.clone(),
                    None => AccountInfo::new(U256::zero(), 0),
                };
                acct.code_hash = hash;
                state.insert_account(addr, acct);
            },
            (LocationKey::Storage(addr, slot), WriteValue::Storage(value)) => {
                state.insert_storage(addr, slot, value);
            },
            _ => {},
        }
        assert(state@ == apply_write(before, loc, val));
        i = i + 1;
    }
    assert(es@.take(n as int) =~= es@);
}

// ── Merging a block ─────────────────────────────────────────────────────────

/// The state after the write sets of `txs`, applied in block order.
pub open spec fn merged_writes(v: StateView, txs: Seq<(ExecutionResult, WriteSet)>) -> StateView
    decreases txs.len(),
{
    if txs.len() == 0 {
        v
    } else {
        apply_entries(merged_writes(v, txs.drop_last()), txs.last().1.entries())
    }
}

/// Total gas of `txs`.
pub open spec fn gas_sum(txs: Seq<(ExecutionResult, WriteSet)>) -> int
    decreases txs.len(),
{
    if txs.len() == 0 {
        0
    } else {
        gas_sum(txs.drop_last()) + txs.last().0.spec_gas_used()
    }
}

/// All logs of `txs`, in block order.
pub open spec fn block_logs(txs: Seq<(ExecutionResult, WriteSet)>) -> Seq<LogView>
    decreases txs.len(),
{
    if txs.len() == 0 {
        Seq::empty()
    } else {
        block_logs(txs.drop_last()) + txs.last().0.spec_logs()
    }
}

/// The state after crediting `amount` to `coinbase` (its balance wraps at
/// 2^256); the coinbase keeps its nonce and ends up with no code.
pub open spec fn credit_coinbase(v: StateView, coinbase: Address, amount: U256) -> StateView {
    let c = account_or_default(v, coinbase);
    StateView {
        accounts: v.accounts.insert(
            coinbase,
            AccountView {
                balance: u256_of((c.balance.value() + amount.value()) % pow2_256()),
                nonce: c.nonce,
                code_hash: spec_keccak_empty(),
                code: None,
            },
        ),
        ..v
    }
}

/// The post-block state of a merge: all write sets, then the fees (when nonzero).
pub open spec fn merged_state(
    v: StateView,
    txs: Seq<(ExecutionResult, WriteSet)>,
    fees: U256,
    coinbase: Address,
) -> StateView {
    if fees.value() > 0 {
        credit_coinbase(merged_writes(v, txs), coinbase, fees)
    } else {
        merged_writes(v, txs)
    }
}

/// The inputs a merge accepts: well-formed, well-typed write sets and a total
/// gas that fits in 64 bits.
pub open spec fn mergeable(txs: Seq<(ExecutionResult, WriteSet)>) -> bool {
    &&& forall|i: int| 0 <= i < txs.len() ==> (#[trigger] txs[i]).1.wf() && writes_match(txs[i].1@)
    &&& gas_sum(txs) <= u64::MAX
}

/// Receipt `r` is the receipt of transaction `i` of `txs`.
pub open spec fn receipt_of(r: Receipt, txs: Seq<(ExecutionResult, WriteSet)>, i: int) -> bool {
    &&& r.success == (txs[i].0 is Success)
    &&& r.cumulative_gas_used == gas_sum(txs.take(i + 1))
    &&& logs_view(r.logs@) == txs[i].0.spec_logs()
    &&& r.contract_address is None
}

proof fn lemma_gas_sum_prefix(txs: Seq<(ExecutionResult, WriteSet)>, i: int, j: int)
    requires
        0 <= i <= j <= txs.len(),
    ensures
        gas_sum(txs.take(i)) <= gas_sum(txs.take(j)),
    decreases j - i,
{
    if i < j {
        lemma_gas_sum_prefix(txs, i, j - 1);
        assert(txs.take(j).drop_last() =~= txs.take(j - 1));
    }
}

/// The intermediate result of a merge: post-block state, receipts, total gas
/// and all logs.
pub struct MergeResult {
    pub state: InMemoryState,
    pub receipts: Vec<Receipt>,
    pub gas_used: u64,
    pub logs: Vec<Log>,
}

/// Applies the write sets of `tx_results` in block order to a copy of
/// `base_state`, builds one receipt per transaction and credits
/// `beneficiary_total_fees` to the coinbase.
pub fn merge_parallel_results(
    base_state: &InMemoryState,
    tx_results: &[(ExecutionResult, WriteSet)],
    beneficiary_total_fees: U256,
    block_env: &BlockEnv,
) -> (m: MergeResult)
    requires
        mergeable(tx_results@),
    ensures
        m.state@ == merged_state(
            base_state@,
            tx_results@,
            beneficiary_total_fees,
            block_env.coinbase,
        ),
        m.receipts@.len() == tx_results@.len(),
        forall|i: int| 0 <= i < tx_results@.len() ==> receipt_of(#[trigger] m.receipts@[i], tx_results@, i),
        m.gas_used == gas_sum(tx_results@),
        logs_view(m.logs@) == block_logs(tx_results@),
{
    let ghost txs = tx_results@;
    let mut final_state = base_state.clone();
    let mut receipts: Vec<Receipt> = Vec::new();
    let mut cumulative_gas: u64 = 0;
    let mut all_logs: Vec<Log> = Vec::new();
    let n = tx_results.len();
    let mut i: usize = 0;
    assert(txs.take(0) =~= Seq::<(ExecutionResult, WriteSet)>::empty());
    assert(logs_view(all_logs@) =~= Seq::<LogView>::empty());
    while i < n
        invariant
            i <= n,
            n == txs.len(),
            txs == tx_results@,
            mergeable(txs),
            final_state@ == merged_writes(base_state@, txs.take(i as int)),
            cumulative_gas == gas_sum(txs.take(i as int)),
            receipts@.len() == i,
            forall|j: int| 0 <= j < i ==> receipt_of(#[trigger] receipts@[j], txs, j),
            logs_view(all_logs@) == block_logs(txs.take(i as int)),
        decreases n - i,
    {
        let pair = &tx_results[i];
        proof {
            assert(txs[i as int].1.wf() && writes_match(txs[i as int].1@));
            assert(txs.take(i + 1).drop_last() =~= txs.take(i as int));
            assert(txs.take(i + 1).last() == txs[i as int]);
            lemma_gas_sum_prefix(txs, i + 1, txs.len() as int);
            assert(txs.take(txs.len() as int) =~= txs);
        }
        apply_write_set(&mut final_state, &pair.1);
        let tx_gas = pair.0.gas_used();
        cumulative_gas = cumulative_gas + tx_gas;
        let receipt_logs = pair.0.logs_copy();
        let mut tx_logs = pair.0.logs_copy();
        let receipt = Receipt {
            success: pair.0.is_success(),
            cumulative_gas_used: cumulative_gas,
            logs: receipt_logs,
            contract_address: None,
        };
        receipts.push(receipt);
        let ghost prev_logs = all_logs@;
        let ghost added = tx_logs@;
        all_logs.append(&mut tx_logs);
        proof {
            assert(all_logs@ == prev_logs + added);
            assert(logs_view(prev_logs + added) =~= logs_view(prev_logs) + logs_view(added));
        }
        i = i + 1;
    }
    assert(txs.take(n as int) =~= txs);
    if !beneficiary_total_fees.is_zero() {
        let coinbase_acct = match final_state.get_account(&block_env.coinbase) {
            Some(a) => a.clone(),
            None => AccountInfo::new(U256::zero(), 0),
        };
        let balance = coinbase_acct.balance.wrapping_add(&beneficiary_total_fees);
        final_state.insert_account(block_env.coinbase, AccountInfo::new(balance, coinbase_acct.nonce));
    }
    MergeResult { state: final_state, receipts, gas_used: cumulative_gas, logs: all_logs }
}

/// Receipts carry running totals: the cumulative gas never decreases along
/// the block, and the last receipt's total is the block's gas.
pub proof fn lemma_cumulative_gas(txs: Seq<(ExecutionResult, WriteSet)>, i: int, j: int)
    requires
        0 <= i <= j < txs.len(),
    ensures
        gas_sum(txs.take(i + 1)) <= gas_sum(txs.take(j + 1)),
        gas_sum(txs.take(txs.len() as int)) == gas_sum(txs),
{
    lemma_gas_sum_prefix(txs, i + 1, j + 1);
    assert(txs.take(txs.len() as int) =~= txs);
}

proof fn lemma_u256_of_in_range(n: int)
    requires
        0 <= n < pow2_256(),
    ensures
        u256_of(n).value() == n,
{
    let p = crate::primitives::pow2_128();
    vstd::arithmetic::div_mod::lemma_fundamental_div_mod(n, p);
    vstd::arithmetic::div_mod::lemma_div_pos_is_pos(n, p);
    vstd::arithmetic::div_mod::lemma_div_by_multiple_is_strongly_ordered(n, p * p, p, p);
    vstd::arithmetic::div_mod::lemma_div_by_multiple(p, p);
    vstd::arithmetic::div_mod::lemma_mod_bound(n, p);
}

/// Crediting the fees adds them to the coinbase's balance (modulo 2^256; an
/// absent coinbase starts from 0) and keeps its nonce; every other account
/// and all storage stay as they were.
pub proof fn lemma_credit_adds_fees(v: StateView, coinbase: Address, amount: U256)
    ensures
        ({
            let after = credit_coinbase(v, coinbase, amount);
            let before_balance = if v.accounts.contains_key(coinbase) {
                v.accounts[coinbase].balance.value()
            } else {
                0
            };
            &&& after.accounts.contains_key(coinbase)
            &&& after.accounts[coinbase].balance.value() == (before_balance + amount.value()) % pow2_256()
            &&& v.accounts.contains_key(coinbase) ==> after.accounts[coinbase].nonce
                == v.accounts[coinbase].nonce
            &&& forall|a: Address| a != coinbase ==> (#[trigger] after.accounts.contains_key(a)
                == v.accounts.contains_key(a) && (v.accounts.contains_key(a) ==> after.accounts[a]
                == v.accounts[a]))
            &&& after.storage == v.storage
        }),
{
    let before_balance = if v.accounts.contains_key(coinbase) {
        v.accounts[coinbase].balance.value()
    } else {
        0
    };
    let x = (account_or_default(v, coinbase).balance.value() + amount.value()) % pow2_256();
    vstd::arithmetic::div_mod::lemma_mod_bound(
        account_or_default(v, coinbase).balance.value() + amount.value(),
        pow2_256(),
    );
    lemma_u256_of_in_range(x);
}

/// The coinbase after a merge with fees holds its balance after the write
/// sets plus the fees (modulo 2^256); without fees the merge is the write
/// sets alone.
pub proof fn lemma_merge_credits_fees(
    v: StateView,
    txs: Seq<(ExecutionResult, WriteSet)>,
    fees: U256,
    coinbase: Address,
)
    ensures
        ({
            let w = merged_writes(v, txs);
            let m = merged_state(v, txs, fees, coinbase);
            let before_balance = if w.accounts.contains_key(coinbase) {
                w.accounts[coinbase].balance.value()
            } else {
                0
            };
            &&& fees.value() > 0 ==> m.accounts.contains_key(coinbase) && m.accounts[coinbase].balance.value()
                == (before_balance + fees.value()) % pow2_256()
            &&& fees.value() == 0 ==> m == w
        }),
{
    lemma_credit_adds_fees(merged_writes(v, txs), coinbase, fees);
}

/// Merging an empty block without fees leaves the state as it was.
pub proof fn lemma_empty_merge(v: StateView, fees: U256, coinbase: Address)
    requires
        fees.value() == 0,
    ensures
        merged_state(v, Seq::empty(), fees, coinbase) == v,
{
}

// ── State root ──────────────────────────────────────────────────────────────

/// Canonical encoding of an account: address (20 bytes), balance (32),
/// nonce (8, big-endian), code hash (32).
pub open spec fn account_record(e: (Address, AccountView)) -> Seq<u8> {
    e.0.spec_bytes() + e.1.balance.spec_bytes() + be_bytes(e.1.nonce as u128, 8)
        + e.1.code_hash.spec_bytes()
}

/// Canonical encoding of a storage value: address (20 bytes), slot (32), value (32).
pub open spec fn storage_record(e: (StorageKey, U256)) -> Seq<u8> {
    e.0.address.spec_bytes() + e.0.slot.spec_bytes() + e.1.spec_bytes()
}

pub open spec fn account_records(s: Seq<(Address, AccountView)>) -> Seq<u8>
    decreases s.len(),
{
    if s.len() == 0 {
        Seq::empty()
    } else {
        account_records(s.drop_last()) + account_record(s.last())
    }
}

pub open spec fn storage_records(s: Seq<(StorageKey, U256)>) -> Seq<u8>
    decreases s.len(),
{
    if s.len() == 0 {
        Seq::empty()
    } else {
        storage_records(s.drop_last()) + storage_record(s.last())
    }
}

/// The bytes hashed into the state root: all accounts in address order, then
/// all storage values in (address, slot) order.
pub open spec fn state_preimage(v: StateView) -> Seq<u8> {
    account_records(sorted_entries(v.accounts)) + storage_records(sorted_entries(v.storage))
}

/// A state with no accounts and no storage.
pub open spec fn is_blank(v: StateView) -> bool {
    v.accounts == Map::<Address, AccountView>::empty() && v.storage == Map::<StorageKey, U256>::empty()
}

/// The state root of `v`: zero for a blank state, else the Keccak-256 digest
/// of `state_preimage(v)`.
pub open spec fn spec_state_root(v: StateView, root: B256) -> bool {
    if is_blank(v) {
        root == B256 { hi: 0, lo: 0 }
    } else {
        root.spec_bytes() == spec_keccak256(state_preimage(v))
    }
}

/// Computes the deterministic state root of `state`.
pub fn compute_state_root(state: &InMemoryState) -> (root: B256)
    ensures
        spec_state_root(state@, root),
{
    let accounts = state.accounts();
    let storage = state.all_storage();
    let ghost ae = state.account_entries();
    let ghost am = ae.map_values(|e: (Address, AccountInfo)| (e.0, e.1@));
    proof {
        use_type_invariant(state);
        state.lemma_entries();
        lemma_entries_map(ae);
        assert(strictly_sorted(am)) by {
            assert forall|i: int, j: int| 0 <= i < j < am.len() implies (#[trigger] am[i]).0.key_lt(
                (#[trigger] am[j]).0,
            ) by {
                assert(am[i].0 == ae[i].0);
                assert(am[j].0 == ae[j].0);
                assert(ae[i].0.key_lt(ae[j].0));
            }
        }
        lemma_entries_map(am);
        assert(entries_map(am) =~= state@.accounts) by {
            assert forall|a: Address| #[trigger] entries_map(am).contains_key(a)
                <==> state@.accounts.contains_key(a) by {
                if entries_map(am).contains_key(a) {
                    let i = choose|i: int| 0 <= i < am.len() && am[i].0 == a;
                    assert(ae[i].0 == a);
                    assert(entries_map(ae).contains_key(ae[i].0));
                }
                if state@.accounts.contains_key(a) {
                    assert(entries_map(ae).contains_key(a));
                    let i = choose|i: int| 0 <= i < ae.len() && ae[i].0 == a;
                    assert(am[i].0 == a);
                    assert(entries_map(am).contains_key(am[i].0));
                }
            }
            assert forall|a: Address| #[trigger] entries_map(am).contains_key(a) implies entries_map(
                am,
            )[a] == state@.accounts[a] by {
                let i = choose|i: int| 0 <= i < am.len() && am[i].0 == a;
                assert(entries_map(am).contains_key(am[i].0));
                assert(entries_map(ae).contains_key(ae[i].0));
            }
        }
        lemma_sorted_entries(am);
        lemma_sorted_entries(state.storage_entries());
    }
    if accounts.len() == 0 && storage.len() == 0 {
        proof {
            assert(state@.accounts =~= Map::<Address, AccountView>::empty()) by {
                assert forall|a: Address| !state@.accounts.contains_key(a) by {
                    if state@.accounts.contains_key(a) {
                        assert(entries_map(am).contains_key(a));
                    }
                }
            }
            assert(state@.storage =~= Map::<StorageKey, U256>::empty()) by {
                assert forall|k: StorageKey| !state@.storage.contains_key(k) by {
                    if state@.storage.contains_key(k) {
                        lemma_entries_map(state.storage_entries());
                    }
                }
            }
        }
        return B256::zero();
    }
    proof {
        if accounts@.len() > 0 {
            assert(state@.accounts.contains_key(am[0].0));
            assert(!(state@.accounts =~= Map::<Address, AccountView>::empty()));
        } else {
            lemma_entries_map(state.storage_entries());
            assert(state@.storage.contains_key(state.storage_entries()[0].0));
            assert(!(state@.storage =~= Map::<StorageKey, U256>::empty()));
        }
    }
    let mut data: Vec<u8> = Vec::new();
    let na = accounts.len();
    let mut i: usize = 0;
    while i < na
        invariant
            i <= na,
            na == accounts@.len(),
            na == am.len(),
            forall|j: int|
                0 <= j < accounts@.len() ==> (#[trigger] accounts@[j]).0 == am[j].0
                    && accounts@[j].1@ == am[j].1,
            data@ == account_records(am.take(i as int)),
        decreases na - i,
    {
        let e = &accounts[i];
        e.0.push_bytes(&mut data);
        e.1.balance.push_bytes(&mut data);
        push_be_bytes(&mut data, e.1.nonce as u128, 8);
        e.1.code_hash.push_bytes(&mut data);
        proof {
            assert(am.take(i + 1).drop_last() =~= am.take(i as int));
            assert(am.take(i + 1).last() == am[i as int]);
            assert(data@ =~= account_records(am.take(i + 1)));
        }
        i = i + 1;
    }
    assert(am.take(na as int) =~= am);
    let ghost se = state.storage_entries();
    let ns = storage.len();
    let mut k: usize = 0;
    assert(se.take(0) =~= Seq::<(StorageKey, U256)>::empty());
    while k < ns
        invariant
            k <= ns,
            ns == storage@.len(),
            storage@ == se,
            data@ == account_records(am) + storage_records(se.take(k as int)),
        decreases ns - k,
    {
        let e = &storage[k];
        e.0.address.push_bytes(&mut data);
        e.0.slot.push_bytes(&mut data);
        e.1.push_bytes(&mut data);
        proof {
            assert(se.take(k + 1).drop_last() =~= se.take(k as int));
            assert(se.take(k + 1).last() == se[k as int]);
            assert(data@ =~= account_records(am) + storage_records(se.take(k + 1)));
        }
        k = k + 1;
    }
    assert(se.take(ns as int) =~= se);
    keccak256(&data)
}

/// Merges pre-computed parallel results (`merge_parallel_results`) and
/// computes the state root of the merged state. An empty block has a zero
/// state root and nothing else.
pub fn execute_block(
    base_state: &InMemoryState,
    tx_results: &[(ExecutionResult, WriteSet)],
    beneficiary_total_fees: U256,
    block_env: &BlockEnv,
) -> (r: Result<BlockResult, EvmError>)
    requires
        mergeable(tx_results@),
    ensures
        r is Ok,
        tx_results@.len() == 0 ==> r->Ok_0.state_root == (B256 { hi: 0, lo: 0 }),
        tx_results@.len() > 0 ==> spec_state_root(
            merged_state(base_state@, tx_results@, beneficiary_total_fees, block_env.coinbase),
            r->Ok_0.state_root,
        ),
        r->Ok_0.receipts@.len() == tx_results@.len(),
        forall|i: int|
            0 <= i < tx_results@.len() ==> receipt_of(#[trigger] r->Ok_0.receipts@[i], tx_results@, i),
        r->Ok_0.gas_used == gas_sum(tx_results@),
        logs_view(r->Ok_0.logs@) == block_logs(tx_results@),
{
    if tx_results.len() == 0 {
        let receipts: Vec<Receipt> = Vec::new();
        let logs: Vec<Log> = Vec::new();
        assert(logs_view(logs@) =~= block_logs(tx_results@));
        return Ok(BlockResult { state_root: B256::zero(), receipts, gas_used: 0, logs });
    }
    let m = merge_parallel_results(base_state, tx_results, beneficiary_total_fees, block_env);
    let state_root = compute_state_root(&m.state);
    Ok(BlockResult { state_root, receipts: m.receipts, gas_used: m.gas_used, logs: m.logs })
}

/// The state root is a function of the state's contents: two states with the
/// same accounts and storage have the same root, whatever order they were
/// built in.
pub proof fn lemma_state_root_deterministic(a: StateView, b: StateView, ra: B256, rb: B256)
    requires
        a.accounts == b.accounts,
        a.storage == b.storage,
        spec_state_root(a, ra),
        spec_state_root(b, rb),
    ensures
        ra == rb,
{
    if !is_blank(a) {
        B256::lemma_bytes_injective(ra, rb);
    }
}

} // verus!
