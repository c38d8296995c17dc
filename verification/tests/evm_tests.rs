use monad_core::block_executor::{AccountChange, SequentialBlock};
use monad_core::db_bridge::{DbBridge, DbBridgeError};
use monad_core::merge::{compute_state_root, execute_block, merge_parallel_results};
use monad_core::mv_types::{LocationKey, WriteValue};
use monad_core::primitives::{Address, B256, U256};
use monad_core::read_write_sets::WriteSet;
use monad_core::state::InMemoryState;
use monad_core::types::{AccountInfo, BlockEnv, EvmError, ExecutionResult, Log};
use monad_core::worker::convert_state_diffs;

fn test_addr_a() -> Address {
    Address::with_last_byte(0xE1)
}

fn test_addr_b() -> Address {
    Address::with_last_byte(0xE2)
}

fn receiver_a() -> Address {
    Address::with_last_byte(0xF1)
}

fn coinbase_addr() -> Address {
    Address::with_last_byte(0xC0)
}

fn u(v: u64) -> U256 {
    U256::from_u64(v)
}

fn make_block_env() -> BlockEnv {
    BlockEnv {
        number: 1,
        coinbase: coinbase_addr(),
        timestamp: 1_700_000_000,
        gas_limit: 30_000_000,
        base_fee: U256::zero(),
        difficulty: U256::zero(),
    }
}

fn success(gas_used: u64) -> ExecutionResult {
    ExecutionResult::Success { gas_used, output: vec![], logs: vec![] }
}

// ── compute_state_root ──────────────────────────────────────────────────────

#[test]
fn test_state_root_empty_state() {
    let state = InMemoryState::new();
    assert_eq!(compute_state_root(&state), B256::zero(), "empty state should produce B256::ZERO");
}

#[test]
fn test_state_root_deterministic() {
    let state_a = InMemoryState::new()
        .with_account(test_addr_a(), AccountInfo::new(u(100), 1))
        .with_account(test_addr_b(), AccountInfo::new(u(200), 2));
    let state_b = InMemoryState::new()
        .with_account(test_addr_b(), AccountInfo::new(u(200), 2))
        .with_account(test_addr_a(), AccountInfo::new(u(100), 1));

    let root_a = compute_state_root(&state_a);
    let root_b = compute_state_root(&state_b);
    assert_eq!(root_a, root_b, "identical states should produce identical roots");
    assert_ne!(root_a, B256::zero(), "non-empty state root should be non-zero");
}

#[test]
fn test_state_root_different_states() {
    let state_a = InMemoryState::new().with_account(test_addr_a(), AccountInfo::new(u(100), 1));
    let state_b = InMemoryState::new().with_account(test_addr_a(), AccountInfo::new(u(200), 1));
    assert_ne!(compute_state_root(&state_a), compute_state_root(&state_b));
}

#[test]
fn test_state_root_with_storage() {
    let state_a = InMemoryState::new()
        .with_account(test_addr_a(), AccountInfo::new(u(100), 0))
        .with_storage(test_addr_a(), u(0), u(42));
    let state_b = InMemoryState::new()
        .with_account(test_addr_a(), AccountInfo::new(u(100), 0))
        .with_storage(test_addr_a(), u(0), u(99));
    assert_ne!(compute_state_root(&state_a), compute_state_root(&state_b));
}

#[test]
fn test_state_root_stable_across_calls() {
    let state = InMemoryState::new()
        .with_account(test_addr_a(), AccountInfo::new(u(100), 1))
        .with_storage(test_addr_a(), u(0), u(42));
    let root1 = compute_state_root(&state);
    let root2 = compute_state_root(&state);
    let root3 = compute_state_root(&state);
    assert_eq!(root1, root2);
    assert_eq!(root2, root3);
}

#[test]
fn state_root_covers_stored_zero_slots() {
    let plain = InMemoryState::new().with_account(test_addr_a(), AccountInfo::new(u(1), 0));
    let with_zero = InMemoryState::new()
        .with_account(test_addr_a(), AccountInfo::new(u(1), 0))
        .with_storage(test_addr_a(), u(3), u(0));
    assert_ne!(compute_state_root(&plain), compute_state_root(&with_zero));
}

// ── merge_parallel_results ──────────────────────────────────────────────────

#[test]
fn test_merge_empty_block() {
    let base_state = InMemoryState::new().with_account(coinbase_addr(), AccountInfo::new(U256::zero(), 0));
    let block_env = make_block_env();
    let merge = merge_parallel_results(&base_state, &[], U256::zero(), &block_env);
    assert!(merge.receipts.is_empty());
    assert_eq!(merge.gas_used, 0);
    assert!(merge.logs.is_empty());
}

#[test]
fn test_merge_single_success_tx() {
    let base_state = InMemoryState::new()
        .with_account(test_addr_a(), AccountInfo::new(u(1000), 0))
        .with_account(coinbase_addr(), AccountInfo::new(U256::zero(), 0));
    let block_env = make_block_env();

    let mut write_set = WriteSet::new();
    write_set.record(LocationKey::Balance(test_addr_a()), WriteValue::Balance(u(500)));
    write_set.record(LocationKey::Nonce(test_addr_a()), WriteValue::Nonce(1));
    let tx_results = vec![(success(21_000), write_set)];

    let merge = merge_parallel_results(&base_state, &tx_results, u(21_000_000), &block_env);

    assert_eq!(merge.receipts.len(), 1);
    assert!(merge.receipts[0].success);
    assert_eq!(merge.receipts[0].cumulative_gas_used, 21_000);
    assert_eq!(merge.gas_used, 21_000);

    let acct = merge.state.get_account(&test_addr_a()).unwrap();
    assert_eq!(acct.balance, u(500));
    assert_eq!(acct.nonce, 1);

    let coinbase = merge.state.get_account(&coinbase_addr()).unwrap();
    assert_eq!(coinbase.balance, u(21_000_000));
}

#[test]
fn test_merge_cumulative_gas() {
    let base_state = InMemoryState::new().with_account(coinbase_addr(), AccountInfo::new(U256::zero(), 0));
    let block_env = make_block_env();
    let tx_results = vec![(success(21_000), WriteSet::new()), (success(30_000), WriteSet::new())];

    let merge = merge_parallel_results(&base_state, &tx_results, U256::zero(), &block_env);
    assert_eq!(merge.receipts.len(), 2);
    assert_eq!(merge.receipts[0].cumulative_gas_used, 21_000);
    assert_eq!(merge.receipts[1].cumulative_gas_used, 51_000);
    assert_eq!(merge.gas_used, 51_000);
}

#[test]
fn test_merge_reverted_tx() {
    let base_state = InMemoryState::new().with_account(coinbase_addr(), AccountInfo::new(U256::zero(), 0));
    let block_env = make_block_env();
    let exec_result = ExecutionResult::Revert { gas_used: 15_000, output: vec![] };
    let tx_results = vec![(exec_result, WriteSet::new())];

    let merge = merge_parallel_results(&base_state, &tx_results, U256::zero(), &block_env);
    assert_eq!(merge.receipts.len(), 1);
    assert!(!merge.receipts[0].success);
    assert_eq!(merge.receipts[0].cumulative_gas_used, 15_000);
    assert!(merge.receipts[0].logs.is_empty());
}

#[test]
fn merge_creates_missing_accounts_and_collects_logs_in_order() {
    let base_state = InMemoryState::new();
    let block_env = make_block_env();
    let log_a = Log { address: test_addr_a(), topics: vec![B256::with_last_byte(1)], data: vec![1] };
    let log_b = Log { address: test_addr_b(), topics: vec![], data: vec![2, 3] };
    let mut ws = WriteSet::new();
    ws.record(LocationKey::Nonce(receiver_a()), WriteValue::Nonce(4));
    ws.record(LocationKey::Storage(receiver_a(), u(9)), WriteValue::Storage(u(10)));
    let tx_results = vec![
        (ExecutionResult::Success { gas_used: 1, output: vec![], logs: vec![log_a.clone()] }, ws),
        (ExecutionResult::Success { gas_used: 2, output: vec![], logs: vec![log_b.clone()] }, WriteSet::new()),
    ];
    let merge = merge_parallel_results(&base_state, &tx_results, u(5), &block_env);
    assert_eq!(merge.logs, vec![log_a, log_b]);
    let acct = merge.state.get_account(&receiver_a()).unwrap();
    assert_eq!(acct.nonce, 4);
    assert_eq!(acct.balance, U256::zero());
    assert_eq!(merge.state.get_storage(&receiver_a(), &u(9)), u(10));
    assert_eq!(merge.state.get_account(&coinbase_addr()).unwrap().balance, u(5));
}

// ── execute_block ───────────────────────────────────────────────────────────

#[test]
fn test_execute_block_empty() {
    let base_state = InMemoryState::new();
    let block_env = make_block_env();
    let result = execute_block(&base_state, &[], U256::zero(), &block_env).expect("empty block should succeed");
    assert_eq!(result.state_root, B256::zero(), "empty block -> zero state root");
    assert!(result.receipts.is_empty());
    assert_eq!(result.gas_used, 0);
    assert!(result.logs.is_empty());
}

#[test]
fn test_execute_block_single_tx() {
    let base_state = InMemoryState::new()
        .with_account(test_addr_a(), AccountInfo::new(u(1_000_000_000_000), 0))
        .with_account(coinbase_addr(), AccountInfo::new(U256::zero(), 0));
    let block_env = make_block_env();

    let mut write_set = WriteSet::new();
    write_set.record(LocationKey::Balance(test_addr_a()), WriteValue::Balance(u(999_999_979_000)));
    write_set.record(LocationKey::Nonce(test_addr_a()), WriteValue::Nonce(1));
    write_set.record(LocationKey::Balance(receiver_a()), WriteValue::Balance(u(1000)));

    let beneficiary_fees = u(21_000).wrapping_mul_u64(1_000_000_000);
    let tx_results = vec![(success(21_000), write_set)];

    let result = execute_block(&base_state, &tx_results, beneficiary_fees, &block_env)
        .expect("single tx block should succeed");
    assert_ne!(result.state_root, B256::zero(), "non-empty block -> non-zero state root");
    assert_eq!(result.receipts.len(), 1);
    assert!(result.receipts[0].success);
    assert_eq!(result.receipts[0].cumulative_gas_used, 21_000);
    assert_eq!(result.gas_used, 21_000);
}

// ── Sequential execution ────────────────────────────────────────────────────

#[test]
fn test_execute_block_sequential_empty() {
    let base_state = InMemoryState::new();
    let block_env = make_block_env();
    let result = SequentialBlock::new(&base_state, &block_env).finish();
    assert_eq!(result.state_root, B256::zero(), "empty block -> zero state root");
    assert!(result.receipts.is_empty());
    assert_eq!(result.gas_used, 0);
    assert!(result.logs.is_empty());
}

fn transfer_changes() -> Vec<AccountChange> {
    vec![
        AccountChange {
            address: test_addr_a(),
            info: AccountInfo::new(u(999_999_999_000), 1),
            storage: vec![],
        },
        AccountChange { address: receiver_a(), info: AccountInfo::new(u(1000), 0), storage: vec![] },
        AccountChange { address: coinbase_addr(), info: AccountInfo::new(u(77), 0), storage: vec![] },
    ]
}

#[test]
fn sequential_block_applies_changes_and_credits_fees() {
    let base_state = InMemoryState::new()
        .with_account(test_addr_a(), AccountInfo::new(u(1_000_000_000_000), 0))
        .with_account(coinbase_addr(), AccountInfo::new(U256::zero(), 0));
    let block_env = make_block_env();
    let mut block = SequentialBlock::new(&base_state, &block_env);
    block.apply_transaction(u(1_000_000_000), &success(21_000), &transfer_changes());
    assert_eq!(block.state().get_account(&receiver_a()).unwrap().balance, u(1000));
    // The coinbase's own change is skipped until the fees are credited.
    assert_eq!(block.state().get_account(&coinbase_addr()).unwrap().balance, U256::zero());
    let result = block.finish();
    assert_ne!(result.state_root, B256::zero());
    assert_eq!(result.receipts.len(), 1);
    assert!(result.receipts[0].success);
    assert_eq!(result.gas_used, 21_000);
    assert_eq!(result.receipts[0].cumulative_gas_used, 21_000);
}

#[test]
fn parallel_merge_and_sequential_agree_on_state_root() {
    let base_state = InMemoryState::new()
        .with_account(test_addr_a(), AccountInfo::new(u(1_000_000_000_000), 0))
        .with_account(coinbase_addr(), AccountInfo::new(U256::zero(), 0));
    let block_env = make_block_env();
    let gas_price = u(1_000_000_000);

    let mut block = SequentialBlock::new(&base_state, &block_env);
    block.apply_transaction(gas_price, &success(21_000), &transfer_changes());
    let sequential = block.finish();

    let ws = convert_state_diffs(&transfer_changes(), coinbase_addr());
    let fees = gas_price.wrapping_mul_u64(21_000);
    let parallel = execute_block(&base_state, &[(success(21_000), ws)], fees, &block_env).unwrap();
    assert_eq!(parallel.state_root, sequential.state_root);
    assert_eq!(parallel.gas_used, sequential.gas_used);
    assert_eq!(parallel.receipts.len(), sequential.receipts.len());
    for (p, q) in parallel.receipts.iter().zip(sequential.receipts.iter()) {
        assert_eq!(p.success, q.success);
        assert_eq!(p.cumulative_gas_used, q.cumulative_gas_used);
        assert_eq!(p.logs.len(), q.logs.len());
        assert_eq!(p.contract_address, q.contract_address);
    }
}

// ── DbBridge ────────────────────────────────────────────────────────────────

#[test]
fn test_db_bridge_basic_account() {
    let addr = Address::with_last_byte(0x01);
    let state = InMemoryState::new().with_account(addr, AccountInfo::new(u(1000), 5));
    let mut bridge = DbBridge::new(&state);
    let acct = bridge.basic(addr).unwrap().unwrap();
    assert_eq!(acct.balance, u(1000));
    assert_eq!(acct.nonce, 5);
}

#[test]
fn test_db_bridge_missing_account() {
    let state = InMemoryState::new();
    let mut bridge = DbBridge::new(&state);
    assert!(bridge.basic(Address::with_last_byte(0xFF)).unwrap().is_none());
}

#[test]
fn test_db_bridge_storage() {
    let addr = Address::with_last_byte(0x01);
    let state = InMemoryState::new().with_storage(addr, u(0), u(42));
    let mut bridge = DbBridge::new(&state);
    assert_eq!(bridge.storage(addr, u(0)).unwrap(), u(42));
}

#[test]
fn test_db_bridge_block_hash() {
    let hash = B256::with_last_byte(0xAA);
    let state = InMemoryState::new().with_block_hash(100, hash);
    let mut bridge = DbBridge::new(&state);
    assert_eq!(bridge.block_hash(100).unwrap(), hash);
    assert_eq!(bridge.block_hash(999).unwrap(), B256::zero());
}

#[test]
fn db_bridge_error_messages() {
    let e = DbBridgeError::from(EvmError::StateAccess("disk".to_string()));
    assert_eq!(e, DbBridgeError("state access error: disk".to_string()));
    assert_eq!(e.to_string(), "DbBridge error: state access error: disk");
}
