use monad_core::block_executor::AccountChange;
use monad_core::mv_database::MvDatabase;
use monad_core::mv_hashmap::MVHashMap;
use monad_core::state::InMemoryState;
use monad_core::mv_types::{LocationKey, MvReadResult, ReadOrigin, WriteValue};
use monad_core::parallel::ParallelBlock;
use monad_core::primitives::{Address, U256};
use monad_core::read_write_sets::{ReadSet, WriteSet};
use monad_core::scheduler::{Scheduler, SchedulerTask, TxState, TxStatus};
use monad_core::types::{keccak_empty, AccountInfo, EvmError, ExecutionResult};
use monad_core::worker::{
    convert_state_diffs, extract_estimate_tx_index, outcome_of_error, outcome_of_success,
    validate_transaction, ExecutionOutcome,
};

fn empty_sets() -> (ReadSet, WriteSet) {
    (ReadSet::new(), WriteSet::new())
}

fn sender_addr() -> Address {
    Address::with_last_byte(0xE1)
}

fn receiver_addr() -> Address {
    Address::with_last_byte(0xE2)
}

fn coinbase_addr() -> Address {
    Address::with_last_byte(0xC0)
}

// ── Scheduler types ─────────────────────────────────────────────────────────

#[test]
fn tx_state_default_is_ready_to_execute() {
    let state = TxState::new();
    assert_eq!(state.status, TxStatus::ReadyToExecute);
    assert_eq!(state.incarnation, 0);
    assert!(state.read_set.is_none());
    assert!(state.write_set.is_none());
}

#[test]
fn scheduler_task_equality() {
    assert_eq!(SchedulerTask::Execute(0, 0), SchedulerTask::Execute(0, 0));
    assert_ne!(SchedulerTask::Execute(0, 0), SchedulerTask::Execute(1, 0));
    assert_ne!(SchedulerTask::Execute(0, 0), SchedulerTask::Validate(0));
    assert_eq!(SchedulerTask::Done, SchedulerTask::Done);
}

#[test]
fn tx_status_copy_semantics() {
    let s = TxStatus::Executing;
    let s2 = s;
    assert_eq!(s, s2);
}

// ── Coordinator ─────────────────────────────────────────────────────────────

#[test]
fn test_initial_state() {
    let scheduler = Scheduler::new(4);
    for i in 0..4u32 {
        let state = scheduler.get_tx_state(i);
        assert_eq!(state.status, TxStatus::ReadyToExecute);
        assert_eq!(state.incarnation, 0);
        assert!(state.read_set.is_none());
        assert!(state.write_set.is_none());
    }
}

#[test]
fn test_execution_dispatch_order() {
    let mut scheduler = Scheduler::new(3);
    assert_eq!(scheduler.next_task(), SchedulerTask::Execute(0, 0));
    assert_eq!(scheduler.next_task(), SchedulerTask::Execute(1, 0));
    assert_eq!(scheduler.next_task(), SchedulerTask::Execute(2, 0));
}

#[test]
fn test_validation_priority() {
    let mut scheduler = Scheduler::new(3);
    assert_eq!(scheduler.next_task(), SchedulerTask::Execute(0, 0));
    let (rs, ws) = empty_sets();
    scheduler.finish_execution(0, 0, rs, ws);
    assert_eq!(scheduler.next_task(), SchedulerTask::Validate(0));
    assert_eq!(scheduler.next_task(), SchedulerTask::Execute(1, 0));
}

#[test]
fn test_completion_detection() {
    let mut scheduler = Scheduler::new(2);
    assert_eq!(scheduler.next_task(), SchedulerTask::Execute(0, 0));
    let (rs, ws) = empty_sets();
    scheduler.finish_execution(0, 0, rs, ws);
    assert_eq!(scheduler.next_task(), SchedulerTask::Validate(0));
    scheduler.finish_validation(0, true);

    assert_eq!(scheduler.next_task(), SchedulerTask::Execute(1, 0));
    let (rs, ws) = empty_sets();
    scheduler.finish_execution(1, 0, rs, ws);
    assert_eq!(scheduler.next_task(), SchedulerTask::Validate(1));
    scheduler.finish_validation(1, true);

    assert!(scheduler.done());
}

#[test]
fn test_cascade_validation_lowering() {
    let mut scheduler = Scheduler::new(4);

    assert_eq!(scheduler.next_task(), SchedulerTask::Execute(0, 0));
    let (rs, ws) = empty_sets();
    scheduler.finish_execution(0, 0, rs, ws);
    assert_eq!(scheduler.next_task(), SchedulerTask::Validate(0));
    scheduler.finish_validation(0, true);

    assert_eq!(scheduler.next_task(), SchedulerTask::Execute(1, 0));
    let (rs, ws) = empty_sets();
    scheduler.finish_execution(1, 0, rs, ws);
    assert_eq!(scheduler.next_task(), SchedulerTask::Validate(1));
    scheduler.finish_validation(1, true);

    assert_eq!(scheduler.next_task(), SchedulerTask::Execute(2, 0));
    let (rs, ws) = empty_sets();
    scheduler.finish_execution(2, 0, rs, ws);
    assert_eq!(scheduler.next_task(), SchedulerTask::Validate(2));
    scheduler.finish_validation(2, false);

    {
        let state = scheduler.get_tx_state(2);
        assert_eq!(state.status, TxStatus::ReadyToExecute);
        assert_eq!(state.incarnation, 1);
    }

    assert_eq!(scheduler.next_task(), SchedulerTask::Execute(2, 1));
    assert_eq!(scheduler.next_task(), SchedulerTask::Execute(3, 0));
    let (rs, ws) = empty_sets();
    scheduler.finish_execution(3, 0, rs, ws);

    let (rs, ws) = empty_sets();
    scheduler.finish_execution(2, 1, rs, ws);

    assert_eq!(scheduler.next_task(), SchedulerTask::Validate(2));
    scheduler.finish_validation(2, true);
    assert_eq!(scheduler.next_task(), SchedulerTask::Validate(3));
    scheduler.finish_validation(3, true);

    assert!(scheduler.done());
}

#[test]
fn test_incarnation_increment_on_abort() {
    let mut scheduler = Scheduler::new(2);
    assert_eq!(scheduler.next_task(), SchedulerTask::Execute(0, 0));
    let (rs, ws) = empty_sets();
    scheduler.finish_execution(0, 0, rs, ws);
    assert_eq!(scheduler.next_task(), SchedulerTask::Validate(0));
    scheduler.finish_validation(0, false);

    {
        let state = scheduler.get_tx_state(0);
        assert_eq!(state.incarnation, 1);
        assert_eq!(state.status, TxStatus::ReadyToExecute);
        assert!(state.read_set.is_none(), "read_set should be cleared");
        assert!(state.write_set.is_none(), "write_set should be cleared");
    }

    assert_eq!(scheduler.next_task(), SchedulerTask::Execute(0, 1));
}

#[test]
fn test_done_false_while_tasks_active() {
    let mut scheduler = Scheduler::new(1);
    assert_eq!(scheduler.next_task(), SchedulerTask::Execute(0, 0));
    assert!(!scheduler.done());

    let (rs, ws) = empty_sets();
    scheduler.finish_execution(0, 0, rs, ws);
    assert!(!scheduler.done());

    assert_eq!(scheduler.next_task(), SchedulerTask::Validate(0));
    scheduler.finish_validation(0, true);
    assert!(scheduler.done());
}

#[test]
fn test_finish_execution_stores_sets() {
    let mut scheduler = Scheduler::new(1);
    assert_eq!(scheduler.next_task(), SchedulerTask::Execute(0, 0));

    let rs = ReadSet::new();
    let mut ws = WriteSet::new();
    ws.record(
        LocationKey::Balance(Address::with_last_byte(0x01)),
        WriteValue::Balance(U256::from_u64(100)),
    );
    scheduler.finish_execution(0, 0, rs, ws);

    let state = scheduler.get_tx_state(0);
    assert_eq!(state.status, TxStatus::Executed);
    assert!(state.read_set.is_some());
    assert!(state.write_set.is_some());
    assert_eq!(state.write_set.as_ref().unwrap().len(), 1);
}

#[test]
fn test_block_size_accessor() {
    let scheduler = Scheduler::new(5);
    assert_eq!(scheduler.block_size(), 5);
}

#[test]
fn test_empty_block() {
    let mut scheduler = Scheduler::new(0);
    assert!(scheduler.done());
    assert_eq!(scheduler.next_task(), SchedulerTask::Done);
}

#[test]
fn stale_execution_keeps_current_incarnation_unexecuted() {
    let mut scheduler = Scheduler::new(1);
    assert_eq!(scheduler.next_task(), SchedulerTask::Execute(0, 0));
    let (rs, ws) = empty_sets();
    scheduler.finish_execution(0, 0, rs, ws);
    assert_eq!(scheduler.next_task(), SchedulerTask::Validate(0));
    scheduler.finish_validation(0, false);
    // A late report of incarnation 0 is not stored.
    let (rs, ws) = empty_sets();
    scheduler.finish_execution(0, 0, rs, ws);
    let state = scheduler.get_tx_state(0);
    assert_eq!(state.status, TxStatus::ReadyToExecute);
    assert!(state.read_set.is_none());
}

#[test]
fn try_next_task_waits_while_validation_pending() {
    let mut scheduler = Scheduler::new(1);
    assert_eq!(scheduler.try_next_task(), Some(SchedulerTask::Execute(0, 0)));
    // The only transaction is executing: nothing to claim, not done.
    assert_eq!(scheduler.try_next_task(), None);
}

// ── Worker ──────────────────────────────────────────────────────────────────

fn account(balance: u64, nonce: u64) -> AccountInfo {
    AccountInfo::new(U256::from_u64(balance), nonce)
}

#[test]
fn test_convert_state_diffs_skips_coinbase() {
    let coinbase = coinbase_addr();
    let user = sender_addr();
    let changes = vec![
        AccountChange { address: user, info: account(900, 1), storage: vec![] },
        AccountChange { address: coinbase, info: account(21_000, 0), storage: vec![] },
    ];

    let write_set = convert_state_diffs(&changes, coinbase);

    let mut has_user = false;
    let mut has_coinbase = false;
    for (loc, _) in write_set.iter() {
        if loc.address() == user {
            has_user = true;
        }
        if loc.address() == coinbase {
            has_coinbase = true;
        }
    }
    assert!(has_user, "user changes should be in WriteSet");
    assert!(!has_coinbase, "coinbase must be excluded from WriteSet");
}

#[test]
fn test_convert_state_diffs_includes_storage() {
    let user = sender_addr();
    let coinbase = coinbase_addr();
    let changes = vec![AccountChange {
        address: user,
        info: account(500, 2),
        storage: vec![(U256::from_u64(7), U256::from_u64(42))],
    }];

    let write_set = convert_state_diffs(&changes, coinbase);

    let mut has_storage = false;
    for (loc, val) in write_set.iter() {
        if let LocationKey::Storage(addr, slot) = loc {
            if addr == user && slot == U256::from_u64(7) {
                assert_eq!(val, WriteValue::Storage(U256::from_u64(42)));
                has_storage = true;
            }
        }
    }
    assert!(has_storage, "storage slot should be in WriteSet");
    assert_eq!(write_set.len(), 4, "balance, nonce, code hash and one slot");
}

#[test]
fn test_validate_passes_unchanged() {
    let mut mv = MVHashMap::new();
    let addr = sender_addr();
    mv.write(LocationKey::Balance(addr), 0, 0, WriteValue::Balance(U256::from_u64(100)));

    let mut rs = ReadSet::new();
    rs.record(LocationKey::Balance(addr), ReadOrigin::MvHashMap { tx_index: 0, incarnation: 0 });

    assert!(validate_transaction(1, &rs, &mv));
}

#[test]
fn test_validate_fails_on_version_change() {
    let mut mv = MVHashMap::new();
    let addr = sender_addr();
    mv.write(LocationKey::Balance(addr), 0, 0, WriteValue::Balance(U256::from_u64(100)));

    let mut rs = ReadSet::new();
    rs.record(LocationKey::Balance(addr), ReadOrigin::MvHashMap { tx_index: 0, incarnation: 0 });

    mv.write(LocationKey::Balance(addr), 0, 1, WriteValue::Balance(U256::from_u64(200)));

    assert!(!validate_transaction(1, &rs, &mv));
}

#[test]
fn test_extract_estimate_tx_index() {
    let s = r#"Database(MvDatabaseError(ReadEstimate { tx_index: 3, location: "Balance(0x...)" }))"#;
    assert_eq!(extract_estimate_tx_index(s), Some(3));

    let s2 = r#"ReadEstimate { tx_index: 42, location: "Storage" }"#;
    assert_eq!(extract_estimate_tx_index(s2), Some(42));

    let s3 = "some other error";
    assert_eq!(extract_estimate_tx_index(s3), None);
}

#[test]
fn test_gas_fee_calculation() {
    let result = ExecutionResult::Success { gas_used: 21_000, output: vec![], logs: vec![] };
    let gas_price = U256::from_u64(2_000_000_000);
    let outcome = outcome_of_success(result, gas_price, &vec![], coinbase_addr(), ReadSet::new());
    match outcome {
        ExecutionOutcome::Success { result, gas_fee, .. } => {
            assert_eq!(result.gas_used(), 21_000);
            assert_eq!(gas_fee, U256::from_u64(21_000 * 2_000_000_000), "gas_fee = gas_used * gas_price");
        }
        _ => panic!("expected Success"),
    }
}

#[test]
fn error_outcomes_classify_estimate_hits() {
    let msg = r#"Database(MvDatabaseError(ReadEstimate { tx_index: 3, location: "Balance(0x01)" }))"#;
    assert!(matches!(outcome_of_error(msg, 5), ExecutionOutcome::EstimateHit { blocking_tx: 3 }));
    // Any other failure of a later transaction is treated as a dependency on its predecessor.
    assert!(matches!(outcome_of_error("boom", 5), ExecutionOutcome::EstimateHit { blocking_tx: 4 }));
    match outcome_of_error("boom", 0) {
        ExecutionOutcome::ExecutionError(EvmError::Internal(s)) => {
            assert_eq!(s, "revm execution error: boom");
        }
        _ => panic!("expected an execution error"),
    }
}

#[test]
fn outcome_of_success_fee_wraps_modulo_word() {
    let result = ExecutionResult::Success { gas_used: 2, output: vec![], logs: vec![] };
    let max = U256 { hi: u128::MAX, lo: u128::MAX };
    match outcome_of_success(result, max, &vec![], coinbase_addr(), ReadSet::new()) {
        ExecutionOutcome::Success { gas_fee, .. } => {
            assert_eq!(gas_fee, U256 { hi: u128::MAX, lo: u128::MAX - 1 });
        }
        _ => panic!("expected Success"),
    }
}

// ── A block run by hand through the parallel state machine ─────────────────

fn success(read_set: ReadSet, write_set: WriteSet, fee: u64) -> ExecutionOutcome {
    ExecutionOutcome::Success {
        read_set,
        write_set,
        result: ExecutionResult::Success { gas_used: 21_000, output: vec![], logs: vec![] },
        gas_fee: U256::from_u64(fee),
    }
}

/// tx0 writes the sender's balance; tx1 reads it and writes the receiver's.
fn run_tx(block: &ParallelBlock, tx_index: u32) -> ExecutionOutcome {
    let sender = LocationKey::Balance(sender_addr());
    if tx_index == 0 {
        let mut ws = WriteSet::new();
        ws.record(sender, WriteValue::Balance(U256::from_u64(100)));
        success(ReadSet::new(), ws, 7)
    } else {
        let mut rs = ReadSet::new();
        let origin = match block.mv_state().read(&sender, 1) {
            MvReadResult::Value(_, t, inc) => ReadOrigin::MvHashMap { tx_index: t, incarnation: inc },
            MvReadResult::Estimate(t) => return ExecutionOutcome::EstimateHit { blocking_tx: t },
            MvReadResult::NotFound => ReadOrigin::Storage,
        };
        rs.record(sender, origin);
        let mut ws = WriteSet::new();
        ws.record(LocationKey::Balance(receiver_addr()), WriteValue::Balance(U256::from_u64(1)));
        success(rs, ws, 5)
    }
}

#[test]
fn parallel_block_reexecutes_a_stale_reader() {
    let mut block = ParallelBlock::new(2);
    assert_eq!(block.next_task(), Some(SchedulerTask::Execute(0, 0)));
    assert_eq!(block.next_task(), Some(SchedulerTask::Execute(1, 0)));
    // tx1 finishes first and reads the base state.
    let o1 = run_tx(&block, 1);
    block.on_execution(1, 0, o1);
    let o0 = run_tx(&block, 0);
    block.on_execution(0, 0, o0);

    let mut rounds = 0;
    loop {
        rounds += 1;
        assert!(rounds < 100, "the block must complete");
        match block.next_task() {
            Some(SchedulerTask::Execute(i, inc)) => {
                let o = run_tx(&block, i);
                block.on_execution(i, inc, o);
            }
            Some(SchedulerTask::Validate(i)) => {
                block.on_validate(i);
            }
            Some(SchedulerTask::Done) => break,
            None => {}
        }
    }
    assert!(block.done());
    assert_eq!(block.incarnation(1), 1, "tx1 read a value tx0 later overwrote");
    let result = block.finish();
    assert_eq!(result.incarnations, vec![0, 1]);
    assert_eq!(result.total_fees, U256::from_u64(12));
    assert_eq!(result.tx_results.len(), 2);
    let reads: Vec<(LocationKey, ReadOrigin)> = result.tx_results[1].2.iter();
    assert_eq!(
        reads,
        vec![(LocationKey::Balance(sender_addr()), ReadOrigin::MvHashMap { tx_index: 0, incarnation: 0 })]
    );
}

#[test]
fn parallel_block_records_errors_as_halts() {
    let mut block = ParallelBlock::new(1);
    assert_eq!(block.next_task(), Some(SchedulerTask::Execute(0, 0)));
    block.on_execution(0, 0, ExecutionOutcome::ExecutionError(EvmError::Internal("bad".to_string())));
    assert_eq!(block.next_task(), Some(SchedulerTask::Validate(0)));
    assert!(block.on_validate(0));
    assert_eq!(block.next_task(), Some(SchedulerTask::Done));
    let result = block.finish();
    match &result.tx_results[0].0 {
        ExecutionResult::Halt { gas_used, reason } => {
            assert_eq!(*gas_used, 0);
            assert_eq!(reason, "evm internal error: bad");
        }
        other => panic!("expected a halt, got {:?}", other),
    }
    assert_eq!(result.total_fees, U256::from_u64(0));
}

#[test]
fn eoa_code_hash_is_keccak_of_nothing() {
    assert_eq!(account(1, 0).code_hash, keccak_empty());
}

#[test]
fn test_parallel_empty_block() {
    let mut block = ParallelBlock::new(0);
    assert_eq!(block.next_task(), Some(SchedulerTask::Done));
    let result = block.finish();
    assert!(result.tx_results.is_empty(), "empty block = empty results");
    assert_eq!(result.total_fees, U256::from_u64(0), "no fees for empty block");
}

#[test]
fn test_execute_estimate_hit() {
    let sender = sender_addr();
    let base = InMemoryState::new().with_account(sender, account(1_000_000_000_000, 0));
    let mut mv = MVHashMap::new();
    mv.write(LocationKey::Balance(sender), 0, 0, WriteValue::Balance(U256::from_u64(999_999_999_000)));
    mv.mark_estimate(0);

    // Transaction 1 reads the sender's balance through its database view.
    let mut db = MvDatabase::new(&mv, &base, 1);
    let err = db.basic(sender).unwrap_err();
    let outcome = outcome_of_error(&format!("Database({:?})", err), 1);
    match outcome {
        ExecutionOutcome::EstimateHit { blocking_tx } => assert_eq!(blocking_tx, 0, "should be blocked by tx 0"),
        _ => panic!("expected EstimateHit"),
    }
}

#[test]
fn parallel_block_does_not_recheck_a_validated_reader() {
    let mut block = ParallelBlock::new(2);
    assert_eq!(block.next_task(), Some(SchedulerTask::Execute(0, 0)));
    assert_eq!(block.next_task(), Some(SchedulerTask::Execute(1, 0)));
    // tx1 finishes and is validated while tx0 is still executing.
    let o1 = run_tx(&block, 1);
    block.on_execution(1, 0, o1);
    assert_eq!(block.next_task(), Some(SchedulerTask::Validate(1)));
    assert!(block.on_validate(1));
    // tx0 then writes the balance tx1 read from the base state.
    let o0 = run_tx(&block, 0);
    block.on_execution(0, 0, o0);
    assert_eq!(block.next_task(), Some(SchedulerTask::Validate(0)));
    assert!(block.on_validate(0));
    // The validated tx1 is skipped: the block completes without re-executing it.
    assert_eq!(block.next_task(), Some(SchedulerTask::Done));
    assert!(block.done());
    let mut stale = ReadSet::new();
    stale.record(LocationKey::Balance(sender_addr()), ReadOrigin::Storage);
    assert!(!validate_transaction(1, &stale, block.mv_state()));
    let result = block.finish();
    assert_eq!(result.incarnations, vec![0, 0]);
    let reads: Vec<(LocationKey, ReadOrigin)> = result.tx_results[1].2.iter();
    assert_eq!(reads, vec![(LocationKey::Balance(sender_addr()), ReadOrigin::Storage)]);
}

#[test]
fn completed_block_has_every_transaction_validated() {
    let mut s = Scheduler::new(3);
    let mut rounds = 0;
    loop {
        rounds += 1;
        assert!(rounds < 100, "the block must complete");
        match s.try_next_task() {
            Some(SchedulerTask::Execute(i, inc)) => {
                let (rs, ws) = empty_sets();
                s.finish_execution(i, inc, rs, ws);
            }
            Some(SchedulerTask::Validate(i)) => s.finish_validation(i, i != 1 || rounds > 6),
            Some(SchedulerTask::Done) => break,
            None => {}
        }
    }
    assert!(s.done());
    for i in 0..3 {
        assert_eq!(s.get_tx_state(i).status, TxStatus::Validated);
    }
    assert!(s.get_tx_state(1).incarnation >= 1);
}

#[test]
fn parallel_block_driven_one_task_at_a_time_ends_with_valid_reads() {
    let mut block = ParallelBlock::new(2);
    let mut rounds = 0;
    loop {
        rounds += 1;
        assert!(rounds < 100, "the block must complete");
        match block.next_task() {
            Some(SchedulerTask::Execute(i, inc)) => {
                let o = run_tx(&block, i);
                block.on_execution(i, inc, o);
            }
            Some(SchedulerTask::Validate(i)) => {
                assert!(block.on_validate(i), "one task at a time never aborts here");
            }
            Some(SchedulerTask::Done) => break,
            None => panic!("a lone driver always gets a task"),
        }
    }
    assert!(block.done());
    let mut reads = ReadSet::new();
    reads.record(LocationKey::Balance(sender_addr()), ReadOrigin::MvHashMap { tx_index: 0, incarnation: 0 });
    assert!(validate_transaction(1, &reads, block.mv_state()));
    let result = block.finish();
    assert_eq!(result.incarnations, vec![0, 0]);
    let recorded: Vec<(LocationKey, ReadOrigin)> = result.tx_results[1].2.iter();
    assert_eq!(recorded, vec![(LocationKey::Balance(sender_addr()), ReadOrigin::MvHashMap { tx_index: 0, incarnation: 0 })]);
}
