use monad_core::block_builder::{BuildError, BuildResult};
use monad_core::cli::{cli_output, execution_output, parse_address, parse_bytes, parse_u256, prefunded_state};
use monad_core::game_events::GameEventType;
use monad_core::mv_types::{LocationKey, WriteValue};
use monad_core::primitives::{Address, U256};
use monad_core::read_write_sets::{ReadSet, WriteSet};
use monad_core::simulation::{
    build_cli_input, cache_key, compile_result_from, failure_response, health_response, map_engine_output,
    page_bounds, process_outcome, CompileError, EngineConflict, EngineConflictDetails, EngineError, EngineOutput,
    EngineResult, EngineStats, SimulationFailure, SimulationsQuery,
};
use monad_core::types::{BlockEnv, ExecutionResult, Log, Transaction};

fn sample_build_result() -> BuildResult {
    BuildResult {
        transactions: vec![
            Transaction {
                sender: Address::with_last_byte(0xE1),
                to: None,
                data: vec![0x60, 0x80, 0x60, 0x40],
                value: U256::zero(),
                gas_limit: 2_000_000,
                nonce: 0,
                gas_price: U256::from_u64(1_000_000_000),
            },
            Transaction {
                sender: Address::with_last_byte(0xE2),
                to: Some(Address::with_last_byte(0xAA)),
                data: vec![0xd0, 0x9d, 0xe0, 0x8a],
                value: U256::zero(),
                gas_limit: 2_000_000,
                nonce: 0,
                gas_price: U256::from_u64(1_000_000_000),
            },
        ],
        block_env: BlockEnv {
            number: 1,
            coinbase: Address::with_last_byte(0xFF),
            timestamp: 1_700_000_000,
            gas_limit: 30_000_000,
            base_fee: U256::zero(),
            difficulty: U256::zero(),
        },
        tx_function_map: vec!["constructor".to_string(), "increment".to_string()],
    }
}

// ── Engine input ────────────────────────────────────────────────────────────

#[test]
fn test_build_cli_input_format() {
    let build = sample_build_result();
    let cli_input = build_cli_input(&build);

    assert_eq!(cli_input.transactions.len(), 2);
    assert_eq!(cli_input.transactions[0].to, None);
    assert!(cli_input.transactions[0].sender.contains("e1"));
    assert!(cli_input.transactions[1].to.is_some());
    assert!(cli_input.transactions[1].sender.contains("e2"));
    assert_eq!(cli_input.block_env.number, 1);
    assert!(cli_input.block_env.coinbase.contains("ff"));
    assert_eq!(cli_input.block_env.timestamp, 1_700_000_000);
}

#[test]
fn cli_input_exact_rendering() {
    let cli_input = build_cli_input(&sample_build_result());
    let call = &cli_input.transactions[1];
    assert_eq!(call.sender, "0x00000000000000000000000000000000000000e2");
    assert_eq!(call.to.as_deref(), Some("0x00000000000000000000000000000000000000aa"));
    assert_eq!(call.data, "0xd09de08a");
    assert_eq!(call.value, "0");
    assert_eq!(call.gas_price, "1000000000");
    assert_eq!(cli_input.block_env.base_fee, "0");
    let big = U256 { hi: 1, lo: 0 };
    let mut b = sample_build_result();
    b.transactions[0].value = big;
    assert_eq!(build_cli_input(&b).transactions[0].value, "340282366920938463463374607431768211456");
}

// ── Engine output ───────────────────────────────────────────────────────────

fn engine_result(success: bool, gas_used: u64) -> EngineResult {
    EngineResult { success, gas_used, output: "0x".to_string(), error: None, logs_count: Some(0) }
}

fn engine_output_with_conflict() -> EngineOutput {
    EngineOutput {
        results: vec![engine_result(true, 50_000), engine_result(true, 50_000)],
        incarnations: vec![0, 1],
        stats: EngineStats {
            total_gas: 100_000,
            num_transactions: 2,
            num_conflicts: 1,
            num_re_executions: 1,
            per_tx_exec_time_us: vec![120, 340],
        },
        conflict_details: EngineConflictDetails {
            conflicts: vec![
                EngineConflict {
                    tx_a: 0,
                    tx_b: 1,
                    location_type: Some("StorageSlot".to_string()),
                    conflict_type: Some("read-write".to_string()),
                },
                EngineConflict { tx_a: 0, tx_b: 1, location_type: None, conflict_type: None },
            ],
        },
    }
}

#[test]
fn engine_output_maps_to_response() {
    let out = engine_output_with_conflict();
    let r = map_engine_output(&out, 2);
    let resp = &r.response;
    assert_eq!(resp.results.len(), 2);
    assert!(resp.results[0].success);
    assert_eq!(resp.results[1].gas_used, 50_000);
    assert_eq!(resp.results[0].logs_count, 0);
    assert_eq!(resp.incarnations, vec![0, 1]);
    assert_eq!(resp.stats.total_gas, 100_000);
    assert_eq!(resp.stats.num_transactions, 2);
    assert_eq!(resp.stats.num_conflicts, 1);
    assert_eq!(resp.stats.num_re_executions, 1);
    let c = &resp.conflict_details.conflicts;
    assert_eq!((c[0].tx_a, c[0].tx_b), (0, 1));
    assert_eq!(c[0].location_type, "StorageSlot");
    assert_eq!(c[0].conflict_type, "read-write");
    assert_eq!(c[1].location_type, "Unknown");
    assert_eq!(c[1].conflict_type, "unknown");
    assert_eq!(r.game_events, resp.game_events);
    let conflicts: Vec<_> = resp.game_events.iter().filter(|e| e.event_type == GameEventType::Conflict).collect();
    assert_eq!(conflicts.len(), 1, "a repeated pair sounds once");
    assert_eq!(conflicts[0].slot, 0, "the engine gives no slot detail");
    assert_eq!(resp.game_events.iter().filter(|e| e.event_type == GameEventType::ReExecution).count(), 3);
}

#[test]
fn engine_output_missing_log_count_reads_zero() {
    let mut out = engine_output_with_conflict();
    out.results[0].logs_count = None;
    out.results[1].logs_count = Some(4);
    out.results[1].error = Some("boom".to_string());
    let r = map_engine_output(&out, 2);
    assert_eq!(r.response.results[0].logs_count, 0);
    assert_eq!(r.response.results[1].logs_count, 4);
    assert_eq!(r.response.results[1].error.as_deref(), Some("boom"));
}

// ── Errors and small decisions ─────────────────────────────────────────────

#[test]
fn process_outcomes() {
    assert_eq!(process_outcome(true, Some(0), String::new()), Ok(()));
    assert_eq!(process_outcome(false, None, "x".to_string()), Err(EngineError::Killed));
    assert_eq!(process_outcome(false, Some(-1), "x".to_string()), Err(EngineError::Killed));
    assert_eq!(
        process_outcome(false, Some(2), "bad".to_string()),
        Err(EngineError::ProcessFailed { exit_code: 2, stderr: "bad".to_string() })
    );
}

#[test]
fn engine_and_compile_error_messages() {
    assert_eq!(
        EngineError::ProcessFailed { exit_code: -9, stderr: "oops".to_string() }.to_string(),
        "monad-vibe-cli process failed (exit -9): oops"
    );
    assert_eq!(EngineError::Killed.to_string(), "monad-vibe-cli was killed by signal");
    assert_eq!(
        CompileError::SolcFailed { stderr: "E".to_string() }.to_string(),
        "solc compilation failed: E"
    );
    assert_eq!(CompileError::NoContracts.to_string(), "no contracts found in source");
}

#[test]
fn failure_responses() {
    let (status, body) = failure_response(&SimulationFailure::Build(BuildError::NoStateChangingFunctions));
    assert_eq!(status, 400);
    assert_eq!(body.error, "no state-changing functions found in contract");
    let (status, body) = failure_response(&SimulationFailure::Engine(EngineError::Io("pipe".to_string())));
    assert_eq!(status, 500);
    assert_eq!(body.error, "Engine error: I/O error: pipe");
    let (status, _) = failure_response(&SimulationFailure::Compile(CompileError::SolcNotFound));
    assert_eq!(status, 400);
}

#[test]
fn compile_result_defaults_and_empty_bytecode() {
    let ok = compile_result_from("Counter".to_string(), None, Some("6080".to_string()), None).unwrap();
    assert_eq!(ok.abi_json, "[]");
    assert_eq!(ok.storage_layout, r#"{"storage":[],"types":{}}"#);
    assert_eq!(ok.bytecode, "6080");
    let err = compile_result_from("I".to_string(), Some("[]".to_string()), Some(String::new()), None);
    assert_eq!(
        err,
        Err(CompileError::ParseError("empty bytecode — contract may be abstract or an interface".to_string()))
    );
    assert!(compile_result_from("I".to_string(), None, None, None).is_err());
}

#[test]
fn cache_keys_and_paging() {
    assert_eq!(cache_key("ab12", Some(5)), "sim:ab12:rc:5");
    assert_eq!(cache_key("ab12", None), "sim:ab12:rc:auto");
    assert_eq!(page_bounds(&SimulationsQuery { limit: None, offset: None }), (20, 0));
    assert_eq!(page_bounds(&SimulationsQuery { limit: Some(500), offset: Some(-3) }), (100, 0));
    assert_eq!(page_bounds(&SimulationsQuery { limit: Some(7), offset: Some(40) }), (7, 40));
}

#[test]
fn health_report() {
    let h = health_response(12, false, true, false, 5, 2);
    assert_eq!(h.status, "ok");
    assert_eq!(h.engine_type, "cpp-monad-vibe-cli");
    assert_eq!((h.uptime_secs, h.pool_size, h.pool_idle), (12, 5, 2));
    assert!(h.db_connected && !h.redis_connected && !h.engine_available);
}

// ── Command-line bridge ────────────────────────────────────────────────────

fn addr_bytes(a: Address) -> Vec<u8> {
    a.to_bytes()
}

#[test]
fn parse_address_variants() {
    assert_eq!(parse_address("0x00000000000000000000000000000000000000e1"), Address::with_last_byte(0xE1));
    assert_eq!(parse_address("e1"), Address::with_last_byte(0xE1));
    assert_eq!(parse_address("0xE1"), Address::with_last_byte(0xE1));
    assert_eq!(parse_address(""), Address::zero());
    // Too long: the zero address.
    assert_eq!(parse_address("0x0000000000000000000000000000000000000000e1"), Address::zero());
    // Decoding stops at the first bad pair; what came before stays.
    let a = parse_address("0x11223344zz000000000000000000000000000000");
    let b = addr_bytes(a);
    assert_eq!(&b[..4], &[0x11, 0x22, 0x33, 0x44]);
    assert!(b[4..].iter().all(|&x| x == 0));
    // Only a lowercase prefix is stripped.
    assert_eq!(parse_address("0X01"), Address::zero());
    // Non-ASCII text is the zero address.
    assert_eq!(parse_address("é1"), Address::zero());
}

#[test]
fn parse_u256_variants() {
    assert_eq!(parse_u256("1000000000"), U256::from_u64(1_000_000_000));
    assert_eq!(parse_u256("0x10"), U256::from_u64(16));
    assert_eq!(parse_u256("0XfF"), U256::from_u64(255));
    assert_eq!(parse_u256("1_000"), U256::from_u64(1000));
    assert_eq!(parse_u256(""), U256::zero());
    assert_eq!(parse_u256("12a"), U256::zero());
    assert_eq!(parse_u256("-1"), U256::zero());
    let max = "115792089237316195423570985008687907853269984665640564039457584007913129639935";
    assert_eq!(parse_u256(max), U256 { hi: u128::MAX, lo: u128::MAX });
    let over = "115792089237316195423570985008687907853269984665640564039457584007913129639936";
    assert_eq!(parse_u256(over), U256::zero());
    assert_eq!(parse_u256("0x1_00000000000000000000000000000000"), U256 { hi: 1, lo: 0 });
}

#[test]
fn parse_bytes_variants() {
    assert_eq!(parse_bytes("0x"), Vec::<u8>::new());
    assert_eq!(parse_bytes(""), Vec::<u8>::new());
    assert_eq!(parse_bytes("0xd09de08a"), vec![0xd0, 0x9d, 0xe0, 0x8a]);
    assert_eq!(parse_bytes("ABCD"), vec![0xab, 0xcd]);
    assert_eq!(parse_bytes("0xabc"), Vec::<u8>::new());
    assert_eq!(parse_bytes("0xzz"), Vec::<u8>::new());
}

#[test]
fn execution_outputs() {
    let log = Log { address: Address::zero(), topics: vec![], data: vec![] };
    let s = execution_output(&ExecutionResult::Success { gas_used: 5, output: vec![0xab], logs: vec![log] });
    assert!(s.success);
    assert_eq!(s.output, "0xab");
    assert_eq!(s.error, None);
    assert_eq!(s.logs_count, 1);
    let r = execution_output(&ExecutionResult::Revert { gas_used: 6, output: vec![1, 2] });
    assert_eq!((r.success, r.output.as_str(), r.error.as_deref()), (false, "0x0102", Some("revert")));
    let h = execution_output(&ExecutionResult::Halt { gas_used: 7, reason: "OutOfGas".to_string() });
    assert_eq!((h.output.as_str(), h.error.as_deref(), h.logs_count), ("0x", Some("OutOfGas"), 0));
}

#[test]
fn cli_report_counts_and_gas() {
    let mut ws = WriteSet::new();
    ws.record(LocationKey::Balance(Address::with_last_byte(1)), WriteValue::Balance(U256::from_u64(1)));
    let tx_results = vec![
        (ExecutionResult::Success { gas_used: 21_000, output: vec![], logs: vec![] }, ws, ReadSet::new()),
        (ExecutionResult::Revert { gas_used: 30_000, output: vec![] }, WriteSet::new(), ReadSet::new()),
        (ExecutionResult::Halt { gas_used: 12_000, reason: "x".to_string() }, WriteSet::new(), ReadSet::new()),
    ];
    let out = cli_output(&tx_results, vec![0, 2, 1], 3);
    assert_eq!(out.stats.total_gas, 63_000);
    assert_eq!(out.stats.num_transactions, 3);
    assert_eq!(out.stats.num_conflicts, 2);
    assert_eq!(out.stats.num_re_executions, 3);
    assert_eq!(out.results.len(), 3);
    assert_eq!(out.incarnations, vec![0, 2, 1]);
    assert_eq!(out.conflict_details.per_tx.len(), 3);
    assert!(out.conflict_details.conflicts.is_empty());
}

#[test]
fn prefunded_state_funds_each_sender_once() {
    let b = sample_build_result();
    let mut txs = b.transactions.clone();
    txs.push(txs[0].clone());
    let state = prefunded_state(&txs);
    let accounts = state.accounts();
    assert_eq!(accounts.len(), 2);
    for (_, info) in accounts {
        assert_eq!(info.balance, U256 { hi: 0, lo: 1_000_000_000_000_000_000_000 });
        assert_eq!(info.nonce, 0);
    }
    assert!(state.all_storage().is_empty());
}
