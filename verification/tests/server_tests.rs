use monad_core::block_builder::{BuildError, CompileResult};
use monad_core::simulation::{
    check_client_message, compile_output, completion_stats, finish_simulation, prepare_simulation,
    simulation_cache_key, source_hash, ClientMessage, CompileError, EngineConflictDetails, EngineError,
    EngineOutput, EngineResult, EngineStats, SimulationFailure,
};

const SOLC_OUTPUT: &str = r#"{"contracts":{"/tmp/x.sol:Counter":{"abi":[{"inputs":[],"name":"increment","outputs":[],"stateMutability":"nonpayable","type":"function"}],"bin":"6080604052","storage-layout":{"storage":[],"types":null}}},"version":"0.8.28"}"#;

#[test]
fn compile_output_takes_the_first_contract() {
    let r = compile_output(true, SOLC_OUTPUT, String::new()).expect("compiles");
    assert_eq!(r.contract_name, "Counter");
    assert_eq!(
        r.abi_json,
        r#"[{"inputs":[],"name":"increment","outputs":[],"stateMutability":"nonpayable","type":"function"}]"#
    );
    assert_eq!(r.bytecode, "6080604052");
    assert_eq!(r.storage_layout, r#"{"storage":[],"types":null}"#);
}

#[test]
fn compile_output_defaults_missing_members() {
    let out = r#"{"contracts":{"Plain":{"bin":"00"}}}"#;
    let r = compile_output(true, out, String::new()).expect("compiles");
    assert_eq!(r.contract_name, "Plain");
    assert_eq!(r.abi_json, "[]");
    assert_eq!(r.bytecode, "00");
    assert_eq!(r.storage_layout, r#"{"storage":[],"types":{}}"#);
}

#[test]
fn compile_output_reports_solc_failure() {
    let r = compile_output(false, "", "Error: expected ';'".to_string());
    assert_eq!(r, Err(CompileError::SolcFailed { stderr: "Error: expected ';'".to_string() }));
}

#[test]
fn compile_output_rejects_invalid_json() {
    match compile_output(true, "not json", String::new()) {
        Err(CompileError::ParseError(m)) => assert!(m.starts_with("invalid JSON from solc: "), "{m}"),
        other => panic!("expected a parse error, got {:?}", other),
    }
}

#[test]
fn compile_output_needs_contracts_object() {
    let r = compile_output(true, r#"{"version":"0.8.28"}"#, String::new());
    assert_eq!(r, Err(CompileError::ParseError("missing 'contracts' in solc output".to_string())));
}

#[test]
fn compile_output_with_no_contract() {
    let r = compile_output(true, r#"{"contracts":{}}"#, String::new());
    assert_eq!(r, Err(CompileError::NoContracts));
}

#[test]
fn compile_output_rejects_empty_bytecode() {
    let r = compile_output(true, r#"{"contracts":{"a.sol:I":{"abi":[],"bin":""}}}"#, String::new());
    assert_eq!(
        r,
        Err(CompileError::ParseError("empty bytecode — contract may be abstract or an interface".to_string()))
    );
}

#[test]
fn source_hash_is_sha256_hex() {
    assert_eq!(source_hash(""), "e3b0c44298fc1c149afbf4c8996fb92427ae41e4649b934ca495991b7852b855");
    assert_eq!(source_hash("abc"), "ba7816bf8f01cfea414140de5dae2223b00361a396177a9cb410ff61f20015ad");
}

#[test]
fn simulation_cache_key_hashes_the_source() {
    assert_eq!(
        simulation_cache_key("abc", Some(3)),
        "sim:ba7816bf8f01cfea414140de5dae2223b00361a396177a9cb410ff61f20015ad:rc:3"
    );
    assert_eq!(
        simulation_cache_key("", None),
        "sim:e3b0c44298fc1c149afbf4c8996fb92427ae41e4649b934ca495991b7852b855:rc:auto"
    );
}

fn message(action: &str, source: Option<&str>) -> ClientMessage {
    ClientMessage { action: action.to_string(), source: source.map(|s| s.to_string()), repeat_count: None }
}

#[test]
fn client_message_checks() {
    assert_eq!(check_client_message(&message("simulate", Some("contract C {}"))), Ok(()));
    assert_eq!(check_client_message(&message("stop", Some("contract C {}"))), Err("unknown action: stop".to_string()));
    assert_eq!(
        check_client_message(&message("simulate", None)),
        Err("missing or empty source field".to_string())
    );
    assert_eq!(
        check_client_message(&message("simulate", Some(" \n\t "))),
        Err("missing or empty source field".to_string())
    );
    assert_eq!(check_client_message(&message("simulate", Some(""))), Err("missing or empty source field".to_string()));
}

fn one_result_output() -> EngineOutput {
    EngineOutput {
        results: vec![EngineResult { success: true, gas_used: 21_000, output: "0x".to_string(), error: None, logs_count: None }],
        incarnations: vec![0],
        stats: EngineStats {
            total_gas: 21_000,
            num_transactions: 1,
            num_conflicts: 0,
            num_re_executions: 0,
            per_tx_exec_time_us: vec![10],
        },
        conflict_details: EngineConflictDetails { conflicts: vec![] },
    }
}

#[test]
fn stages_stop_at_the_first_failure() {
    match prepare_simulation(Err(CompileError::NoContracts), Some(1)) {
        Err(SimulationFailure::Compile(CompileError::NoContracts)) => {}
        _ => panic!("a compile failure stops the simulation"),
    }
    let bad_abi = CompileResult {
        contract_name: "C".to_string(),
        abi_json: "not json".to_string(),
        bytecode: "00".to_string(),
        storage_layout: String::new(),
    };
    match prepare_simulation(Ok(bad_abi), Some(1)) {
        Err(SimulationFailure::Build(BuildError::AbiParse(_))) => {}
        _ => panic!("a build failure stops the simulation"),
    }
    match finish_simulation(Err(EngineError::Killed), 1) {
        Err(SimulationFailure::Engine(EngineError::Killed)) => {}
        _ => panic!("an engine failure is reported"),
    }
}

#[test]
fn completion_counts_streamed_events() {
    let result = match finish_simulation(Ok(one_result_output()), 1) {
        Ok(r) => r,
        Err(_) => panic!("maps"),
    };
    let stats = completion_stats(&result);
    // One commit and the closing chord of three notes.
    assert_eq!(stats.total_events, 4);
    assert_eq!(stats.total_gas, 21_000);
    assert_eq!(stats.num_transactions, 1);
    assert_eq!(stats.num_conflicts, 0);
    assert_eq!(stats.num_re_executions, 0);
}

#[test]
fn client_message_blank_source_follows_unicode_white_space() {
    assert_eq!(
        check_client_message(&message("simulate", Some("\u{3000}\u{00A0} "))),
        Err("missing or empty source field".to_string())
    );
    assert_eq!(check_client_message(&message("simulate", Some("\u{200B}"))), Ok(()));
}
