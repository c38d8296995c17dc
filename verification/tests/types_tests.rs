use monad_core::primitives::{Address, B256, U256};
use monad_core::types::{
    AccountInfo, BlockEnv, BlockResult, EvmError, ExecutionResult, Log, Receipt, Transaction,
};

#[test]
fn test_error_display() {
    let err = EvmError::TransactionValidation("nonce too low".to_string());
    assert_eq!(err.to_string(), "transaction validation failed: nonce too low");
}

#[test]
fn test_state_access_error() {
    let err = EvmError::StateAccess("database connection lost".to_string());
    assert!(err.to_string().contains("database connection lost"));
}

#[test]
fn test_precompile_error() {
    let err = EvmError::Precompile {
        address: "0x01".to_string(),
        reason: "invalid input length".to_string(),
    };
    assert_eq!(err.to_string(), "precompile error at 0x01: invalid input length");
}

#[test]
fn test_error_is_send_sync() {
    fn assert_send_sync<T: Send + Sync>() {}
    assert_send_sync::<EvmError>();
}

#[test]
fn test_reexports_accessible() {
    let _addr = Address::zero();
    let _b256 = B256::zero();
    let _u256 = U256::zero();
    let _tx = Transaction {
        sender: Address::zero(),
        to: None,
        value: U256::zero(),
        data: vec![],
        gas_limit: 0,
        nonce: 0,
        gas_price: U256::zero(),
    };
    let _receipt = Receipt { success: true, cumulative_gas_used: 0, logs: vec![], contract_address: None };
    let _log = Log { address: Address::zero(), topics: vec![], data: vec![] };
    let _err = EvmError::Internal("test".to_string());
}

#[test]
fn test_alloy_primitives_reexported() {
    let addr = Address::zero();
    let val = U256::from_u64(42);
    let hash = B256::zero();
    let data: Vec<u8> = Vec::new();
    assert_eq!(addr, Address::zero());
    assert_eq!(val, U256::from_u64(42));
    assert_eq!(hash, B256::zero());
    assert!(data.is_empty());
}

#[test]
fn test_transaction_create_detection() {
    let create_tx = Transaction {
        sender: Address::zero(),
        to: None,
        value: U256::zero(),
        data: vec![0x60, 0x00],
        gas_limit: 100_000,
        nonce: 0,
        gas_price: U256::from_u64(1),
    };
    assert!(create_tx.is_create());
    let call_tx = Transaction {
        sender: Address::zero(),
        to: Some(Address::with_last_byte(1)),
        value: U256::from_u64(100),
        data: vec![],
        gas_limit: 21_000,
        nonce: 1,
        gas_price: U256::from_u64(1),
    };
    assert!(!call_tx.is_create());
}

#[test]
fn test_execution_result_variants() {
    let success = ExecutionResult::Success { gas_used: 21_000, output: vec![], logs: vec![] };
    assert!(success.is_success());
    assert_eq!(success.gas_used(), 21_000);
    let revert = ExecutionResult::Revert { gas_used: 50_000, output: vec![0x08] };
    assert!(!revert.is_success());
    let halt = ExecutionResult::Halt { gas_used: 30_000_000, reason: "OutOfGas".to_string() };
    assert!(!halt.is_success());
}

#[test]
fn test_block_env_has_sane_defaults() {
    let env = BlockEnv::default();
    assert!(env.gas_limit > 0, "default gas limit should be non-zero");
    assert_eq!(env.number, 0);
}

#[test]
fn test_error_display_messages() {
    let errors: Vec<EvmError> = vec![
        EvmError::TransactionValidation("nonce mismatch".into()),
        EvmError::StateAccess("db error".into()),
        EvmError::Internal("panic".into()),
        EvmError::Precompile { address: "0x01".into(), reason: "bad input".into() },
        EvmError::InvalidBlockEnv("negative timestamp".into()),
    ];
    for err in &errors {
        let msg = err.to_string();
        assert!(!msg.is_empty(), "error display should not be empty");
    }
}

#[test]
fn test_execution_result_success() {
    let result = ExecutionResult::Success { gas_used: 21_000, output: vec![], logs: vec![] };
    assert!(result.is_success());
    assert_eq!(result.gas_used(), 21_000);
}

#[test]
fn test_execution_result_revert() {
    let result = ExecutionResult::Revert { gas_used: 15_000, output: vec![0x08, 0xc3, 0x79, 0xa0] };
    assert!(!result.is_success());
    assert_eq!(result.gas_used(), 15_000);
}

#[test]
fn test_execution_result_halt() {
    let result = ExecutionResult::Halt { gas_used: 100_000, reason: "OutOfGas".to_string() };
    assert!(!result.is_success());
    assert_eq!(result.gas_used(), 100_000);
}

#[test]
fn test_log_creation() {
    let log = Log { address: Address::with_last_byte(0x01), topics: vec![B256::zero()], data: vec![0xAB, 0xCD] };
    assert_eq!(log.topics.len(), 1);
    assert_eq!(log.data.len(), 2);
}

#[test]
fn test_receipt_creation() {
    let receipt = Receipt { success: true, cumulative_gas_used: 21_000, logs: vec![], contract_address: None };
    assert!(receipt.success);
    assert_eq!(receipt.cumulative_gas_used, 21_000);
    assert!(receipt.contract_address.is_none());
}

#[test]
fn test_receipt_with_contract_address() {
    let receipt = Receipt {
        success: true,
        cumulative_gas_used: 53_000,
        logs: vec![],
        contract_address: Some(Address::with_last_byte(0xCC)),
    };
    assert!(receipt.contract_address.is_some());
}

#[test]
fn test_block_result_creation() {
    let receipt = Receipt { success: true, cumulative_gas_used: 21_000, logs: vec![], contract_address: None };
    let block_result = BlockResult {
        state_root: B256::with_last_byte(0xAA),
        receipts: vec![receipt.clone()],
        gas_used: 21_000,
        logs: vec![],
    };
    assert_eq!(block_result.state_root, B256::with_last_byte(0xAA));
    assert_eq!(block_result.receipts.len(), 1);
    assert_eq!(block_result.gas_used, 21_000);
    assert!(block_result.logs.is_empty());
}

#[test]
fn test_block_result_empty_block() {
    let block_result = BlockResult { state_root: B256::zero(), receipts: vec![], gas_used: 0, logs: vec![] };
    assert_eq!(block_result.state_root, B256::zero());
    assert!(block_result.receipts.is_empty());
    assert_eq!(block_result.gas_used, 0);
}

#[test]
fn test_block_result_equality() {
    let br1 = BlockResult { state_root: B256::with_last_byte(0x01), receipts: vec![], gas_used: 42_000, logs: vec![] };
    let br2 = br1.clone();
    assert_eq!(br1, br2);
}

#[test]
fn eoa_account_uses_empty_code_hash() {
    let a = AccountInfo::new(U256::from_u64(5), 1);
    let mut digest = Vec::new();
    a.code_hash.push_bytes(&mut digest);
    assert_eq!(hex::encode(digest), "c5d2460186f7233c927e7db2dcc703c0e500b653ca82273b7bfad8045d85a470");
    assert!(a.code.is_none());
}

#[test]
fn read_estimate_error_message() {
    let e = EvmError::ReadEstimate { tx_index: 12, location: "Balance(0x01)".to_string() };
    assert_eq!(e.to_string(), "read hit ESTIMATE of tx 12 at Balance(0x01)");
}

#[test]
fn keccak_of_empty_input_matches_empty_code_hash() {
    let h = monad_core::primitives::keccak256(&Vec::new());
    assert_eq!(h, monad_core::types::keccak_empty());
    let h2 = monad_core::primitives::keccak256(&b"abc".to_vec());
    let mut bytes = Vec::new();
    h2.push_bytes(&mut bytes);
    assert_eq!(hex::encode(bytes), "4e03657aea45a94fc7d47ba826c8d667c0d1e6e33a64a036ec44f58fa12d6c45");
}

#[test]
fn u256_wrapping_arithmetic() {
    let max = U256 { hi: u128::MAX, lo: u128::MAX };
    assert_eq!(max.wrapping_add(&U256::from_u64(1)), U256::zero());
    assert_eq!(U256::from_u64(3).wrapping_add(&U256::from_u64(4)), U256::from_u64(7));
    let big = U256 { hi: 0, lo: u128::MAX };
    assert_eq!(big.wrapping_add(&U256::from_u64(1)), U256 { hi: 1, lo: 0 });
    assert_eq!(U256::from_u64(1_000_000_000).wrapping_mul_u64(21_000), U256::from_u64(21_000_000_000_000));
    assert_eq!(max.wrapping_mul_u64(2), U256 { hi: u128::MAX, lo: u128::MAX - 1 });
}
