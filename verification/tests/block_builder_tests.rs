use std::collections::HashMap;

use monad_core::block_builder::{
    build, compute_create_address, default_abi_word, default_repeat_count, deployer,
    generate_senders, rlp_encode_u64, BuildError, CompileResult, NUM_SENDERS,
};
use monad_core::primitives::Address;

const COUNTER_ABI: &str = r#"[{"inputs":[],"name":"count","outputs":[{"internalType":"uint256","name":"","type":"uint256"}],"stateMutability":"view","type":"function"},{"inputs":[],"name":"decrement","outputs":[],"stateMutability":"nonpayable","type":"function"},{"inputs":[],"name":"increment","outputs":[],"stateMutability":"nonpayable","type":"function"}]"#;

const SIMPLE_ABI: &str =
    r#"[{"inputs":[],"name":"set","outputs":[],"stateMutability":"nonpayable","type":"function"}]"#;

fn compiled(name: &str, abi: &str) -> CompileResult {
    CompileResult {
        contract_name: name.to_string(),
        abi_json: abi.to_string(),
        bytecode: "6080604052348015600e575f80fd5b50".to_string(),
        storage_layout: r#"{"storage":[],"types":{}}"#.to_string(),
    }
}

fn addr_from_hex(h: &str) -> Address {
    let mut b = [0u8; 20];
    for i in 0..20 {
        b[i] = u8::from_str_radix(&h[2 * i..2 * i + 2], 16).unwrap();
    }
    Address::new(b)
}

#[test]
fn test_compute_create_address() {
    let addr = compute_create_address(generate_senders(NUM_SENDERS)[0], 0);
    assert_ne!(addr, Address::zero());
    let addr2 = compute_create_address(generate_senders(NUM_SENDERS)[0], 0);
    assert_eq!(addr, addr2);
    let addr3 = compute_create_address(generate_senders(NUM_SENDERS)[0], 1);
    assert_ne!(addr, addr3);
}

#[test]
fn create_address_known_vectors() {
    let sender = addr_from_hex("6ac7ea33f8831ea9dcc53393aaa88b25a785dbf0");
    assert_eq!(compute_create_address(sender, 0), addr_from_hex("cd234a471b72ba2f1ccf0a70fcaba648a5eecd8d"));
    assert_eq!(compute_create_address(sender, 1), addr_from_hex("343c43a37d37dff08ae8c4a11544c718abb4fcf8"));
}

#[test]
fn rlp_of_small_and_large_nonces() {
    assert_eq!(rlp_encode_u64(0), vec![0x80]);
    assert_eq!(rlp_encode_u64(1), vec![0x01]);
    assert_eq!(rlp_encode_u64(127), vec![0x7f]);
    assert_eq!(rlp_encode_u64(128), vec![0x81, 0x80]);
    assert_eq!(rlp_encode_u64(0x0102), vec![0x82, 0x01, 0x02]);
    assert_eq!(rlp_encode_u64(u64::MAX), vec![0x88, 0xff, 0xff, 0xff, 0xff, 0xff, 0xff, 0xff, 0xff]);
}

#[test]
fn test_default_abi_word_address() {
    let sender = generate_senders(NUM_SENDERS)[0];
    let word = default_abi_word("address", sender);
    assert_eq!(&word[12..], sender.to_bytes().as_slice());
}

#[test]
fn test_default_abi_word_uint256() {
    let word = default_abi_word("uint256", Address::zero());
    assert_eq!(word[31], 1);
    assert!(word[..31].iter().all(|&b| b == 0));
}

#[test]
fn test_default_abi_word_bool() {
    let word = default_abi_word("bool", Address::zero());
    assert_eq!(word[31], 1);
}

#[test]
fn default_abi_word_other_types_are_zero() {
    assert_eq!(default_abi_word("bytes32", Address::with_last_byte(9)), [0u8; 32]);
    assert_eq!(default_abi_word("int8", Address::zero())[31], 1);
}

#[test]
fn test_sender_rotation() {
    let mut addrs: Vec<Address> = generate_senders(NUM_SENDERS);
    addrs.sort();
    addrs.dedup();
    assert_eq!(addrs.len(), NUM_SENDERS, "all senders should be unique");
}

#[test]
fn senders_use_the_e0_prefix() {
    let senders = generate_senders(300);
    assert_eq!(senders[0], deployer());
    assert_eq!(senders[0].to_bytes()[17..], [0xE0, 0x00, 0x01]);
    assert_eq!(senders[255].to_bytes()[17..], [0xE0, 0x01, 0x00]);
}

#[test]
fn test_default_repeat_count() {
    assert_eq!(default_repeat_count(2), 150);
    assert_eq!(default_repeat_count(3), 100);
    assert_eq!(default_repeat_count(1), 300);
    assert_eq!(default_repeat_count(0), 1);
    assert_eq!(default_repeat_count(600), 1);
}

#[test]
fn test_build_no_state_changing_functions() {
    let compile_result = CompileResult {
        contract_name: "ViewOnly".to_string(),
        abi_json: r#"[{"type":"function","name":"get","inputs":[],"outputs":[{"type":"uint256"}],"stateMutability":"view"}]"#.to_string(),
        bytecode: "6080604052".to_string(),
        storage_layout: r#"{"storage":[],"types":{}}"#.to_string(),
    };
    let result = build(&compile_result, Some(1));
    assert!(result.is_err());
    match result.err().unwrap() {
        BuildError::NoStateChangingFunctions => {}
        other => panic!("expected NoStateChangingFunctions, got: {other:?}"),
    }
}

#[test]
fn build_rejects_bad_abi_and_bad_hex() {
    let mut bad_abi = compiled("X", "not json");
    match build(&bad_abi, Some(1)).err().unwrap() {
        BuildError::AbiParse(m) => assert!(!m.is_empty()),
        other => panic!("expected AbiParse, got: {other:?}"),
    }
    bad_abi.abi_json = SIMPLE_ABI.to_string();
    bad_abi.bytecode = "zz".to_string();
    match build(&bad_abi, Some(1)).err().unwrap() {
        BuildError::AbiParse(m) => assert!(m.starts_with("invalid bytecode hex: ")),
        other => panic!("expected AbiParse, got: {other:?}"),
    }
}

#[test]
fn test_build_counter_contract() {
    let build_result = build(&compiled("Counter", COUNTER_ABI), Some(1)).expect("build should succeed");

    assert!(build_result.transactions[0].to.is_none(), "tx[0] should be deploy");
    assert_eq!(build_result.tx_function_map[0], "constructor");
    assert!(build_result.transactions.len() >= 3);

    let contract_addr = build_result.transactions[1].to.unwrap();
    for tx in &build_result.transactions[1..] {
        assert_eq!(tx.to.unwrap(), contract_addr, "all calls should target deployed contract");
    }
    assert_eq!(build_result.tx_function_map.len(), build_result.transactions.len());

    let call_senders: Vec<Address> = build_result.transactions[1..].iter().map(|tx| tx.sender).collect();
    assert_ne!(call_senders[0], call_senders[1], "different functions should use different senders");

    // The calls target the CREATE address of the deployer at nonce 0 and carry the selectors.
    assert_eq!(contract_addr, compute_create_address(deployer(), 0));
    assert_eq!(build_result.tx_function_map, vec!["constructor", "decrement", "increment"]);
    assert_eq!(build_result.transactions[1].data, vec![0x2b, 0xae, 0xce, 0xb7]);
    assert_eq!(build_result.transactions[2].data, vec![0xd0, 0x9d, 0xe0, 0x8a]);
    assert_eq!(
        build_result.transactions[0].data,
        vec![0x60, 0x80, 0x60, 0x40, 0x52, 0x34, 0x80, 0x15, 0x60, 0x0e, 0x57, 0x5f, 0x80, 0xfd, 0x5b, 0x50]
    );
}

#[test]
fn test_build_block_env_defaults() {
    let build_result = build(&compiled("Simple", SIMPLE_ABI), Some(1)).expect("build");
    assert_eq!(build_result.block_env.number, 1);
    assert_eq!(build_result.block_env.gas_limit, 30_000_000);
    assert_eq!(build_result.block_env.coinbase, Address::with_last_byte(0xFF));
}

#[test]
fn test_build_with_repeat_count() {
    let result = build(&compiled("Counter", COUNTER_ABI), Some(5)).expect("build");
    assert_eq!(result.transactions.len(), 11, "1 deploy + 2*5 = 11 txs");
    assert!(result.transactions[0].to.is_none(), "tx[0] is deploy");
    for tx in &result.transactions[1..] {
        assert!(tx.to.is_some(), "call txs should have target address");
    }
    for i in 1..result.transactions.len() {
        let name = &result.tx_function_map[i];
        assert!(name == "increment" || name == "decrement", "unexpected function name: {name}");
    }
}

#[test]
fn test_build_with_none_repeat_count_auto_computes() {
    let result = build(&compiled("Counter", COUNTER_ABI), None).expect("build");
    assert_eq!(result.transactions.len(), 301, "auto repeat_count for 2 fns should produce 301 txs");
}

#[test]
fn test_build_nonce_correctness_with_repeat() {
    let result = build(&compiled("Simple", SIMPLE_ABI), Some(10)).expect("build");
    assert_eq!(result.transactions.len(), 11);

    let mut nonce_check: HashMap<Address, Vec<u64>> = HashMap::new();
    for tx in &result.transactions[1..] {
        nonce_check.entry(tx.sender).or_default().push(tx.nonce);
    }
    for (addr, nonces) in &nonce_check {
        let base_nonce = if *addr == deployer() { 1u64 } else { 0u64 };
        for (i, &nonce) in nonces.iter().enumerate() {
            assert_eq!(nonce, base_nonce + i as u64, "sender {addr:?}: nonce at position {i}");
        }
    }
}

#[test]
fn senders_wrap_back_to_the_deployer_after_a_full_rotation() {
    // 64 calls: senders 1..63, then sender 0 (the deployer, whose next nonce is 1).
    let result = build(&compiled("Simple", SIMPLE_ABI), Some(64)).expect("build");
    assert_eq!(result.transactions.len(), 65);
    let last = &result.transactions[64];
    assert_eq!(last.sender, deployer());
    assert_eq!(last.nonce, 1);
    assert_eq!(result.transactions[1].sender, generate_senders(2)[1]);
}

#[test]
fn build_error_messages() {
    assert_eq!(BuildError::AbiParse("x".to_string()).to_string(), "failed to parse ABI: x");
    assert_eq!(
        BuildError::NoStateChangingFunctions.to_string(),
        "no state-changing functions found in contract"
    );
}
