use monad_core::mip4_reserve::{
    decode_abi_address, encode_abi_bool, has_address_dipped, mark_address_dipped,
    mip4_reserve_address, reserve_balance_check, reset_dipped_tracker, DippedIntoReserve,
    PrecompileError, ReserveBalanceConfig, MIP4_GAS_COST,
};
use monad_core::primitives::Address;

fn abi_encode_address(addr: &Address) -> Vec<u8> {
    let mut encoded = vec![0u8; 12];
    encoded.extend_from_slice(&addr.to_bytes());
    assert_eq!(encoded.len(), 32);
    encoded
}

#[test]
fn mip4_precompile_address_is_0x20() {
    assert_eq!(mip4_reserve_address(), Address::with_last_byte(0x20), "MIP-4 precompile should be at address 0x20");
}

#[test]
fn mip4_valid_input_not_dipped_returns_true() {
    let mut tracker = DippedIntoReserve::new();
    reset_dipped_tracker(&mut tracker);
    let input = abi_encode_address(&Address::with_last_byte(0xAA));

    let result = reserve_balance_check(&tracker, &input, 200).expect("should succeed");
    assert_eq!(result.gas_used, MIP4_GAS_COST, "gas used should be {}", MIP4_GAS_COST);
    let mut expected = [0u8; 32];
    expected[31] = 1;
    assert_eq!(result.bytes.as_slice(), &expected, "Address that has NOT dipped should return 0x01");
}

#[test]
fn mip4_valid_input_dipped_returns_false() {
    let mut tracker = DippedIntoReserve::new();
    let addr = Address::with_last_byte(0xBB);
    mark_address_dipped(&mut tracker, addr);

    let input = abi_encode_address(&addr);
    let result = reserve_balance_check(&tracker, &input, 200).expect("should succeed");
    assert_eq!(result.gas_used, MIP4_GAS_COST);
    let expected = [0u8; 32];
    assert_eq!(result.bytes.as_slice(), &expected, "Address that HAS dipped should return 0x00");
}

#[test]
fn mip4_invalid_input_length_too_short() {
    let tracker = DippedIntoReserve::new();
    let result = reserve_balance_check(&tracker, &vec![0u8; 20], 200);
    assert!(result.is_err(), "Should error on short input");
    match result.unwrap_err() {
        PrecompileError::Other(msg) => {
            assert!(msg.contains("invalid input length"), "Error should mention invalid input length, got: {}", msg);
            assert_eq!(msg, "MIP-4: invalid input length 20, expected 32");
        }
        other => panic!("Expected Other error, got: {:?}", other),
    }
}

#[test]
fn mip4_invalid_input_length_too_long() {
    let tracker = DippedIntoReserve::new();
    assert!(reserve_balance_check(&tracker, &vec![0u8; 64], 200).is_err(), "Should error on long input");
}

#[test]
fn mip4_invalid_input_length_empty() {
    let tracker = DippedIntoReserve::new();
    assert!(reserve_balance_check(&tracker, &[], 200).is_err(), "Should error on empty input");
}

#[test]
fn mip4_out_of_gas() {
    let tracker = DippedIntoReserve::new();
    let input = abi_encode_address(&Address::with_last_byte(0xCC));
    let result = reserve_balance_check(&tracker, &input, MIP4_GAS_COST - 1);
    assert!(result.is_err(), "Should error with insufficient gas");
    assert_eq!(result.unwrap_err(), PrecompileError::OutOfGas, "Should be OutOfGas error");
}

#[test]
fn out_of_gas_is_checked_before_the_length() {
    let tracker = DippedIntoReserve::new();
    assert_eq!(reserve_balance_check(&tracker, &[], 0), Err(PrecompileError::OutOfGas));
}

#[test]
fn mip4_gas_cost_exactly_sufficient() {
    let tracker = DippedIntoReserve::new();
    let input = abi_encode_address(&Address::with_last_byte(0xDD));
    let result = reserve_balance_check(&tracker, &input, MIP4_GAS_COST);
    assert!(result.is_ok(), "Should succeed with exact gas: {:?}", result.as_ref().err());
    assert_eq!(result.unwrap().gas_used, MIP4_GAS_COST);
}

#[test]
fn mip4_abi_encoding_roundtrip() {
    let original = Address::with_last_byte(0xEE);
    let decoded = decode_abi_address(&abi_encode_address(&original)).expect("should decode");
    assert_eq!(decoded, original, "ABI encoding/decoding should roundtrip");
}

#[test]
fn mip4_abi_encoding_full_address() {
    let addr = Address::new([
        0x01, 0x23, 0x45, 0x67, 0x89, 0xAB, 0xCD, 0xEF, 0xFE, 0xDC, 0xBA, 0x98, 0x76, 0x54, 0x32, 0x10, 0xDE,
        0xAD, 0xBE, 0xEF,
    ]);
    let decoded = decode_abi_address(&abi_encode_address(&addr)).expect("should decode");
    assert_eq!(decoded, addr, "Full address should roundtrip through ABI encoding");
}

#[test]
fn decode_ignores_padding_bytes() {
    let mut word = abi_encode_address(&Address::with_last_byte(0x42));
    word[0] = 0xFF;
    assert_eq!(decode_abi_address(&word), Ok(Address::with_last_byte(0x42)));
}

#[test]
fn mip4_tracker_reset_clears_state() {
    let mut tracker = DippedIntoReserve::new();
    let addr = Address::with_last_byte(0xFF);
    mark_address_dipped(&mut tracker, addr);
    assert!(has_address_dipped(&tracker, &addr), "Should be marked as dipped");
    reset_dipped_tracker(&mut tracker);
    assert!(!has_address_dipped(&tracker, &addr), "Should be cleared after reset");
}

#[test]
fn mip4_multiple_addresses_independent() {
    let mut tracker = DippedIntoReserve::new();
    let addr1 = Address::with_last_byte(0x01);
    let addr2 = Address::with_last_byte(0x02);
    let addr3 = Address::with_last_byte(0x03);
    mark_address_dipped(&mut tracker, addr2);
    assert!(!has_address_dipped(&tracker, &addr1), "addr1 should not be dipped");
    assert!(has_address_dipped(&tracker, &addr2), "addr2 should be dipped");
    assert!(!has_address_dipped(&tracker, &addr3), "addr3 should not be dipped");
}

#[test]
fn encode_abi_bool_words() {
    let t = encode_abi_bool(true);
    let f = encode_abi_bool(false);
    assert_eq!(t.len(), 32);
    assert_eq!(t[31], 1);
    assert_eq!(f, vec![0u8; 32]);
}

#[test]
fn mip4_config_default() {
    let config = ReserveBalanceConfig::default();
    assert_eq!(
        config.default_reserve_threshold, 1_000_000_000_000_000_000,
        "Default threshold should be 1 ETH in wei"
    );
}
