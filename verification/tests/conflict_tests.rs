use monad_core::conflict::{detect_conflicts, location_key_to_info, ConflictPair, LocationInfo};
use monad_core::mv_types::{LocationKey, ReadOrigin, WriteValue};
use monad_core::primitives::{Address, U256};
use monad_core::read_write_sets::{ReadSet, WriteSet};
use monad_core::types::ExecutionResult;

fn test_addr_1() -> Address {
    Address::with_last_byte(0x01)
}

fn test_addr_2() -> Address {
    Address::with_last_byte(0x02)
}

fn success_result() -> ExecutionResult {
    ExecutionResult::Success { gas_used: 21000, output: vec![], logs: vec![] }
}

fn u(v: u64) -> U256 {
    U256::from_u64(v)
}

#[test]
fn test_location_key_to_info() {
    let info = location_key_to_info(&LocationKey::Storage(test_addr_1(), u(42)));
    assert_eq!(info.location_type, "Storage");
    assert!(info.address.starts_with("0x"));
    assert!(info.slot.is_some());
    assert!(info.slot.as_ref().unwrap().starts_with("0x"));

    let info = location_key_to_info(&LocationKey::Balance(test_addr_1()));
    assert_eq!(info.location_type, "Balance");
    assert!(info.address.starts_with("0x"));
    assert!(info.slot.is_none());

    let info = location_key_to_info(&LocationKey::Nonce(test_addr_1()));
    assert_eq!(info.location_type, "Nonce");
    assert!(info.slot.is_none());

    let info = location_key_to_info(&LocationKey::CodeHash(test_addr_1()));
    assert_eq!(info.location_type, "CodeHash");
    assert!(info.slot.is_none());
}

#[test]
fn location_info_exact_rendering() {
    let info = location_key_to_info(&LocationKey::Storage(test_addr_1(), u(42)));
    assert_eq!(
        info,
        LocationInfo {
            location_type: "Storage".to_string(),
            address: "0x0000000000000000000000000000000000000001".to_string(),
            slot: Some("0x2a".to_string()),
        }
    );
    let zero_slot = location_key_to_info(&LocationKey::Storage(test_addr_2(), u(0)));
    assert_eq!(zero_slot.slot, Some("0x0".to_string()));
}

#[test]
fn test_detect_write_write_conflict() {
    let addr = test_addr_1();
    let mut ws0 = WriteSet::new();
    ws0.record(LocationKey::Balance(addr), WriteValue::Balance(u(100)));
    let mut ws1 = WriteSet::new();
    ws1.record(LocationKey::Balance(addr), WriteValue::Balance(u(200)));
    let tx_results = vec![(success_result(), ws0, ReadSet::new()), (success_result(), ws1, ReadSet::new())];

    let details = detect_conflicts(&tx_results);
    assert_eq!(details.per_tx.len(), 2);
    let ww: Vec<&ConflictPair> = details.conflicts.iter().filter(|c| c.conflict_type == "write-write").collect();
    assert_eq!(ww.len(), 1);
    assert_eq!(ww[0].tx_a, 0);
    assert_eq!(ww[0].tx_b, 1);
    assert_eq!(ww[0].location.location_type, "Balance");
}

#[test]
fn test_detect_read_write_conflict() {
    let addr = test_addr_1();
    let mut rs0 = ReadSet::new();
    rs0.record(LocationKey::Balance(addr), ReadOrigin::Storage);
    let mut ws1 = WriteSet::new();
    ws1.record(LocationKey::Balance(addr), WriteValue::Balance(u(200)));
    let tx_results = vec![(success_result(), WriteSet::new(), rs0), (success_result(), ws1, ReadSet::new())];

    let details = detect_conflicts(&tx_results);
    let rw: Vec<&ConflictPair> = details.conflicts.iter().filter(|c| c.conflict_type == "read-write").collect();
    assert!(!rw.is_empty(), "expected at least one read-write conflict");
    assert_eq!(rw[0].tx_a, 0);
    assert_eq!(rw[0].tx_b, 1);
    assert_eq!(rw[0].location.location_type, "Balance");
}

#[test]
fn test_no_conflict_independent_txs() {
    let (addr1, addr2) = (test_addr_1(), test_addr_2());
    let mut ws0 = WriteSet::new();
    ws0.record(LocationKey::Balance(addr1), WriteValue::Balance(u(100)));
    let mut rs0 = ReadSet::new();
    rs0.record(LocationKey::Nonce(addr1), ReadOrigin::Storage);
    let mut ws1 = WriteSet::new();
    ws1.record(LocationKey::Balance(addr2), WriteValue::Balance(u(200)));
    let mut rs1 = ReadSet::new();
    rs1.record(LocationKey::Nonce(addr2), ReadOrigin::Storage);
    let tx_results = vec![(success_result(), ws0, rs0), (success_result(), ws1, rs1)];

    let details = detect_conflicts(&tx_results);
    assert!(
        details.conflicts.is_empty(),
        "independent txs should produce no conflicts, got {} conflicts",
        details.conflicts.len()
    );
}

#[test]
fn test_per_tx_summary() {
    let addr = test_addr_1();
    let mut ws0 = WriteSet::new();
    ws0.record(LocationKey::Nonce(addr), WriteValue::Nonce(5));
    let mut rs0 = ReadSet::new();
    rs0.record(LocationKey::Balance(addr), ReadOrigin::Storage);
    let tx_results = vec![(success_result(), ws0, rs0)];

    let details = detect_conflicts(&tx_results);
    assert_eq!(details.per_tx.len(), 1);
    let summary = &details.per_tx[0];
    assert_eq!(summary.tx_index, 0);
    assert_eq!(summary.reads.len(), 1);
    assert_eq!(summary.reads[0].location_type, "Balance");
    assert_eq!(summary.writes.len(), 1);
    assert_eq!(summary.writes[0].location_type, "Nonce");
}

#[test]
fn test_empty_tx_results() {
    let details = detect_conflicts(&[]);
    assert!(details.per_tx.is_empty());
    assert!(details.conflicts.is_empty());
}

#[test]
fn test_storage_location_includes_slot() {
    let addr = test_addr_1();
    let mut ws0 = WriteSet::new();
    ws0.record(LocationKey::Storage(addr, u(7)), WriteValue::Storage(u(42)));
    let tx_results = vec![(success_result(), ws0, ReadSet::new())];

    let details = detect_conflicts(&tx_results);
    let write = &details.per_tx[0].writes[0];
    assert_eq!(write.location_type, "Storage");
    assert!(write.slot.is_some());
}

#[test]
fn conflicts_list_write_write_then_both_read_write_directions() {
    let addr = test_addr_1();
    let loc = LocationKey::Balance(addr);
    let mut ws0 = WriteSet::new();
    ws0.record(loc, WriteValue::Balance(u(1)));
    let mut rs0 = ReadSet::new();
    rs0.record(loc, ReadOrigin::Storage);
    let mut ws1 = WriteSet::new();
    ws1.record(loc, WriteValue::Balance(u(2)));
    let mut rs1 = ReadSet::new();
    rs1.record(loc, ReadOrigin::MvHashMap { tx_index: 0, incarnation: 0 });
    let tx_results = vec![(success_result(), ws0, rs0), (success_result(), ws1, rs1)];

    let details = detect_conflicts(&tx_results);
    let kinds: Vec<(usize, usize, String)> =
        details.conflicts.iter().map(|c| (c.tx_a, c.tx_b, c.conflict_type.clone())).collect();
    assert_eq!(
        kinds,
        vec![
            (0, 1, "write-write".to_string()),
            (0, 1, "read-write".to_string()),
            (0, 1, "read-write".to_string()),
        ]
    );
}
