use monad_core::mv_database::{location_to_string, MvDatabase, MvDatabaseError};
use monad_core::mv_hashmap::MVHashMap;
use monad_core::mv_types::{LocationKey, MvReadResult, ReadOrigin, WriteValue};
use monad_core::primitives::{Address, B256, U256};
use monad_core::read_write_sets::{ReadSet, WriteSet};
use monad_core::state::InMemoryState;
use monad_core::types::{AccountInfo, EvmError};

fn test_addr() -> Address {
    Address::with_last_byte(0x01)
}

fn u(v: u64) -> U256 {
    U256::from_u64(v)
}

// ---- ReadSet ----

#[test]
fn read_set_records_and_iterates() {
    let mut rs = ReadSet::new();
    assert!(rs.is_empty());
    rs.record(LocationKey::Balance(test_addr()), ReadOrigin::Storage);
    rs.record(LocationKey::Nonce(test_addr()), ReadOrigin::MvHashMap { tx_index: 0, incarnation: 0 });
    assert_eq!(rs.len(), 2);
    assert!(!rs.is_empty());
}

#[test]
fn read_set_validate_passes_when_unchanged() {
    let mut mv = MVHashMap::new();
    let addr = test_addr();
    mv.write(LocationKey::Balance(addr), 0, 0, WriteValue::Balance(u(100)));
    let mut rs = ReadSet::new();
    rs.record(LocationKey::Balance(addr), ReadOrigin::MvHashMap { tx_index: 0, incarnation: 0 });
    assert!(rs.validate(&mv, 1));
}

#[test]
fn read_set_validate_fails_when_new_write_appears() {
    let mut mv = MVHashMap::new();
    let addr = test_addr();
    let mut rs = ReadSet::new();
    rs.record(LocationKey::Balance(addr), ReadOrigin::Storage);
    mv.write(LocationKey::Balance(addr), 0, 0, WriteValue::Balance(u(999)));
    assert!(!rs.validate(&mv, 1));
}

#[test]
fn read_set_validate_fails_on_estimate() {
    let mut mv = MVHashMap::new();
    let addr = test_addr();
    mv.write(LocationKey::Balance(addr), 0, 0, WriteValue::Balance(u(100)));
    let mut rs = ReadSet::new();
    rs.record(LocationKey::Balance(addr), ReadOrigin::MvHashMap { tx_index: 0, incarnation: 0 });
    mv.mark_estimate(0);
    assert!(!rs.validate(&mv, 1));
}

#[test]
fn read_set_validate_fails_on_version_change() {
    let mut mv = MVHashMap::new();
    let addr = test_addr();
    mv.write(LocationKey::Balance(addr), 0, 0, WriteValue::Balance(u(100)));
    let mut rs = ReadSet::new();
    rs.record(LocationKey::Balance(addr), ReadOrigin::MvHashMap { tx_index: 0, incarnation: 0 });
    mv.write(LocationKey::Balance(addr), 0, 1, WriteValue::Balance(u(200)));
    assert!(!rs.validate(&mv, 1));
}

#[test]
fn read_set_validate_passes_for_storage_reads() {
    let mv = MVHashMap::new();
    let mut rs = ReadSet::new();
    rs.record(LocationKey::Storage(test_addr(), u(5)), ReadOrigin::Storage);
    assert!(rs.validate(&mv, 1));
}

#[test]
fn read_set_validate_passes_for_not_found_reads() {
    let mv = MVHashMap::new();
    let mut rs = ReadSet::new();
    rs.record(LocationKey::Balance(test_addr()), ReadOrigin::NotFound);
    assert!(rs.validate(&mv, 1));
}

#[test]
fn read_set_validate_fails_when_mvhashmap_read_cleared() {
    let mut mv = MVHashMap::new();
    let addr = test_addr();
    mv.write(LocationKey::Balance(addr), 0, 0, WriteValue::Balance(u(100)));
    let mut rs = ReadSet::new();
    rs.record(LocationKey::Balance(addr), ReadOrigin::MvHashMap { tx_index: 0, incarnation: 0 });
    mv.clear(0);
    assert!(!rs.validate(&mv, 1));
}

#[test]
fn read_set_ignores_writes_of_later_transactions() {
    let mut mv = MVHashMap::new();
    let mut rs = ReadSet::new();
    rs.record(LocationKey::Balance(test_addr()), ReadOrigin::Storage);
    mv.write(LocationKey::Balance(test_addr()), 5, 0, WriteValue::Balance(u(1)));
    assert!(rs.validate(&mv, 1), "a write of tx 5 is invisible to tx 1");
}

// ---- WriteSet ----

#[test]
fn write_set_records_and_iterates() {
    let mut ws = WriteSet::new();
    assert!(ws.is_empty());
    ws.record(LocationKey::Balance(test_addr()), WriteValue::Balance(u(500)));
    ws.record(LocationKey::Nonce(test_addr()), WriteValue::Nonce(3));
    assert_eq!(ws.len(), 2);
    assert!(!ws.is_empty());
}

#[test]
fn write_set_apply_publishes_to_mvhashmap() {
    let mut mv = MVHashMap::new();
    let addr = test_addr();
    let mut ws = WriteSet::new();
    ws.record(LocationKey::Balance(addr), WriteValue::Balance(u(1000)));
    ws.record(LocationKey::Storage(addr, u(0)), WriteValue::Storage(u(42)));

    ws.apply_to(&mut mv, 0, 0);

    match mv.read(&LocationKey::Balance(addr), 1) {
        MvReadResult::Value(WriteValue::Balance(v), 0, 0) => assert_eq!(v, u(1000)),
        other => panic!("expected Balance(1000) from tx=0 inc=0, got {:?}", other),
    }
    match mv.read(&LocationKey::Storage(addr, u(0)), 1) {
        MvReadResult::Value(WriteValue::Storage(v), 0, 0) => assert_eq!(v, u(42)),
        other => panic!("expected Storage(42) from tx=0 inc=0, got {:?}", other),
    }
}

#[test]
fn write_set_apply_with_incarnation() {
    let mut mv = MVHashMap::new();
    let addr = test_addr();
    let mut ws = WriteSet::new();
    ws.record(LocationKey::Balance(addr), WriteValue::Balance(u(2000)));
    ws.apply_to(&mut mv, 0, 2);
    match mv.read(&LocationKey::Balance(addr), 1) {
        MvReadResult::Value(WriteValue::Balance(v), 0, 2) => assert_eq!(v, u(2000)),
        other => panic!("expected Balance(2000) at inc=2, got {:?}", other),
    }
}

#[test]
fn write_set_overwrites_same_location() {
    let mut ws = WriteSet::new();
    ws.record(LocationKey::Balance(test_addr()), WriteValue::Balance(u(100)));
    ws.record(LocationKey::Balance(test_addr()), WriteValue::Balance(u(200)));
    assert_eq!(ws.len(), 1);
    let (_, v) = ws.iter()[0];
    assert_eq!(v, WriteValue::Balance(u(200)));
}

// ---- MVHashMap ----

#[test]
fn mvhashmap_reads_latest_earlier_writer() {
    let mut mv = MVHashMap::new();
    let loc = LocationKey::Nonce(test_addr());
    mv.write(loc, 1, 0, WriteValue::Nonce(1));
    mv.write(loc, 3, 0, WriteValue::Nonce(3));
    assert_eq!(mv.read(&loc, 0), MvReadResult::NotFound);
    assert_eq!(mv.read(&loc, 2), MvReadResult::Value(WriteValue::Nonce(1), 1, 0));
    assert_eq!(mv.read(&loc, 3), MvReadResult::Value(WriteValue::Nonce(1), 1, 0));
    assert_eq!(mv.read(&loc, 9), MvReadResult::Value(WriteValue::Nonce(3), 3, 0));
    mv.mark_estimate(3);
    assert_eq!(mv.read(&loc, 9), MvReadResult::Estimate(3));
    mv.clear(3);
    assert_eq!(mv.read(&loc, 9), MvReadResult::Value(WriteValue::Nonce(1), 1, 0));
}

// ---- MvDatabase ----

fn make_base_state() -> InMemoryState {
    InMemoryState::new()
        .with_account(test_addr(), AccountInfo::new(u(1000), 5))
        .with_storage(test_addr(), u(0), u(42))
}

#[test]
fn basic_reads_from_base_state() {
    let mv = MVHashMap::new();
    let base = make_base_state();
    let mut db = MvDatabase::new(&mv, &base, 0);

    let acct = db.basic(test_addr()).unwrap().unwrap();
    assert_eq!(acct.balance, u(1000));
    assert_eq!(acct.nonce, 5);

    let rs = db.take_read_set();
    assert_eq!(rs.len(), 3);
    for (_, origin) in rs.iter() {
        assert!(matches!(origin, ReadOrigin::Storage));
    }
}

#[test]
fn storage_reads_from_base_state() {
    let mv = MVHashMap::new();
    let base = make_base_state();
    let mut db = MvDatabase::new(&mv, &base, 0);

    assert_eq!(db.storage(test_addr(), u(0)).unwrap(), u(42));
    let rs = db.take_read_set();
    assert_eq!(rs.len(), 1);
    let (loc, origin) = rs.iter()[0];
    assert!(matches!(loc, LocationKey::Storage(_, _)));
    assert!(matches!(origin, ReadOrigin::Storage));
}

#[test]
fn basic_reads_balance_from_mvhashmap() {
    let mut mv = MVHashMap::new();
    let base = make_base_state();
    mv.write(LocationKey::Balance(test_addr()), 0, 0, WriteValue::Balance(u(9999)));

    let mut db = MvDatabase::new(&mv, &base, 1);
    let acct = db.basic(test_addr()).unwrap().unwrap();
    assert_eq!(acct.balance, u(9999));
    assert_eq!(acct.nonce, 5);

    let rs = db.take_read_set();
    assert_eq!(rs.len(), 3);
    let mut mv_count = 0;
    let mut storage_count = 0;
    for (_, origin) in rs.iter() {
        match origin {
            ReadOrigin::MvHashMap { .. } => mv_count += 1,
            ReadOrigin::Storage => storage_count += 1,
            _ => {}
        }
    }
    assert_eq!(mv_count, 1);
    assert_eq!(storage_count, 2);
}

#[test]
fn storage_reads_from_mvhashmap() {
    let mut mv = MVHashMap::new();
    let base = make_base_state();
    mv.write(LocationKey::Storage(test_addr(), u(0)), 0, 0, WriteValue::Storage(u(999)));

    let mut db = MvDatabase::new(&mv, &base, 1);
    assert_eq!(db.storage(test_addr(), u(0)).unwrap(), u(999));
    let rs = db.take_read_set();
    assert_eq!(rs.len(), 1);
    let (_, origin) = rs.iter()[0];
    assert!(matches!(origin, ReadOrigin::MvHashMap { tx_index: 0, incarnation: 0 }));
}

#[test]
fn basic_returns_error_on_estimate_balance() {
    let mut mv = MVHashMap::new();
    let base = make_base_state();
    mv.write(LocationKey::Balance(test_addr()), 0, 0, WriteValue::Balance(u(100)));
    mv.mark_estimate(0);

    let mut db = MvDatabase::new(&mv, &base, 1);
    let result = db.basic(test_addr());
    assert!(result.is_err());
    match &result.unwrap_err().0 {
        EvmError::ReadEstimate { tx_index, .. } => assert_eq!(*tx_index, 0),
        other => panic!("expected ReadEstimate, got {:?}", other),
    }
}

#[test]
fn storage_returns_error_on_estimate() {
    let mut mv = MVHashMap::new();
    let base = make_base_state();
    mv.write(LocationKey::Storage(test_addr(), u(0)), 0, 0, WriteValue::Storage(u(42)));
    mv.mark_estimate(0);

    let mut db = MvDatabase::new(&mv, &base, 1);
    let result = db.storage(test_addr(), u(0));
    assert!(result.is_err());
    match &result.unwrap_err().0 {
        EvmError::ReadEstimate { tx_index, .. } => assert_eq!(*tx_index, 0),
        other => panic!("expected ReadEstimate, got {:?}", other),
    }
}

#[test]
fn estimate_error_names_the_location() {
    let mut mv = MVHashMap::new();
    let base = make_base_state();
    mv.write(LocationKey::Storage(test_addr(), u(7)), 0, 0, WriteValue::Storage(u(42)));
    mv.mark_estimate(0);
    let mut db = MvDatabase::new(&mv, &base, 1);
    let err = db.storage(test_addr(), u(7)).unwrap_err();
    assert_eq!(
        err,
        MvDatabaseError(EvmError::ReadEstimate {
            tx_index: 0,
            location: "Storage(0x0000000000000000000000000000000000000001, 7)".to_string(),
        })
    );
    assert_eq!(
        location_to_string(&LocationKey::Balance(test_addr())),
        "Balance(0x0000000000000000000000000000000000000001)"
    );
}

#[test]
fn code_by_hash_goes_to_base_state() {
    let mv = MVHashMap::new();
    let base = make_base_state();
    let mut db = MvDatabase::new(&mv, &base, 0);
    let code = db.code_by_hash(B256::zero()).unwrap();
    assert!(code.is_empty());
    let rs = db.take_read_set();
    assert!(rs.is_empty(), "code_by_hash should not record reads");
}

#[test]
fn block_hash_goes_to_base_state() {
    let mv = MVHashMap::new();
    let base = InMemoryState::new().with_block_hash(100, B256::with_last_byte(0xAA));
    let mut db = MvDatabase::new(&mv, &base, 0);
    assert_eq!(db.block_hash(100).unwrap(), B256::with_last_byte(0xAA));
    let rs = db.take_read_set();
    assert!(rs.is_empty(), "block_hash should not record reads");
}

#[test]
fn write_set_not_populated_during_reads() {
    let mv = MVHashMap::new();
    let base = make_base_state();
    let mut db = MvDatabase::new(&mv, &base, 0);
    let _ = db.basic(test_addr()).unwrap();
    let _ = db.storage(test_addr(), u(0)).unwrap();
    let ws = db.take_write_set();
    assert!(ws.is_empty(), "WriteSet must not contain reads");
}

#[test]
fn record_write_populates_write_set() {
    let mv = MVHashMap::new();
    let base = make_base_state();
    let mut db = MvDatabase::new(&mv, &base, 0);
    db.record_write(LocationKey::Balance(test_addr()), WriteValue::Balance(u(500)));
    db.record_write(LocationKey::Storage(test_addr(), u(1)), WriteValue::Storage(u(77)));
    let ws = db.take_write_set();
    assert_eq!(ws.len(), 2);
}

#[test]
fn take_sets_resets_to_empty() {
    let mv = MVHashMap::new();
    let base = make_base_state();
    let mut db = MvDatabase::new(&mv, &base, 0);
    db.record_write(LocationKey::Balance(test_addr()), WriteValue::Balance(u(500)));
    let _ = db.basic(test_addr()).unwrap();

    let rs = db.take_read_set();
    let ws = db.take_write_set();
    assert!(!rs.is_empty());
    assert!(!ws.is_empty());

    let rs2 = db.take_read_set();
    let ws2 = db.take_write_set();
    assert!(rs2.is_empty());
    assert!(ws2.is_empty());
}

#[test]
fn basic_records_three_separate_field_reads() {
    let mut mv = MVHashMap::new();
    let base = make_base_state();
    mv.write(LocationKey::Balance(test_addr()), 0, 0, WriteValue::Balance(u(2000)));
    mv.write(LocationKey::Nonce(test_addr()), 1, 0, WriteValue::Nonce(10));
    mv.write(LocationKey::CodeHash(test_addr()), 2, 0, WriteValue::CodeHash(B256::with_last_byte(0xFF)));

    let mut db = MvDatabase::new(&mv, &base, 3);
    let acct = db.basic(test_addr()).unwrap().unwrap();
    assert_eq!(acct.balance, u(2000));
    assert_eq!(acct.nonce, 10);
    assert_eq!(acct.code_hash, B256::with_last_byte(0xFF));

    let rs = db.take_read_set();
    assert_eq!(rs.len(), 3);
    let reads: std::collections::BTreeMap<LocationKey, ReadOrigin> = rs.iter().into_iter().collect();
    assert_eq!(reads[&LocationKey::Balance(test_addr())], ReadOrigin::MvHashMap { tx_index: 0, incarnation: 0 });
    assert_eq!(reads[&LocationKey::Nonce(test_addr())], ReadOrigin::MvHashMap { tx_index: 1, incarnation: 0 });
    assert_eq!(reads[&LocationKey::CodeHash(test_addr())], ReadOrigin::MvHashMap { tx_index: 2, incarnation: 0 });
}

#[test]
fn basic_returns_none_for_missing_account() {
    let mv = MVHashMap::new();
    let base = InMemoryState::new();
    let mut db = MvDatabase::new(&mv, &base, 0);
    assert!(db.basic(test_addr()).unwrap().is_none());
}

#[test]
fn tx_index_getter() {
    let mv = MVHashMap::new();
    let base = InMemoryState::new();
    let db = MvDatabase::new(&mv, &base, 42);
    assert_eq!(db.tx_index(), 42);
}

#[test]
fn read_set_validates_correctly_after_basic() {
    let mut mv = MVHashMap::new();
    let base = make_base_state();
    mv.write(LocationKey::Balance(test_addr()), 0, 0, WriteValue::Balance(u(9999)));

    let rs = {
        let mut db = MvDatabase::new(&mv, &base, 1);
        let _ = db.basic(test_addr()).unwrap();
        db.take_read_set()
    };
    assert!(rs.validate(&mv, 1));

    mv.write(LocationKey::Balance(test_addr()), 0, 1, WriteValue::Balance(u(5555)));
    assert!(!rs.validate(&mv, 1));
}

#[test]
fn taken_writes_are_the_recorded_writes_in_order() {
    let mv = MVHashMap::new();
    let base = make_base_state();
    let mut db = MvDatabase::new(&mv, &base, 0);
    db.record_write(LocationKey::Balance(test_addr()), WriteValue::Balance(u(1)));
    let _ = db.basic(test_addr()).unwrap();
    db.record_write(LocationKey::Balance(test_addr()), WriteValue::Balance(u(2)));
    let _ = db.storage(test_addr(), u(0)).unwrap();
    db.record_write(LocationKey::Nonce(test_addr()), WriteValue::Nonce(7));
    let ws = db.take_write_set();
    let entries: Vec<(LocationKey, WriteValue)> = ws.iter();
    assert_eq!(entries.len(), 2);
    assert!(entries.contains(&(LocationKey::Balance(test_addr()), WriteValue::Balance(u(2)))));
    assert!(entries.contains(&(LocationKey::Nonce(test_addr()), WriteValue::Nonce(7))));
    // Taking the writes leaves the reads; a second take is empty.
    assert!(!db.take_read_set().is_empty());
    assert!(db.take_write_set().is_empty());
}

#[test]
fn basic_sees_an_account_created_earlier_in_the_block() {
    let mut mv = MVHashMap::new();
    let base = InMemoryState::new();
    mv.write(LocationKey::Balance(test_addr()), 0, 0, WriteValue::Balance(u(0)));
    let mut db = MvDatabase::new(&mv, &base, 1);
    let acct = db.basic(test_addr()).unwrap().expect("an earlier transaction created the account");
    assert_eq!(acct.balance, u(0));
    assert_eq!(acct.nonce, 0);
    assert_eq!(acct.code_hash, monad_core::types::keccak_empty());
    assert!(acct.code.is_none());
}
