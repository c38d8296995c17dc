use monad_core::cached_provider::CachedStateProvider;
use monad_core::primitives::{Address, B256, U256};
use monad_core::state::{InMemoryState, StateProvider, StorageKey};
use monad_core::types::{keccak_empty, AccountInfo};

#[test]
fn test_insert_and_read_account() {
    let addr = Address::with_last_byte(0x01);
    let info = AccountInfo::new(U256::from_u64(1_000_000), 5);
    let state = InMemoryState::new().with_account(addr, info.clone());
    let result = state.basic_account(addr).unwrap();
    assert_eq!(result, Some(info));
}

#[test]
fn test_missing_account_returns_none() {
    let state = InMemoryState::new();
    let result = state.basic_account(Address::with_last_byte(0xFF)).unwrap();
    assert_eq!(result, None);
}

#[test]
fn test_insert_and_read_storage() {
    let addr = Address::with_last_byte(0x01);
    let slot = U256::from_u64(0);
    let value = U256::from_u64(42);
    let state = InMemoryState::new().with_storage(addr, slot, value);
    assert_eq!(state.storage(addr, slot).unwrap(), value);
}

#[test]
fn test_missing_storage_returns_zero() {
    let state = InMemoryState::new();
    let result = state.storage(Address::with_last_byte(0x01), U256::from_u64(99)).unwrap();
    assert_eq!(result, U256::zero());
}

#[test]
fn test_code_round_trip() {
    let code_hash = B256::with_last_byte(0xAB);
    let bytecode: Vec<u8> = vec![0x60, 0x00, 0x60, 0x00, 0xf3];
    let state = InMemoryState::new().with_code(code_hash, bytecode.clone());
    assert_eq!(state.code_by_hash(code_hash).unwrap(), bytecode);
}

#[test]
fn test_missing_code_returns_empty_bytes() {
    let state = InMemoryState::new();
    assert!(state.code_by_hash(B256::with_last_byte(0xFF)).unwrap().is_empty());
}

#[test]
fn test_block_hash_round_trip() {
    let hash = B256::with_last_byte(0xCC);
    let state = InMemoryState::new().with_block_hash(100, hash);
    assert_eq!(state.block_hash(100).unwrap(), hash);
}

#[test]
fn test_missing_block_hash_returns_zero() {
    let state = InMemoryState::new();
    assert_eq!(state.block_hash(999).unwrap(), B256::zero());
}

#[test]
fn test_builder_chaining() {
    let addr = Address::with_last_byte(0x01);
    let state = InMemoryState::new()
        .with_account(addr, AccountInfo::new(U256::from_u64(100), 0))
        .with_storage(addr, U256::from_u64(0), U256::from_u64(42))
        .with_code(B256::with_last_byte(0xAA), vec![0xFE])
        .with_block_hash(1, B256::with_last_byte(0xBB));
    assert!(state.basic_account(addr).unwrap().is_some());
    assert_eq!(state.storage(addr, U256::from_u64(0)).unwrap(), U256::from_u64(42));
    assert_eq!(state.code_by_hash(B256::with_last_byte(0xAA)).unwrap().len(), 1);
    assert_eq!(state.block_hash(1).unwrap(), B256::with_last_byte(0xBB));
}

#[test]
fn test_mutation_methods() {
    let addr = Address::with_last_byte(0x02);
    let mut state = InMemoryState::new();
    state.insert_account(addr, AccountInfo::new(U256::from_u64(500), 1));
    let acct = state.get_account(&addr).unwrap();
    assert_eq!(acct.balance, U256::from_u64(500));
    assert_eq!(acct.nonce, 1);
    state.insert_storage(addr, U256::from_u64(7), U256::from_u64(99));
    assert_eq!(state.get_storage(&addr, &U256::from_u64(7)), U256::from_u64(99));
    assert_eq!(state.get_storage(&addr, &U256::from_u64(8)), U256::zero());
    let code_hash = B256::with_last_byte(0xDD);
    state.insert_code(code_hash, vec![0x00]);
    assert_eq!(state.code_by_hash(code_hash).unwrap(), vec![0x00]);
}

#[test]
fn test_overwrite_account() {
    let addr = Address::with_last_byte(0x03);
    let mut state = InMemoryState::new().with_account(addr, AccountInfo::new(U256::from_u64(100), 0));
    state.insert_account(addr, AccountInfo::new(U256::from_u64(200), 1));
    let acct = state.get_account(&addr).unwrap();
    assert_eq!(acct.balance, U256::from_u64(200));
    assert_eq!(acct.nonce, 1);
}

#[test]
fn test_state_provider_is_send_sync() {
    fn assert_send_sync<T: Send + Sync>() {}
    assert_send_sync::<InMemoryState>();
}

#[test]
fn test_eoa_account_has_keccak_empty_code_hash() {
    let addr = Address::with_last_byte(0x04);
    let state = InMemoryState::new().with_account(addr, AccountInfo::new(U256::from_u64(1), 0));
    let acct = state.basic_account(addr).unwrap().unwrap();
    assert_eq!(acct.code_hash, keccak_empty());
    assert!(acct.is_empty_code());
}

#[test]
fn test_multiple_storage_slots_same_address() {
    let addr = Address::with_last_byte(0x05);
    let state = InMemoryState::new()
        .with_storage(addr, U256::from_u64(0), U256::from_u64(10))
        .with_storage(addr, U256::from_u64(1), U256::from_u64(20))
        .with_storage(addr, U256::from_u64(2), U256::from_u64(30));
    assert_eq!(state.storage(addr, U256::from_u64(0)).unwrap(), U256::from_u64(10));
    assert_eq!(state.storage(addr, U256::from_u64(1)).unwrap(), U256::from_u64(20));
    assert_eq!(state.storage(addr, U256::from_u64(2)).unwrap(), U256::from_u64(30));
    assert_eq!(state.storage(addr, U256::from_u64(3)).unwrap(), U256::zero());
}

#[test]
fn test_accounts_returns_sorted_btree_map() {
    let addr3 = Address::with_last_byte(0x03);
    let addr1 = Address::with_last_byte(0x01);
    let addr2 = Address::with_last_byte(0x02);
    let state = InMemoryState::new()
        .with_account(addr3, AccountInfo::new(U256::from_u64(300), 3))
        .with_account(addr1, AccountInfo::new(U256::from_u64(100), 1))
        .with_account(addr2, AccountInfo::new(U256::from_u64(200), 2));
    let sorted = state.accounts();
    assert_eq!(sorted.len(), 3);
    let keys: Vec<Address> = sorted.iter().map(|(a, _)| *a).collect();
    assert_eq!(keys, vec![addr1, addr2, addr3]);
    assert_eq!(sorted[0].1.balance, U256::from_u64(100));
    assert_eq!(sorted[1].1.balance, U256::from_u64(200));
    assert_eq!(sorted[2].1.balance, U256::from_u64(300));
}

#[test]
fn test_accounts_empty_state() {
    let state = InMemoryState::new();
    assert!(state.accounts().is_empty());
}

#[test]
fn test_all_storage_returns_sorted_btree_map() {
    let addr2 = Address::with_last_byte(0x02);
    let addr1 = Address::with_last_byte(0x01);
    let state = InMemoryState::new()
        .with_storage(addr2, U256::from_u64(1), U256::from_u64(20))
        .with_storage(addr1, U256::from_u64(0), U256::from_u64(10))
        .with_storage(addr1, U256::from_u64(1), U256::from_u64(15));
    let sorted = state.all_storage();
    assert_eq!(sorted.len(), 3);
    assert_eq!(sorted[0].0, StorageKey { address: addr1, slot: U256::from_u64(0) });
    assert_eq!(sorted[1].0, StorageKey { address: addr1, slot: U256::from_u64(1) });
    assert_eq!(sorted[2].0, StorageKey { address: addr2, slot: U256::from_u64(1) });
}

#[test]
fn test_all_storage_empty_state() {
    let state = InMemoryState::new();
    assert!(state.all_storage().is_empty());
}

#[test]
fn test_accounts_is_deterministic() {
    let addr1 = Address::with_last_byte(0x01);
    let addr2 = Address::with_last_byte(0x02);
    let state_a = InMemoryState::new()
        .with_account(addr1, AccountInfo::new(U256::from_u64(100), 0))
        .with_account(addr2, AccountInfo::new(U256::from_u64(200), 1));
    let state_b = InMemoryState::new()
        .with_account(addr2, AccountInfo::new(U256::from_u64(200), 1))
        .with_account(addr1, AccountInfo::new(U256::from_u64(100), 0));
    assert_eq!(state_a.accounts(), state_b.accounts());
}

fn make_populated_cached() -> CachedStateProvider<InMemoryState> {
    let addr = Address::with_last_byte(0x01);
    let inner = InMemoryState::new()
        .with_account(addr, AccountInfo::new(U256::from_u64(1000), 1))
        .with_storage(addr, U256::from_u64(0), U256::from_u64(42))
        .with_code(B256::with_last_byte(0xAA), vec![0x60, 0x00])
        .with_block_hash(100, B256::with_last_byte(0xBB));
    CachedStateProvider::new(inner)
}

#[test]
fn test_account_miss_then_hit() {
    let mut cached = make_populated_cached();
    let addr = Address::with_last_byte(0x01);
    let result = cached.basic_account(addr).unwrap();
    assert!(result.is_some());
    assert_eq!(result.unwrap().balance, U256::from_u64(1000));
    assert_eq!(cached.stats(), (0, 1));
    let result2 = cached.basic_account(addr).unwrap();
    assert!(result2.is_some());
    assert_eq!(cached.stats(), (1, 1));
}

#[test]
fn test_none_account_is_cached() {
    let mut cached = make_populated_cached();
    let missing_addr = Address::with_last_byte(0xFF);
    assert!(cached.basic_account(missing_addr).unwrap().is_none());
    assert_eq!(cached.stats(), (0, 1));
    assert!(cached.basic_account(missing_addr).unwrap().is_none());
    assert_eq!(cached.stats(), (1, 1));
}

#[test]
fn test_storage_miss_then_hit() {
    let mut cached = make_populated_cached();
    let addr = Address::with_last_byte(0x01);
    let slot = U256::from_u64(0);
    assert_eq!(cached.storage(addr, slot).unwrap(), U256::from_u64(42));
    assert_eq!(cached.stats(), (0, 1));
    assert_eq!(cached.storage(addr, slot).unwrap(), U256::from_u64(42));
    assert_eq!(cached.stats(), (1, 1));
}

#[test]
fn test_storage_zero_is_cached() {
    let mut cached = make_populated_cached();
    let addr = Address::with_last_byte(0x01);
    let missing_slot = U256::from_u64(999);
    assert_eq!(cached.storage(addr, missing_slot).unwrap(), U256::zero());
    assert_eq!(cached.stats(), (0, 1));
    assert_eq!(cached.storage(addr, missing_slot).unwrap(), U256::zero());
    assert_eq!(cached.stats(), (1, 1));
}

#[test]
fn test_code_miss_then_hit() {
    let mut cached = make_populated_cached();
    let code_hash = B256::with_last_byte(0xAA);
    assert_eq!(cached.code_by_hash(code_hash).unwrap(), vec![0x60, 0x00]);
    assert_eq!(cached.stats(), (0, 1));
    assert_eq!(cached.code_by_hash(code_hash).unwrap(), vec![0x60, 0x00]);
    assert_eq!(cached.stats(), (1, 1));
}

#[test]
fn test_block_hash_miss_then_hit() {
    let mut cached = make_populated_cached();
    assert_eq!(cached.block_hash(100).unwrap(), B256::with_last_byte(0xBB));
    assert_eq!(cached.stats(), (0, 1));
    assert_eq!(cached.block_hash(100).unwrap(), B256::with_last_byte(0xBB));
    assert_eq!(cached.stats(), (1, 1));
}

#[test]
fn test_stats_counts_across_all_methods() {
    let mut cached = make_populated_cached();
    let addr = Address::with_last_byte(0x01);
    cached.basic_account(addr).unwrap();
    cached.storage(addr, U256::from_u64(0)).unwrap();
    cached.code_by_hash(B256::with_last_byte(0xAA)).unwrap();
    cached.block_hash(100).unwrap();
    assert_eq!(cached.stats(), (0, 4));
    cached.basic_account(addr).unwrap();
    cached.storage(addr, U256::from_u64(0)).unwrap();
    cached.code_by_hash(B256::with_last_byte(0xAA)).unwrap();
    cached.block_hash(100).unwrap();
    assert_eq!(cached.stats(), (4, 4));
}

#[test]
fn test_cached_state_provider_is_send_sync() {
    fn assert_send_sync<T: Send + Sync>() {}
    assert_send_sync::<CachedStateProvider<InMemoryState>>();
}

#[test]
fn test_cached_provider_as_trait_object() {
    let inner = InMemoryState::new()
        .with_account(Address::with_last_byte(0x01), AccountInfo::new(U256::from_u64(42), 0));
    let mut cached = CachedStateProvider::new(inner);
    let result = cached.basic_account(Address::with_last_byte(0x01)).unwrap();
    assert_eq!(result.unwrap().balance, U256::from_u64(42));
}

#[test]
fn test_new_cache_starts_empty() {
    let cached = CachedStateProvider::new(InMemoryState::new());
    assert_eq!(cached.stats(), (0, 0));
}

#[test]
fn cache_answers_like_inner_provider() {
    let addr = Address::with_last_byte(0x07);
    let inner = InMemoryState::new().with_account(addr, AccountInfo::new(U256::from_u64(9), 3));
    let expected = inner.basic_account(addr).unwrap();
    let mut cached = CachedStateProvider::new(inner);
    for _ in 0..3 {
        assert_eq!(cached.basic_account(addr).unwrap(), expected);
    }
    assert_eq!(cached.stats(), (2, 1));
}
