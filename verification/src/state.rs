//! Base state: the `StateProvider` abstraction, the in-memory state and a
//! read-through cache over any provider.

use vstd::prelude::*;

use crate::primitives::{Address, KeyOrder, OrderedKey, B256, U256};
use crate::sorted_map::{entries_map, SortedMap};
use crate::types::{AccountInfo, AccountView, Bytes, EvmError};

verus! {

/// The view of an account lookup result.
pub open spec fn account_result_view(r: Result<Option<AccountInfo>, EvmError>) -> Result<
    Option<AccountView>,
    EvmError,
> {
    match r {
        Ok(Some(a)) => Ok(Some(a@)),
        Ok(None) => Ok(None),
        Err(e) => Err(e),
    }
}

/// The view of a code lookup result.
pub open spec fn bytes_result_view(r: Result<Bytes, EvmError>) -> Result<Seq<u8>, EvmError> {
    match r {
        Ok(b) => Ok(b@),
        Err(e) => Err(e),
    }
}

/// Read access to blockchain state: accounts, storage, code, block hashes.
///
/// Each read is a function of the provider and its arguments, named by the
/// matching `spec_` function.
pub trait StateProvider {
    spec fn spec_basic_account(&self, address: Address) -> Result<Option<AccountView>, EvmError>;

    spec fn spec_storage(&self, address: Address, slot: U256) -> Result<U256, EvmError>;

    spec fn spec_code_by_hash(&self, code_hash: B256) -> Result<Seq<u8>, EvmError>;

    spec fn spec_block_hash(&self, number: u64) -> Result<B256, EvmError>;

    fn basic_account(&self, address: Address) -> (r: Result<Option<AccountInfo>, EvmError>)
        ensures
            account_result_view(r) == self.spec_basic_account(address),
    ;

    fn storage(&self, address: Address, slot: U256) -> (r: Result<U256, EvmError>)
        ensures
            r == self.spec_storage(address, slot),
    ;

    fn code_by_hash(&self, code_hash: B256) -> (r: Result<Bytes, EvmError>)
        ensures
            bytes_result_view(r) == self.spec_code_by_hash(code_hash),
    ;

    fn block_hash(&self, number: u64) -> (r: Result<B256, EvmError>)
        ensures
            r == self.spec_block_hash(number),
    ;
}

/// A storage location: contract address and slot.
#[derive(Clone, Copy, PartialEq, Eq, Structural, Debug, Hash, PartialOrd, Ord)]
pub struct StorageKey {
    pub address: Address,
    pub slot: U256,
}

impl OrderedKey for StorageKey {
    open spec fn key_lt(self, other: Self) -> bool {
        self.address.key_lt(other.address) || (self.address == other.address
            && self.slot.key_lt(other.slot))
    }

    proof fn lemma_key_lt_irreflexive(x: Self) {
    }

    proof fn lemma_key_lt_transitive(x: Self, y: Self, z: Self) {
    }

    proof fn lemma_key_lt_total(x: Self, y: Self) {
    }

    fn compare(&self, other: &Self) -> (c: KeyOrder) {
        match self.address.compare(&other.address) {
            KeyOrder::Equal => self.slot.compare(&other.slot),
            c => c,
        }
    }
}

/// The contents of an in-memory state.
pub struct StateView {
    pub accounts: Map<Address, AccountView>,
    pub storage: Map<StorageKey, U256>,
    pub code: Map<B256, Seq<u8>>,
    pub block_hashes: Map<u64, B256>,
}

/// In-memory state, kept sorted by key so snapshots are deterministic.
pub struct InMemoryState {
    accounts: SortedMap<Address, AccountInfo>,
    storage: SortedMap<StorageKey, U256>,
    code: SortedMap<B256, Bytes>,
    block_hashes: SortedMap<u64, B256>,
}

impl InMemoryState {
    #[verifier::type_invariant]
    pub closed spec fn wf(&self) -> bool {
        &&& self.accounts.wf()
        &&& self.storage.wf()
        &&& self.code.wf()
        &&& self.block_hashes.wf()
    }

    pub closed spec fn view(&self) -> StateView {
        StateView {
            accounts: self.accounts@.map_values(|a: AccountInfo| a@),
            storage: self.storage@,
            code: self.code@.map_values(|b: Bytes| b@),
            block_hashes: self.block_hashes@,
        }
    }

    /// Accounts in increasing address order.
    pub closed spec fn account_entries(&self) -> Seq<(Address, AccountInfo)> {
        self.accounts.entries()
    }

    /// Storage values in increasing (address, slot) order.
    pub closed spec fn storage_entries(&self) -> Seq<(StorageKey, U256)> {
        self.storage.entries()
    }

    /// The sorted entries list exactly the accounts and storage values.
    pub proof fn lemma_entries(&self)
        requires
            self.wf(),
        ensures
            crate::sorted_map::strictly_sorted(self.account_entries()),
            crate::sorted_map::strictly_sorted(self.storage_entries()),
            self@.accounts == entries_map(self.account_entries()).map_values(|a: AccountInfo| a@),
            self@.storage == entries_map(self.storage_entries()),
            self@.accounts.dom().finite(),
            self@.accounts.dom().len() == self.account_entries().len(),
            self@.storage.dom().finite(),
            self@.storage.dom().len() == self.storage_entries().len(),
    {
        self.accounts.lemma_wf();
        self.storage.lemma_wf();
        assert(self@.accounts.dom() =~= self.accounts@.dom());
    }

    /// An empty state.
    pub fn new() -> (s: InMemoryState)
        ensures
            s@.accounts == Map::<Address, AccountView>::empty(),
            s@.storage == Map::<StorageKey, U256>::empty(),
            s@.code == Map::<B256, Seq<u8>>::empty(),
            s@.block_hashes == Map::<u64, B256>::empty(),
    {
        let s = InMemoryState {
            accounts: SortedMap::new(),
            storage: SortedMap::new(),
            code: SortedMap::new(),
            block_hashes: SortedMap::new(),
        };
        assert(s@.accounts =~= Map::<Address, AccountView>::empty());
        assert(s@.code =~= Map::<B256, Seq<u8>>::empty());
        s
    }

    /// A copy of the state.
    pub fn clone(&self) -> (r: InMemoryState)
        ensures
            r@ == self@,
    {
        proof {
            use_type_invariant(self);
        }
        let accounts = self.accounts.clone_entries();
        let storage = self.storage.clone_entries();
        let code = self.code.clone_entries();
        let block_hashes = self.block_hashes.clone_entries();
        let r = InMemoryState { accounts, storage, code, block_hashes };
        proof {
            self.accounts.lemma_wf();
            self.storage.lemma_wf();
            self.code.lemma_wf();
            self.block_hashes.lemma_wf();
            r.accounts.lemma_wf();
            r.storage.lemma_wf();
            r.code.lemma_wf();
            r.block_hashes.lemma_wf();
            assert forall|i: int| 0 <= i < r.code.entries().len() implies #[trigger] r.code.entries()[
                i].1@ == self.code.entries()[i].1@ by {
                assert(r.code.entries()[i].0 == self.code.entries()[i].0);
                assert(r.code.entries()[i].1@ =~= self.code.entries()[i].1@);
            }
            assert forall|i: int| 0 <= i < r.accounts.entries().len() implies #[trigger] r.accounts.entries()[
                i].1@ == self.accounts.entries()[i].1@ by {
                assert(r.accounts.entries()[i].0 == self.accounts.entries()[i].0);
            }
            assert forall|i: int| 0 <= i < r.storage.entries().len() implies #[trigger] r.storage.entries()[
                i] == self.storage.entries()[i] by {
                assert(r.storage.entries()[i].0 == self.storage.entries()[i].0);
            }
            assert forall|i: int| 0 <= i < r.block_hashes.entries().len() implies #[trigger] r.block_hashes.entries()[
                i] == self.block_hashes.entries()[i] by {
                assert(r.block_hashes.entries()[i].0 == self.block_hashes.entries()[i].0);
            }
            assert(r.storage.entries() =~= self.storage.entries());
            assert(r.block_hashes.entries() =~= self.block_hashes.entries());
            assert(r@.accounts =~= self@.accounts) by {
                assert forall|a: Address| #[trigger] r@.accounts.contains_key(a) <==> self@.accounts.contains_key(a) by {
                    if r.accounts@.contains_key(a) {
                        let i = choose|i: int| 0 <= i < r.accounts.entries().len() && r.accounts.entries()[i].0 == a;
                        assert(self.accounts.entries()[i].0 == a);
                    }
                    if self.accounts@.contains_key(a) {
                        let i = choose|i: int| 0 <= i < self.accounts.entries().len() && self.accounts.entries()[i].0 == a;
                        assert(r.accounts.entries()[i].0 == a);
                    }
                }
                assert forall|a: Address| #[trigger] r@.accounts.contains_key(a) implies r@.accounts[a] == self@.accounts[a] by {
                    let i = choose|i: int| 0 <= i < r.accounts.entries().len() && r.accounts.entries()[i].0 == a;
                    assert(self.accounts.entries()[i].0 == a);
                }
            }
            assert(r@.code =~= self@.code) by {
                assert forall|h: B256| #[trigger] r@.code.contains_key(h) <==> self@.code.contains_key(h) by {
                    if r.code@.contains_key(h) {
                        let i = choose|i: int| 0 <= i < r.code.entries().len() && r.code.entries()[i].0 == h;
                        assert(self.code.entries()[i].0 == h);
                    }
                    if self.code@.contains_key(h) {
                        let i = choose|i: int| 0 <= i < self.code.entries().len() && self.code.entries()[i].0 == h;
                        assert(r.code.entries()[i].0 == h);
                    }
                }
                assert forall|h: B256| #[trigger] r@.code.contains_key(h) implies r@.code[h] == self@.code[h] by {
                    let i = choose|i: int| 0 <= i < r.code.entries().len() && r.code.entries()[i].0 == h;
                    assert(self.code.entries()[i].0 == h);
                }
            }
        }
        r
    }

    /// Adds (or replaces) an account; returns the state for chaining.
    pub fn with_account(self, address: Address, info: AccountInfo) -> (s: InMemoryState)
        ensures
            s@ == (StateView { accounts: self@.accounts.insert(address, info@), ..self@ }),
    {
        let mut s = self;
        s.insert_account(address, info);
        s
    }

    /// Adds (or replaces) a storage value; returns the state for chaining.
    pub fn with_storage(self, address: Address, slot: U256, value: U256) -> (s: InMemoryState)
        ensures
            s@ == (StateView {
                storage: self@.storage.insert(StorageKey { address, slot }, value),
                ..self@
            }),
    {
        let mut s = self;
        s.insert_storage(address, slot, value);
        s
    }

    /// Adds (or replaces) contract code; returns the state for chaining.
    pub fn with_code(self, code_hash: B256, bytecode: Bytes) -> (s: InMemoryState)
        ensures
            s@ == (StateView { code: self@.code.insert(code_hash, bytecode@), ..self@ }),
    {
        let mut s = self;
        s.insert_code(code_hash, bytecode);
        s
    }

    /// Adds (or replaces) a block hash; returns the state for chaining.
    pub fn with_block_hash(self, number: u64, hash: B256) -> (s: InMemoryState)
        ensures
            s@ == (StateView { block_hashes: self@.block_hashes.insert(number, hash), ..self@ }),
    {
        let mut s = self;
        s.insert_block_hash(number, hash);
        s
    }

    /// Inserts or replaces an account.
    pub fn insert_account(&mut self, address: Address, info: AccountInfo)
        ensures
            final(self)@ == (StateView {
                accounts: old(self)@.accounts.insert(address, info@),
                ..old(self)@
            }),
    {
        proof {
            use_type_invariant(&*self);
        }
        let ghost v = info@;
        let mut m = SortedMap::new();
        std::mem::swap(&mut m, &mut self.accounts);
        m.insert(address, info);
        self.accounts = m;
        assert(self@.accounts =~= old(self)@.accounts.insert(address, v));
    }

    /// The account stored at `address`, if any.
    pub fn get_account(&self, address: &Address) -> (r: Option<&AccountInfo>)
        ensures
            r is Some <==> self@.accounts.contains_key(*address),
            r is Some ==> r.unwrap()@ == self@.accounts[*address],
    {
        proof {
            use_type_invariant(self);
        }
        self.accounts.get(address)
    }

    /// Inserts or replaces a storage value.
    pub fn insert_storage(&mut self, address: Address, slot: U256, value: U256)
        ensures
            final(self)@ == (StateView {
                storage: old(self)@.storage.insert(StorageKey { address, slot }, value),
                ..old(self)@
            }),
    {
        proof {
            use_type_invariant(&*self);
        }
        let mut m = SortedMap::new();
        std::mem::swap(&mut m, &mut self.storage);
        m.insert(StorageKey { address, slot }, value);
        self.storage = m;
    }

    /// The storage value at `(address, slot)`, zero when unset.
    pub fn get_storage(&self, address: &Address, slot: &U256) -> (v: U256)
        ensures
            v == (if self@.storage.contains_key(StorageKey { address: *address, slot: *slot }) {
                self@.storage[StorageKey { address: *address, slot: *slot }]
            } else {
                U256 { hi: 0, lo: 0 }
            }),
    {
        proof {
            use_type_invariant(self);
        }
        match self.storage.get(&StorageKey { address: *address, slot: *slot }) {
            Some(v) => *v,
            None => U256::zero(),
        }
    }

    /// Inserts or replaces contract code.
    pub fn insert_code(&mut self, code_hash: B256, bytecode: Bytes)
        ensures
            final(self)@ == (StateView {
                code: old(self)@.code.insert(code_hash, bytecode@),
                ..old(self)@
            }),
    {
        proof {
            use_type_invariant(&*self);
        }
        let ghost v = bytecode@;
        let mut m = SortedMap::new();
        std::mem::swap(&mut m, &mut self.code);
        m.insert(code_hash, bytecode);
        self.code = m;
        assert(self@.code =~= old(self)@.code.insert(code_hash, v));
    }

    /// Inserts or replaces a block hash.
    pub fn insert_block_hash(&mut self, number: u64, hash: B256)
        ensures
            final(self)@ == (StateView {
                block_hashes: old(self)@.block_hashes.insert(number, hash),
                ..old(self)@
            }),
    {
        proof {
            use_type_invariant(&*self);
        }
        let mut m = SortedMap::new();
        std::mem::swap(&mut m, &mut self.block_hashes);
        m.insert(number, hash);
        self.block_hashes = m;
    }

    /// All accounts in increasing address order.
    pub fn accounts(&self) -> (v: Vec<(Address, AccountInfo)>)
        ensures
            v@.len() == self.account_entries().len(),
            forall|i: int|
                0 <= i < v@.len() ==> (#[trigger] v@[i]).0 == self.account_entries()[i].0 && v@[i].1@
                    == self.account_entries()[i].1@,
    {
        proof {
            use_type_invariant(self);
        }
        let n = self.accounts.len();
        let mut v: Vec<(Address, AccountInfo)> = Vec::new();
        let mut i: usize = 0;
        while i < n
            invariant
                self.wf(),
                n == self.account_entries().len(),
                i <= n,
                v@.len() == i,
                forall|j: int|
                    0 <= j < i ==> (#[trigger] v@[j]).0 == self.account_entries()[j].0 && v@[j].1@
                        == self.account_entries()[j].1@,
            decreases n - i,
        {
            let e = self.accounts.entry_at(i);
            v.push((e.0, e.1.clone()));
            i = i + 1;
        }
        v
    }

    /// All storage values in increasing (address, slot) order.
    pub fn all_storage(&self) -> (v: Vec<(StorageKey, U256)>)
        ensures
            v@ == self.storage_entries(),
    {
        proof {
            use_type_invariant(self);
        }
        let n = self.storage.len();
        let mut v: Vec<(StorageKey, U256)> = Vec::new();
        let mut i: usize = 0;
        while i < n
            invariant
                self.wf(),
                n == self.storage_entries().len(),
                i <= n,
                v@ == self.storage_entries().take(i as int),
            decreases n - i,
        {
            let e = *self.storage.entry_at(i);
            v.push(e);
            assert(self.storage_entries().take(i + 1) =~= self.storage_entries().take(i as int).push(e));
            i = i + 1;
        }
        assert(self.storage_entries().take(n as int) =~= self.storage_entries());
        v
    }
}

impl StateProvider for InMemoryState {
    open spec fn spec_basic_account(&self, address: Address) -> Result<Option<AccountView>, EvmError> {
        if self@.accounts.contains_key(address) {
            Ok(Some(self@.accounts[address]))
        } else {
            Ok(None)
        }
    }

    open spec fn spec_storage(&self, address: Address, slot: U256) -> Result<U256, EvmError> {
        if self@.storage.contains_key(StorageKey { address, slot }) {
            Ok(self@.storage[StorageKey { address, slot }])
        } else {
            Ok(U256 { hi: 0, lo: 0 })
        }
    }

    open spec fn spec_code_by_hash(&self, code_hash: B256) -> Result<Seq<u8>, EvmError> {
        if self@.code.contains_key(code_hash) {
            Ok(self@.code[code_hash])
        } else {
            Ok(Seq::empty())
        }
    }

    open spec fn spec_block_hash(&self, number: u64) -> Result<B256, EvmError> {
        if self@.block_hashes.contains_key(number) {
            Ok(self@.block_hashes[number])
        } else {
            Ok(B256 { hi: 0, lo: 0 })
        }
    }

    fn basic_account(&self, address: Address) -> (r: Result<Option<AccountInfo>, EvmError>) {
        proof {
            use_type_invariant(self);
        }
        match self.accounts.get(&address) {
            Some(a) => Ok(Some(a.clone())),
            None => Ok(None),
        }
    }

    fn storage(&self, address: Address, slot: U256) -> (r: Result<U256, EvmError>) {
        Ok(self.get_storage(&address, &slot))
    }

    fn code_by_hash(&self, code_hash: B256) -> (r: Result<Bytes, EvmError>) {
        proof {
            use_type_invariant(self);
        }
        match self.code.get(&code_hash) {
            Some(c) => {
                let r = c.clone();
                assert(r@ =~= c@);
                Ok(r)
            },
            None => Ok(Vec::new()),
        }
    }

    fn block_hash(&self, number: u64) -> (r: Result<B256, EvmError>) {
        proof {
            use_type_invariant(self);
        }
        match self.block_hashes.get(&number) {
            Some(h) => Ok(*h),
            None => Ok(B256::zero()),
        }
    }
}

} // verus!
