//! A read-through cache in front of any `StateProvider`.
//!
//! Each read first looks in the cache; on a miss it asks the inner provider,
//! keeps the answer (including "no such account" and zero storage) and
//! returns it. Hits and misses are counted.

use vstd::prelude::*;

use crate::primitives::{Address, B256, U256};
use crate::sorted_map::SortedMap;
use crate::state::{account_result_view, bytes_result_view, StateProvider, StorageKey};
use crate::types::{AccountInfo, AccountView, Bytes, EvmError};

verus! {

/// The view of a cached account entry.
pub open spec fn opt_account_view(o: Option<AccountInfo>) -> Option<AccountView> {
    match o {
        Some(a) => Some(a@),
        None => None,
    }
}

/// The next value of a statistics counter (counters wrap on overflow).
pub open spec fn counter_next(n: u64) -> u64 {
    if n == u64::MAX {
        0
    } else {
        (n + 1) as u64
    }
}

fn bump(n: u64) -> (r: u64)
    ensures
        r == counter_next(n),
{
    if n == u64::MAX {
        0
    } else {
        n + 1
    }
}

fn clone_opt_account(o: &Option<AccountInfo>) -> (r: Option<AccountInfo>)
    ensures
        opt_account_view(r) == opt_account_view(*o),
{
    match o {
        Some(a) => Some(a.clone()),
        None => None,
    }
}

/// A read-through caching decorator for a state provider.
pub struct CachedStateProvider<S: StateProvider> {
    inner: S,
    accounts: SortedMap<Address, Option<AccountInfo>>,
    storage: SortedMap<StorageKey, U256>,
    code: SortedMap<B256, Bytes>,
    block_hashes: SortedMap<u64, B256>,
    hits: u64,
    misses: u64,
}

impl<S: StateProvider> CachedStateProvider<S> {
    /// Every cached entry is what the inner provider answers for its key.
    #[verifier::type_invariant]
    closed spec fn wf(&self) -> bool {
        &&& self.accounts.wf()
        &&& self.storage.wf()
        &&& self.code.wf()
        &&& self.block_hashes.wf()
        &&& forall|a: Address| #[trigger]
            self.accounts@.contains_key(a) ==> self.inner.spec_basic_account(a) == Ok::<
                Option<AccountView>,
                EvmError,
            >(opt_account_view(self.accounts@[a]))
        &&& forall|k: StorageKey| #[trigger]
            self.storage@.contains_key(k) ==> self.inner.spec_storage(k.address, k.slot) == Ok::<
                U256,
                EvmError,
            >(self.storage@[k])
        &&& forall|h: B256| #[trigger]
            self.code@.contains_key(h) ==> self.inner.spec_code_by_hash(h) == Ok::<
                Seq<u8>,
                EvmError,
            >(self.code@[h]@)
        &&& forall|n: u64| #[trigger]
            self.block_hashes@.contains_key(n) ==> self.inner.spec_block_hash(n) == Ok::<
                B256,
                EvmError,
            >(self.block_hashes@[n])
    }

    /// The provider behind the cache.
    pub closed spec fn inner(&self) -> S {
        self.inner
    }

    /// Number of reads answered from the cache.
    pub closed spec fn hits(&self) -> u64 {
        self.hits
    }

    /// Number of reads that went to the inner provider.
    pub closed spec fn misses(&self) -> u64 {
        self.misses
    }

    pub closed spec fn account_cached(&self, address: Address) -> bool {
        self.accounts@.contains_key(address)
    }

    pub closed spec fn storage_cached(&self, address: Address, slot: U256) -> bool {
        self.storage@.contains_key(StorageKey { address, slot })
    }

    pub closed spec fn code_cached(&self, code_hash: B256) -> bool {
        self.code@.contains_key(code_hash)
    }

    pub closed spec fn block_hash_cached(&self, number: u64) -> bool {
        self.block_hashes@.contains_key(number)
    }

    /// What is cached never leaves the cache.
    pub open spec fn cache_grows(old: &Self, new: &Self) -> bool {
        &&& forall|a: Address| #[trigger] old.account_cached(a) ==> new.account_cached(a)
        &&& forall|a: Address, s: U256| #[trigger]
            old.storage_cached(a, s) ==> new.storage_cached(a, s)
        &&& forall|h: B256| #[trigger] old.code_cached(h) ==> new.code_cached(h)
        &&& forall|n: u64| #[trigger] old.block_hash_cached(n) ==> new.block_hash_cached(n)
    }

    /// The counters after a read that was a hit (`hit`) or a miss that
    /// reached the inner provider successfully (`ok`).
    pub open spec fn counted(old: &Self, new: &Self, hit: bool, ok: bool) -> bool {
        if hit {
            new.hits() == counter_next(old.hits()) && new.misses() == old.misses()
        } else if ok {
            new.hits() == old.hits() && new.misses() == counter_next(old.misses())
        } else {
            new.hits() == old.hits() && new.misses() == old.misses()
        }
    }

    /// A cache in front of `inner`, with empty caches and zero counters.
    pub fn new(inner: S) -> (c: Self)
        ensures
            c.inner() == inner,
            c.hits() == 0,
            c.misses() == 0,
            forall|a: Address| !(#[trigger] c.account_cached(a)),
            forall|a: Address, s: U256| !(#[trigger] c.storage_cached(a, s)),
            forall|h: B256| !(#[trigger] c.code_cached(h)),
            forall|n: u64| !(#[trigger] c.block_hash_cached(n)),
    {
        CachedStateProvider {
            inner,
            accounts: SortedMap::new(),
            storage: SortedMap::new(),
            code: SortedMap::new(),
            block_hashes: SortedMap::new(),
            hits: 0,
            misses: 0,
        }
    }

    /// `(hits, misses)`.
    pub fn stats(&self) -> (r: (u64, u64))
        ensures
            r == (self.hits(), self.misses()),
    {
        (self.hits, self.misses)
    }

    /// The account at `address`, as the inner provider reports it.
    pub fn basic_account(&mut self, address: Address) -> (r: Result<Option<AccountInfo>, EvmError>)
        ensures
            account_result_view(r) == old(self).inner().spec_basic_account(address),
            final(self).inner() == old(self).inner(),
            Self::cache_grows(old(self), final(self)),
            r is Ok ==> final(self).account_cached(address),
            Self::counted(old(self), final(self), old(self).account_cached(address), r is Ok),
    {
        proof {
            use_type_invariant(&*self);
        }
        match self.accounts.get(&address) {
            Some(entry) => {
                let r = clone_opt_account(entry);
                self.hits = bump(self.hits);
                return Ok(r);
            },
            None => {},
        }
        let result = match self.inner.basic_account(address) {
            Ok(a) => a,
            Err(e) => {
                return Err(e);
            },
        };
        let cached = clone_opt_account(&result);
        let mut m = SortedMap::new();
        std::mem::swap(&mut m, &mut self.accounts);
        m.insert(address, cached);
        self.accounts = m;
        self.misses = bump(self.misses);
        Ok(result)
    }

    /// The storage value at `(address, slot)`, as the inner provider reports it.
    pub fn storage(&mut self, address: Address, slot: U256) -> (r: Result<U256, EvmError>)
        ensures
            r == old(self).inner().spec_storage(address, slot),
            final(self).inner() == old(self).inner(),
            Self::cache_grows(old(self), final(self)),
            r is Ok ==> final(self).storage_cached(address, slot),
            Self::counted(old(self), final(self), old(self).storage_cached(address, slot), r is Ok),
    {
        proof {
            use_type_invariant(&*self);
        }
        let key = StorageKey { address, slot };
        match self.storage.get(&key) {
            Some(v) => {
                let r = *v;
                self.hits = bump(self.hits);
                return Ok(r);
            },
            None => {},
        }
        let result = match self.inner.storage(address, slot) {
            Ok(v) => v,
            Err(e) => {
                return Err(e);
            },
        };
        let mut m = SortedMap::new();
        std::mem::swap(&mut m, &mut self.storage);
        m.insert(key, result);
        self.storage = m;
        self.misses = bump(self.misses);
        Ok(result)
    }

    /// The code stored under `code_hash`, as the inner provider reports it.
    pub fn code_by_hash(&mut self, code_hash: B256) -> (r: Result<Bytes, EvmError>)
        ensures
            bytes_result_view(r) == old(self).inner().spec_code_by_hash(code_hash),
            final(self).inner() == old(self).inner(),
            Self::cache_grows(old(self), final(self)),
            r is Ok ==> final(self).code_cached(code_hash),
            Self::counted(old(self), final(self), old(self).code_cached(code_hash), r is Ok),
    {
        proof {
            use_type_invariant(&*self);
        }
        match self.code.get(&code_hash) {
            Some(c) => {
                let r = c.clone();
                assert(r@ =~= c@);
                self.hits = bump(self.hits);
                return Ok(r);
            },
            None => {},
        }
        let result = match self.inner.code_by_hash(code_hash) {
            Ok(c) => c,
            Err(e) => {
                return Err(e);
            },
        };
        let cached = result.clone();
        assert(cached@ =~= result@);
        let mut m = SortedMap::new();
        std::mem::swap(&mut m, &mut self.code);
        m.insert(code_hash, cached);
        self.code = m;
        self.misses = bump(self.misses);
        Ok(result)
    }

    /// The hash of block `number`, as the inner provider reports it.
    pub fn block_hash(&mut self, number: u64) -> (r: Result<B256, EvmError>)
        ensures
            r == old(self).inner().spec_block_hash(number),
            final(self).inner() == old(self).inner(),
            Self::cache_grows(old(self), final(self)),
            r is Ok ==> final(self).block_hash_cached(number),
            Self::counted(old(self), final(self), old(self).block_hash_cached(number), r is Ok),
    {
        proof {
            use_type_invariant(&*self);
        }
        match self.block_hashes.get(&number) {
            Some(h) => {
                let r = *h;
                self.hits = bump(self.hits);
                return Ok(r);
            },
            None => {},
        }
        let result = match self.inner.block_hash(number) {
            Ok(h) => h,
            Err(e) => {
                return Err(e);
            },
        };
        let mut m = SortedMap::new();
        std::mem::swap(&mut m, &mut self.block_hashes);
        m.insert(number, result);
        self.block_hashes = m;
        self.misses = bump(self.misses);
        Ok(result)
    }
}

} // verus!
