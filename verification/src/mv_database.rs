//! The state one transaction sees during Block-STM execution.
//!
//! Every read goes to the multi-version state first (to see the writes of
//! earlier transactions of the block) and falls back to the base state.
//! Reads are recorded in a `ReadSet` for validation; the execution harness
//! records the transaction's writes in a `WriteSet`.
//!
//! Account reads are split per field (balance, nonce, code hash), so that a
//! conflict on one field does not invalidate reads of the others. A read that
//! meets an ESTIMATE marker fails with `EvmError::ReadEstimate`.

use vstd::prelude::*;

use crate::mv_hashmap::{spec_read, MVHashMap, MvState};
use crate::mv_types::{LocationKey, MvReadResult, ReadOrigin, TxIndex, WriteValue};
use crate::primitives::{Address, B256, U256};
use crate::read_write_sets::{read_still_valid, reads_valid, ReadSet, WriteSet};
use crate::state::{account_result_view, bytes_result_view, StateProvider};
use crate::text::{address_hex, decimal_chars, push_address_hex, push_u256_decimal};
use crate::types::{
    keccak_empty, spec_keccak_empty, AccountInfo, AccountView, Bytes, EvmError,
};

verus! {

// ── Rendering locations ─────────────────────────────────────────────────────

/// The debug rendering of a location, e.g. `Balance(0x00…01)` or
/// `Storage(0x00…01, 42)`.
pub open spec fn location_debug(loc: LocationKey) -> Seq<char> {
    match loc {
        LocationKey::Storage(a, s) => "Storage(0x"@ + address_hex(a) + ", "@ + decimal_chars(
            s.value() as nat,
        ) + ")"@,
        LocationKey::Balance(a) => "Balance(0x"@ + address_hex(a) + ")"@,
        LocationKey::Nonce(a) => "Nonce(0x"@ + address_hex(a) + ")"@,
        LocationKey::CodeHash(a) => "CodeHash(0x"@ + address_hex(a) + ")"@,
    }
}

/// Renders a location as `location_debug` describes.
pub fn location_to_string(loc: &LocationKey) -> (s: String)
    ensures
        s@ == location_debug(*loc),
{
    let mut s = String::new();
    match loc {
        LocationKey::Storage(a, slot) => {
            s.append("Storage(0x");
            push_address_hex(&mut s, a);
            s.append(", ");
            push_u256_decimal(&mut s, *slot);
            s.append(")");
        },
        LocationKey::Balance(a) => {
            s.append("Balance(0x");
            push_address_hex(&mut s, a);
            s.append(")");
        },
        LocationKey::Nonce(a) => {
            s.append("Nonce(0x");
            push_address_hex(&mut s, a);
            s.append(")");
        },
        LocationKey::CodeHash(a) => {
            s.append("CodeHash(0x");
            push_address_hex(&mut s, a);
            s.append(")");
        },
    }
    assert(s@ =~= location_debug(*loc));
    s
}

// ── Errors ──────────────────────────────────────────────────────────────────

/// Error of a read through `MvDatabase`.
#[derive(Debug, Clone, PartialEq, Eq)]
pub struct MvDatabaseError(pub EvmError);

impl MvDatabaseError {
    /// Wraps a state error.
    pub fn from(e: EvmError) -> (r: MvDatabaseError)
        ensures
            r == MvDatabaseError(e),
    {
        MvDatabaseError(e)
    }

    /// The human-readable message: `MvDatabase error: ` and the inner message.
    pub open spec fn message(&self) -> Seq<char> {
        "MvDatabase error: "@ + self.0.message()
    }

    /// Renders the error message.
    pub fn to_string(&self) -> (s: String)
        ensures
            s@ == self.message(),
    {
        let mut s = String::new();
        s.append("MvDatabase error: ");
        let inner = self.0.to_string();
        s.append(inner.as_str());
        s
    }
}

/// The error of a read of `loc` that met the ESTIMATE marker of transaction `t`.
pub open spec fn is_estimate_error(e: MvDatabaseError, loc: LocationKey, t: TxIndex) -> bool {
    match e.0 {
        EvmError::ReadEstimate { tx_index, location } => tx_index == t && location@
            == location_debug(loc),
        _ => false,
    }
}

fn estimate_error(loc: &LocationKey, t: TxIndex) -> (e: MvDatabaseError)
    ensures
        is_estimate_error(e, *loc, t),
{
    MvDatabaseError(EvmError::ReadEstimate { tx_index: t, location: location_to_string(loc) })
}

// ── What a read does ────────────────────────────────────────────────────────

/// The outcome of a read through `MvDatabase`, as contracts describe it.
pub enum ReadOutcome<T> {
    /// The read returned this value.
    Value(T),
    /// The read of this location met the ESTIMATE marker of this transaction.
    Estimate(LocationKey, TxIndex),
    /// The base state failed with this error.
    Failed(EvmError),
}

/// The result `r` is the outcome `o`, with values compared by `same`.
pub open spec fn result_matches<T, V>(
    r: Result<T, MvDatabaseError>,
    o: ReadOutcome<V>,
    same: spec_fn(T, V) -> bool,
) -> bool {
    match o {
        ReadOutcome::Value(v) => r is Ok && same(r->Ok_0, v),
        ReadOutcome::Estimate(loc, t) => r is Err && is_estimate_error(r->Err_0, loc, t),
        ReadOutcome::Failed(e) => r == Err::<T, MvDatabaseError>(MvDatabaseError(e)),
    }
}

/// Where a read of the multi-version state is recorded to come from.
pub open spec fn origin_of(r: MvReadResult) -> ReadOrigin {
    match r {
        MvReadResult::Value(_, t, i) => ReadOrigin::MvHashMap { tx_index: t, incarnation: i },
        _ => ReadOrigin::Storage,
    }
}

/// The read set after a field read with answer `r` (an ESTIMATE records nothing).
pub open spec fn after_field_read(
    reads: Map<LocationKey, ReadOrigin>,
    loc: LocationKey,
    r: MvReadResult,
) -> Map<LocationKey, ReadOrigin> {
    if r is Estimate {
        reads
    } else {
        reads.insert(loc, origin_of(r))
    }
}

pub open spec fn balance_of(r: MvReadResult, base: U256) -> U256 {
    match r {
        MvReadResult::Value(WriteValue::Balance(b), _, _) => b,
        _ => base,
    }
}

pub open spec fn nonce_of(r: MvReadResult, base: u64) -> u64 {
    match r {
        MvReadResult::Value(WriteValue::Nonce(n), _, _) => n,
        _ => base,
    }
}

pub open spec fn code_hash_of(r: MvReadResult, base: B256) -> B256 {
    match r {
        MvReadResult::Value(WriteValue::CodeHash(h), _, _) => h,
        _ => base,
    }
}

/// Base-state fields of an account; a missing account has zero balance and
/// nonce and the code hash of empty code.
pub open spec fn base_fields(acct: Option<AccountView>) -> (U256, u64, B256) {
    match acct {
        Some(a) => (a.balance, a.nonce, a.code_hash),
        None => (U256 { hi: 0, lo: 0 }, 0, spec_keccak_empty()),
    }
}

/// Code as an account carries it: absent when empty.
pub open spec fn code_field(code: Seq<u8>) -> Option<Seq<u8>> {
    if code.len() == 0 {
        None
    } else {
        Some(code)
    }
}

pub open spec fn same_account(r: Option<AccountInfo>, v: Option<AccountView>) -> bool {
    match (r, v) {
        (Some(a), Some(b)) => a@ == b,
        (None, None) => true,
        _ => false,
    }
}

pub open spec fn same_bytes(r: Bytes, v: Seq<u8>) -> bool {
    r@ == v
}

pub open spec fn same_value<T>(r: T, v: T) -> bool {
    r == v
}

/// What `basic` returns and the read set it leaves, for transaction `tx`
/// over multi-version state `m` and base state `base`.
pub open spec fn spec_basic<S: StateProvider>(
    base: S,
    m: MvState,
    tx: TxIndex,
    address: Address,
    reads: Map<LocationKey, ReadOrigin>,
) -> (ReadOutcome<Option<AccountView>>, Map<LocationKey, ReadOrigin>) {
    match base.spec_basic_account(address) {
        Err(e) => (ReadOutcome::Failed(e), reads),
        Ok(acct) => {
            let (bb, bn, bc) = base_fields(acct);
            let lb = LocationKey::Balance(address);
            let ln = LocationKey::Nonce(address);
            let lc = LocationKey::CodeHash(address);
            let rb = spec_read(m, lb, tx);
            let rn = spec_read(m, ln, tx);
            let rc = spec_read(m, lc, tx);
            let reads1 = after_field_read(reads, lb, rb);
            let reads2 = after_field_read(reads1, ln, rn);
            let reads3 = after_field_read(reads2, lc, rc);
            if rb is Estimate {
                (ReadOutcome::Estimate(lb, rb->Estimate_0), reads)
            } else if rn is Estimate {
                (ReadOutcome::Estimate(ln, rn->Estimate_0), reads1)
            } else if rc is Estimate {
                (ReadOutcome::Estimate(lc, rc->Estimate_0), reads2)
            } else {
                let balance = balance_of(rb, bb);
                let nonce = nonce_of(rn, bn);
                let code_hash = code_hash_of(rc, bc);
                if acct is None && !(rb is Value) && !(rn is Value) && !(rc is Value) {
                    (ReadOutcome::Value(None), reads3)
                } else {
                    match base.spec_code_by_hash(code_hash) {
                        Err(e) => (ReadOutcome::Failed(e), reads3),
                        Ok(code) => (
                            ReadOutcome::Value(
                                Some(
                                    AccountView {
                                        balance,
                                        nonce,
                                        code_hash,
                                        code: code_field(code),
                                    },
                                ),
                            ),
                            reads3,
                        ),
                    }
                }
            }
        },
    }
}

/// What `storage` returns and the read set it leaves.
pub open spec fn spec_storage_read<S: StateProvider>(
    base: S,
    m: MvState,
    tx: TxIndex,
    address: Address,
    slot: U256,
    reads: Map<LocationKey, ReadOrigin>,
) -> (ReadOutcome<U256>, Map<LocationKey, ReadOrigin>) {
    let loc = LocationKey::Storage(address, slot);
    let r = spec_read(m, loc, tx);
    match r {
        MvReadResult::Value(WriteValue::Storage(v), t, i) => (
            ReadOutcome::Value(v),
            reads.insert(loc, origin_of(r)),
        ),
        MvReadResult::Value(_, t, i) => match base.spec_storage(address, slot) {
            Ok(v) => (ReadOutcome::Value(v), reads.insert(loc, origin_of(r))),
            Err(e) => (ReadOutcome::Failed(e), reads),
        },
        MvReadResult::Estimate(t) => (ReadOutcome::Estimate(loc, t), reads),
        MvReadResult::NotFound => (
            match base.spec_storage(address, slot) {
                Ok(v) => ReadOutcome::Value(v),
                Err(e) => ReadOutcome::Failed(e),
            },
            reads.insert(loc, ReadOrigin::Storage),
        ),
    }
}

// ── Laws ────────────────────────────────────────────────────────────────────

/// Every recorded read names where the current multi-version state answers
/// that read from.
pub open spec fn reads_fresh(reads: Map<LocationKey, ReadOrigin>, m: MvState, tx: TxIndex) -> bool {
    forall|loc: LocationKey|
        #[trigger] reads.contains_key(loc) ==> !(spec_read(m, loc, tx) is Estimate) && reads[loc]
            == origin_of(spec_read(m, loc, tx))
}

/// Reads recorded from the current state pass validation against it.
pub proof fn lemma_fresh_reads_valid(reads: Map<LocationKey, ReadOrigin>, m: MvState, tx: TxIndex)
    requires
        reads_fresh(reads, m, tx),
    ensures
        reads_valid(reads, m, tx),
{
    assert forall|loc: LocationKey| #[trigger] reads.contains_key(loc) implies read_still_valid(
        spec_read(m, loc, tx),
        reads[loc],
    ) by {
        let r = spec_read(m, loc, tx);
        assert(!(r is Estimate));
        assert(reads[loc] == origin_of(r));
    }
}

/// A call on a transaction's database as its pending writes see it: a read
/// (of an account, a slot, code or a block hash) or a recorded write.
pub enum WriteEvent {
    Read,
    Record(LocationKey, WriteValue),
}

/// What one call does to the pending writes: a read leaves them, a
/// recorded write sets its location.
pub open spec fn write_step(w: Map<LocationKey, WriteValue>, e: WriteEvent) -> Map<LocationKey, WriteValue> {
    match e {
        WriteEvent::Read => w,
        WriteEvent::Record(l, v) => w.insert(l, v),
    }
}

/// The pending writes after `events`, starting from `w`.
pub open spec fn writes_after(w: Map<LocationKey, WriteValue>, events: Seq<WriteEvent>) -> Map<
    LocationKey,
    WriteValue,
>
    decreases events.len(),
{
    if events.len() == 0 {
        w
    } else {
        write_step(writes_after(w, events.drop_last()), events.last())
    }
}

/// The recorded writes of `events`, in order.
pub open spec fn recorded_writes(events: Seq<WriteEvent>) -> Seq<(LocationKey, WriteValue)>
    decreases events.len(),
{
    if events.len() == 0 {
        Seq::empty()
    } else {
        match events.last() {
            WriteEvent::Read => recorded_writes(events.drop_last()),
            WriteEvent::Record(l, v) => recorded_writes(events.drop_last()).push((l, v)),
        }
    }
}

/// The map of inserting each pair of `s` in order.
pub open spec fn inserted_in_order(s: Seq<(LocationKey, WriteValue)>) -> Map<LocationKey, WriteValue>
    decreases s.len(),
{
    if s.len() == 0 {
        Map::empty()
    } else {
        inserted_in_order(s.drop_last()).insert(s.last().0, s.last().1)
    }
}

/// What `take_write_set` hands out after a sequence of calls on a fresh
/// database (or one whose writes were just taken): the recorded writes
/// inserted in order; reads add nothing, and with no recorded write it is
/// empty.
pub proof fn lemma_taken_writes(events: Seq<WriteEvent>)
    ensures
        writes_after(Map::empty(), events) == inserted_in_order(recorded_writes(events)),
        recorded_writes(events).len() == 0 ==> writes_after(Map::empty(), events) == Map::<
            LocationKey,
            WriteValue,
        >::empty(),
    decreases events.len(),
{
    if events.len() > 0 {
        lemma_taken_writes(events.drop_last());
        match events.last() {
            WriteEvent::Read => {},
            WriteEvent::Record(l, v) => {
                let r = recorded_writes(events.drop_last()).push((l, v));
                assert(r.drop_last() =~= recorded_writes(events.drop_last()));
            },
        }
    }
}

/// The reads `basic` and `storage` record are fresh: so a transaction's read
/// set, validated against the state it ran on, passes.
pub proof fn lemma_database_reads_fresh<S: StateProvider>(
    base: S,
    m: MvState,
    tx: TxIndex,
    address: Address,
    slot: U256,
    reads: Map<LocationKey, ReadOrigin>,
)
    requires
        reads_fresh(reads, m, tx),
    ensures
        reads_fresh(spec_basic(base, m, tx, address, reads).1, m, tx),
        reads_fresh(spec_storage_read(base, m, tx, address, slot, reads).1, m, tx),
{
    let lb = LocationKey::Balance(address);
    let ln = LocationKey::Nonce(address);
    let lc = LocationKey::CodeHash(address);
    let r1 = after_field_read(reads, lb, spec_read(m, lb, tx));
    let r2 = after_field_read(r1, ln, spec_read(m, ln, tx));
    let r3 = after_field_read(r2, lc, spec_read(m, lc, tx));
    assert(reads_fresh(r1, m, tx));
    assert(reads_fresh(r2, m, tx));
    assert(reads_fresh(r3, m, tx));
    let loc = LocationKey::Storage(address, slot);
    let rs = spec_storage_read(base, m, tx, address, slot, reads).1;
    assert forall|l: LocationKey| #[trigger] rs.contains_key(l) implies !(spec_read(m, l, tx) is Estimate)
        && rs[l] == origin_of(spec_read(m, l, tx)) by {
        if l != loc {
            assert(reads.contains_key(l));
        }
    }
}

// ── The database ────────────────────────────────────────────────────────────

/// The state seen by transaction `tx_index` during parallel execution.
pub struct MvDatabase<'a, S: StateProvider> {
    mv_state: &'a MVHashMap,
    base_state: &'a S,
    tx_index: TxIndex,
    read_set: ReadSet,
    write_set: WriteSet,
}

impl<'a, S: StateProvider> MvDatabase<'a, S> {
    pub closed spec fn wf(&self) -> bool {
        &&& self.mv_state.wf()
        &&& self.read_set.wf()
        &&& self.write_set.wf()
    }

    /// The multi-version state read through.
    pub closed spec fn mv(&self) -> MvState {
        self.mv_state@
    }

    /// The base state behind it.
    pub closed spec fn base(&self) -> S {
        *self.base_state
    }

    pub closed spec fn spec_tx_index(&self) -> TxIndex {
        self.tx_index
    }

    /// The reads recorded so far.
    pub closed spec fn reads(&self) -> Map<LocationKey, ReadOrigin> {
        self.read_set@
    }

    /// The writes recorded so far.
    pub closed spec fn writes(&self) -> Map<LocationKey, WriteValue> {
        self.write_set@
    }

    /// The database of transaction `tx_index`, with empty read and write sets.
    pub fn new(mv_state: &'a MVHashMap, base_state: &'a S, tx_index: TxIndex) -> (db: Self)
        requires
            mv_state.wf(),
        ensures
            db.wf(),
            db.mv() == mv_state@,
            db.base() == *base_state,
            db.spec_tx_index() == tx_index,
            db.reads() == Map::<LocationKey, ReadOrigin>::empty(),
            db.writes() == Map::<LocationKey, WriteValue>::empty(),
    {
        MvDatabase {
            mv_state,
            base_state,
            tx_index,
            read_set: ReadSet::new(),
            write_set: WriteSet::new(),
        }
    }

    /// Hands out the reads recorded so far and starts a new, empty read set.
    pub fn take_read_set(&mut self) -> (rs: ReadSet)
        requires
            old(self).wf(),
        ensures
            final(self).wf(),
            rs.wf(),
            rs@ == old(self).reads(),
            final(self).reads() == Map::<LocationKey, ReadOrigin>::empty(),
            final(self).writes() == write_step(old(self).writes(), WriteEvent::Read),
            final(self).mv() == old(self).mv(),
            final(self).base() == old(self).base(),
            final(self).spec_tx_index() == old(self).spec_tx_index(),
    {
        let mut rs = ReadSet::new();
        std::mem::swap(&mut rs, &mut self.read_set);
        rs
    }

    /// Hands out the writes recorded so far and starts a new, empty write set.
    pub fn take_write_set(&mut self) -> (ws: WriteSet)
        requires
            old(self).wf(),
        ensures
            final(self).wf(),
            ws.wf(),
            ws@ == old(self).writes(),
            final(self).writes() == Map::<LocationKey, WriteValue>::empty(),
            final(self).reads() == old(self).reads(),
            final(self).mv() == old(self).mv(),
            final(self).base() == old(self).base(),
            final(self).spec_tx_index() == old(self).spec_tx_index(),
    {
        let mut ws = WriteSet::new();
        std::mem::swap(&mut ws, &mut self.write_set);
        ws
    }

    /// Records a write of the transaction (reads never record writes).
    pub fn record_write(&mut self, location: LocationKey, value: WriteValue)
        requires
            old(self).wf(),
        ensures
            final(self).wf(),
            final(self).writes() == write_step(old(self).writes(), WriteEvent::Record(location, value)),
            final(self).reads() == old(self).reads(),
            final(self).mv() == old(self).mv(),
            final(self).base() == old(self).base(),
            final(self).spec_tx_index() == old(self).spec_tx_index(),
    {
        self.write_set.record(location, value);
    }

    /// The index of the transaction in its block.
    pub fn tx_index(&self) -> (t: TxIndex)
        ensures
            t == self.spec_tx_index(),
    {
        self.tx_index
    }

    /// Reads one account field from the multi-version state and records the
    /// read; an ESTIMATE fails without recording.
    fn read_field(&mut self, location: LocationKey) -> (r: Result<MvReadResult, MvDatabaseError>)
        requires
            old(self).wf(),
        ensures
            final(self).wf(),
            ({
                let a = spec_read(old(self).mv(), location, old(self).spec_tx_index());
                &&& a is Estimate ==> r is Err && is_estimate_error(
                    r->Err_0,
                    location,
                    a->Estimate_0,
                )
                &&& !(a is Estimate) ==> r == Ok::<MvReadResult, MvDatabaseError>(a)
                &&& final(self).reads() == after_field_read(old(self).reads(), location, a)
            }),
            final(self).writes() == write_step(old(self).writes(), WriteEvent::Read),
            final(self).mv() == old(self).mv(),
            final(self).base() == old(self).base(),
            final(self).spec_tx_index() == old(self).spec_tx_index(),
    {
        let r = self.mv_state.read(&location, self.tx_index);
        match r {
            MvReadResult::Value(_, tx_idx, incarnation) => {
                self.read_set.record(
                    location,
                    ReadOrigin::MvHashMap { tx_index: tx_idx, incarnation },
                );
                Ok(r)
            },
            MvReadResult::Estimate(est) => Err(estimate_error(&location, est)),
            MvReadResult::NotFound => {
                self.read_set.record(location, ReadOrigin::Storage);
                Ok(r)
            },
        }
    }

    /// The account at `address`: each of balance, nonce and code hash comes
    /// from the latest earlier write of the block, else from the base state;
    /// code comes from the base state. An account missing from the base
    /// state exists once an earlier transaction of the block wrote any of
    /// its fields; with no such write it is absent.
    pub fn basic(&mut self, address: Address) -> (r: Result<Option<AccountInfo>, MvDatabaseError>)
        requires
            old(self).wf(),
        ensures
            final(self).wf(),
            ({
                let (o, reads) = spec_basic(
                    old(self).base(),
                    old(self).mv(),
                    old(self).spec_tx_index(),
                    address,
                    old(self).reads(),
                );
                &&& result_matches(r, o, |a: Option<AccountInfo>, v: Option<AccountView>| same_account(a, v))
                &&& final(self).reads() == reads
            }),
            final(self).writes() == write_step(old(self).writes(), WriteEvent::Read),
            final(self).mv() == old(self).mv(),
            final(self).base() == old(self).base(),
            final(self).spec_tx_index() == old(self).spec_tx_index(),
    {
        let base_account = match self.base_state.basic_account(address) {
            Ok(a) => a,
            Err(e) => {
                return Err(MvDatabaseError(e));
            },
        };
        let (base_balance, base_nonce, base_code_hash) = match &base_account {
            Some(acct) => (acct.balance, acct.nonce, acct.code_hash),
            None => (U256::zero(), 0u64, keccak_empty()),
        };
        let rb = match self.read_field(LocationKey::Balance(address)) {
            Ok(x) => x,
            Err(e) => {
                return Err(e);
            },
        };
        let rn = match self.read_field(LocationKey::Nonce(address)) {
            Ok(x) => x,
            Err(e) => {
                return Err(e);
            },
        };
        let rc = match self.read_field(LocationKey::CodeHash(address)) {
            Ok(x) => x,
            Err(e) => {
                return Err(e);
            },
        };
        let balance = match rb {
            MvReadResult::Value(WriteValue::Balance(b), _, _) => b,
            _ => base_balance,
        };
        let nonce = match rn {
            MvReadResult::Value(WriteValue::Nonce(n), _, _) => n,
            _ => base_nonce,
        };
        let code_hash = match rc {
            MvReadResult::Value(WriteValue::CodeHash(h), _, _) => h,
            _ => base_code_hash,
        };
        if base_account.is_none() {
            let from_mv = match (&rb, &rn, &rc) {
                (MvReadResult::NotFound, MvReadResult::NotFound, MvReadResult::NotFound) => false,
                _ => true,
            };
            if !from_mv {
                return Ok(None);
            }
        }
        let code = match self.base_state.code_by_hash(code_hash) {
            Ok(c) => c,
            Err(e) => {
                return Err(MvDatabaseError(e));
            },
        };
        let code = if code.len() == 0 {
            None
        } else {
            Some(code)
        };
        Ok(Some(AccountInfo { balance, nonce, code_hash, code }))
    }

    /// The storage value at `(address, slot)`: the latest earlier write of the
    /// block, else the base state.
    pub fn storage(&mut self, address: Address, slot: U256) -> (r: Result<U256, MvDatabaseError>)
        requires
            old(self).wf(),
        ensures
            final(self).wf(),
            ({
                let (o, reads) = spec_storage_read(
                    old(self).base(),
                    old(self).mv(),
                    old(self).spec_tx_index(),
                    address,
                    slot,
                    old(self).reads(),
                );
                &&& result_matches(r, o, |a: U256, v: U256| same_value(a, v))
                &&& final(self).reads() == reads
            }),
            final(self).writes() == write_step(old(self).writes(), WriteEvent::Read),
            final(self).mv() == old(self).mv(),
            final(self).base() == old(self).base(),
            final(self).spec_tx_index() == old(self).spec_tx_index(),
    {
        let location = LocationKey::Storage(address, slot);
        let r = self.mv_state.read(&location, self.tx_index);
        match r {
            MvReadResult::Value(wv, tx_idx, incarnation) => {
                let value = match wv {
                    WriteValue::Storage(v) => v,
                    _ => match self.base_state.storage(address, slot) {
                        Ok(v) => v,
                        Err(e) => {
                            return Err(MvDatabaseError(e));
                        },
                    },
                };
                self.read_set.record(
                    location,
                    ReadOrigin::MvHashMap { tx_index: tx_idx, incarnation },
                );
                Ok(value)
            },
            MvReadResult::Estimate(est) => Err(estimate_error(&location, est)),
            MvReadResult::NotFound => {
                self.read_set.record(location, ReadOrigin::Storage);
                match self.base_state.storage(address, slot) {
                    Ok(v) => Ok(v),
                    Err(e) => Err(MvDatabaseError(e)),
                }
            },
        }
    }

    /// Code by hash, straight from the base state (code does not change
    /// within a block); records no read.
    pub fn code_by_hash(&mut self, code_hash: B256) -> (r: Result<Bytes, MvDatabaseError>)
        requires
            old(self).wf(),
        ensures
            *final(self) == *old(self),
            match old(self).base().spec_code_by_hash(code_hash) {
                Ok(c) => r is Ok && r->Ok_0@ == c,
                Err(e) => r == Err::<Bytes, MvDatabaseError>(MvDatabaseError(e)),
            },
    {
        match self.base_state.code_by_hash(code_hash) {
            Ok(c) => Ok(c),
            Err(e) => Err(MvDatabaseError(e)),
        }
    }

    /// The hash of block `number`, straight from the base state; records no read.
    pub fn block_hash(&mut self, number: u64) -> (r: Result<B256, MvDatabaseError>)
        requires
            old(self).wf(),
        ensures
            *final(self) == *old(self),
            match old(self).base().spec_block_hash(number) {
                Ok(h) => r == Ok::<B256, MvDatabaseError>(h),
                Err(e) => r == Err::<B256, MvDatabaseError>(MvDatabaseError(e)),
            },
    {
        match self.base_state.block_hash(number) {
            Ok(h) => Ok(h),
            Err(e) => Err(MvDatabaseError(e)),
        }
    }
}

} // verus!
