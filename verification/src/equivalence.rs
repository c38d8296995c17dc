//! Merging converted write sets agrees with applying account changes.
//!
//! A transaction's effect reaches the post-block state in two ways: the
//! parallel path converts its account changes into a write set and merges
//! the write sets in block order; the sequential path applies the account
//! changes directly. Both give states that agree on every account's balance,
//! nonce and code hash and on all storage (only stored code may differ,
//! which the state root does not cover), so both give the same state root.

use vstd::prelude::*;

use crate::block_executor::{apply_changes, apply_slots, AccountChange};
use crate::merge::{
    account_or_default, account_record, account_records, apply_entries, apply_write, credit_coinbase,
    is_blank, merged_state, merged_writes, spec_state_root, state_preimage, writes_match,
};
use crate::mv_types::{LocationKey, WriteValue};
use crate::primitives::{pow2_256, Address, OrderedKey, B256, U256};
use crate::read_write_sets::WriteSet;
use crate::sorted_map::{
    entries_map, lemma_entries_map, lemma_sorted_entries_exist, lemma_sorted_unique, sorted_entries,
    strictly_sorted,
};
use crate::state::{StateView, StorageKey};
use crate::types::{spec_keccak_empty, AccountView, ExecutionResult};
use crate::worker::{change_writes, diff_writes, slot_writes};

verus! {

// ── A write set applied at once ─────────────────────────────────────────────

/// Whether the write set writes a field of the account at `a`.
pub open spec fn touched(ws: Map<LocationKey, WriteValue>, a: Address) -> bool {
    ws.contains_key(LocationKey::Balance(a)) || ws.contains_key(LocationKey::Nonce(a))
        || ws.contains_key(LocationKey::CodeHash(a))
}

/// The account at `a` after the writes of `ws` (its code is kept).
pub open spec fn written_account(v: StateView, ws: Map<LocationKey, WriteValue>, a: Address) -> AccountView {
    let old = account_or_default(v, a);
    AccountView {
        balance: if ws.contains_key(LocationKey::Balance(a)) {
            match ws[LocationKey::Balance(a)] {
                WriteValue::Balance(b) => b,
                _ => old.balance,
            }
        } else {
            old.balance
        },
        nonce: if ws.contains_key(LocationKey::Nonce(a)) {
            match ws[LocationKey::Nonce(a)] {
                WriteValue::Nonce(n) => n,
                _ => old.nonce,
            }
        } else {
            old.nonce
        },
        code_hash: if ws.contains_key(LocationKey::CodeHash(a)) {
            match ws[LocationKey::CodeHash(a)] {
                WriteValue::CodeHash(h) => h,
                _ => old.code_hash,
            }
        } else {
            old.code_hash
        },
        code: old.code,
    }
}

/// The storage after the writes of `ws`.
pub open spec fn written_storage(s: Map<StorageKey, U256>, ws: Map<LocationKey, WriteValue>) -> Map<
    StorageKey,
    U256,
> {
    Map::new(
        |k: StorageKey| s.contains_key(k) || ws.contains_key(LocationKey::Storage(k.address, k.slot)),
        |k: StorageKey|
            if ws.contains_key(LocationKey::Storage(k.address, k.slot)) {
                match ws[LocationKey::Storage(k.address, k.slot)] {
                    WriteValue::Storage(x) => x,
                    _ => s[k],
                }
            } else {
                s[k]
            },
    )
}

/// The state after all writes of `ws`, each location written once.
pub open spec fn apply_map(v: StateView, ws: Map<LocationKey, WriteValue>) -> StateView {
    StateView {
        accounts: Map::new(
            |a: Address| v.accounts.contains_key(a) || touched(ws, a),
            |a: Address| written_account(v, ws, a),
        ),
        storage: written_storage(v.storage, ws),
        ..v
    }
}

proof fn lemma_prefix_push(s: Seq<(LocationKey, WriteValue)>)
    requires
        strictly_sorted(s),
        s.len() > 0,
    ensures
        strictly_sorted(s.drop_last()),
        entries_map(s) == entries_map(s.drop_last()).insert(s.last().0, s.last().1),
        !entries_map(s.drop_last()).contains_key(s.last().0),
{
    let t = s.drop_last();
    assert(s == t.push(s.last()));
    assert(strictly_sorted(t)) by {
        assert forall|i: int, j: int| 0 <= i < j < t.len() implies (#[trigger] t[i]).0.key_lt(
            (#[trigger] t[j]).0,
        ) by {
            assert(t[i] == s[i] && t[j] == s[j]);
        }
    }
    lemma_entries_map(s);
    lemma_entries_map(t);
    let k = s.last().0;
    if entries_map(t).contains_key(k) {
        let i = choose|i: int| 0 <= i < t.len() && t[i].0 == k;
        assert(s[i].0.key_lt(s[s.len() - 1].0));
        LocationKey::lemma_key_lt_irreflexive(k);
    }
    let target = entries_map(t).insert(k, s.last().1);
    assert forall|l: LocationKey| #[trigger] entries_map(s).contains_key(l) <==> target.contains_key(l) by {
        if entries_map(s).contains_key(l) {
            let i = choose|i: int| 0 <= i < s.len() && s[i].0 == l;
            if i < t.len() {
                assert(t[i].0 == l);
                assert(entries_map(t).contains_key(t[i].0));
            }
        }
        if entries_map(t).contains_key(l) {
            let i = choose|i: int| 0 <= i < t.len() && t[i].0 == l;
            assert(s[i].0 == l);
            assert(entries_map(s).contains_key(s[i].0));
        }
        if l == k {
            assert(entries_map(s).contains_key(s[s.len() - 1].0));
        }
    }
    assert forall|l: LocationKey| #[trigger] entries_map(s).contains_key(l) implies entries_map(s)[l]
        == target[l] by {
        let i = choose|i: int| 0 <= i < s.len() && s[i].0 == l;
        assert(entries_map(s).contains_key(s[i].0) && entries_map(s)[s[i].0] == s[i].1);
        if i < t.len() {
            assert(t[i] == s[i]);
            assert(entries_map(t).contains_key(t[i].0) && entries_map(t)[t[i].0] == t[i].1);
        }
    }
    assert(entries_map(s) =~= target);
}

proof fn lemma_apply_write_map(v: StateView, m: Map<LocationKey, WriteValue>, k: LocationKey, x: WriteValue)
    requires
        !m.contains_key(k),
        write_matches_pair(k, x),
    ensures
        apply_write(apply_map(v, m), k, x) == apply_map(v, m.insert(k, x)),
{
    let l = apply_write(apply_map(v, m), k, x);
    let r = apply_map(v, m.insert(k, x));
    assert(l.accounts =~= r.accounts);
    assert(l.storage =~= r.storage);
}

/// A location and a value of the same kind.
pub open spec fn write_matches_pair(loc: LocationKey, val: WriteValue) -> bool {
    match (loc, val) {
        (LocationKey::Balance(_), WriteValue::Balance(_)) => true,
        (LocationKey::Nonce(_), WriteValue::Nonce(_)) => true,
        (LocationKey::CodeHash(_), WriteValue::CodeHash(_)) => true,
        (LocationKey::Storage(_, _), WriteValue::Storage(_)) => true,
        _ => false,
    }
}

/// Applying sorted writes one by one is applying their map at once.
proof fn lemma_apply_entries_is_apply_map(v: StateView, es: Seq<(LocationKey, WriteValue)>)
    requires
        strictly_sorted(es),
        writes_match(entries_map(es)),
    ensures
        apply_entries(v, es) == apply_map(v, entries_map(es)),
    decreases es.len(),
{
    if es.len() == 0 {
        lemma_entries_map(es);
        let m = entries_map(es);
        assert(m.dom() =~= Set::<LocationKey>::empty());
        let r = apply_map(v, m);
        assert(r.accounts =~= v.accounts);
        assert(r.storage =~= v.storage);
    } else {
        lemma_prefix_push(es);
        let t = es.drop_last();
        let m = entries_map(t);
        assert(writes_match(m)) by {
            assert forall|l: LocationKey| #[trigger] m.contains_key(l) implies crate::merge::write_matches(
                l,
                m[l],
            ) by {
                assert(entries_map(es).contains_key(l));
                assert(entries_map(es)[l] == m[l]);
            }
        }
        lemma_apply_entries_is_apply_map(v, t);
        assert(entries_map(es).contains_key(es.last().0));
        assert(crate::merge::write_matches(es.last().0, es.last().1));
        lemma_apply_write_map(v, m, es.last().0, es.last().1);
    }
}

// ── Agreement on what the state root covers ─────────────────────────────────

/// Two accounts agree on balance, nonce and code hash.
pub open spec fn same_root_fields(p: AccountView, q: AccountView) -> bool {
    p.balance == q.balance && p.nonce == q.nonce && p.code_hash == q.code_hash
}

/// Two states agree on all storage and on the accounts present and their
/// balances, nonces and code hashes.
pub open spec fn root_equivalent(x: StateView, y: StateView) -> bool {
    &&& x.storage == y.storage
    &&& x.accounts.dom() == y.accounts.dom()
    &&& forall|a: Address| #[trigger] x.accounts.contains_key(a) ==> same_root_fields(x.accounts[a], y.accounts[a])
}

proof fn lemma_equivalent_symmetric_transitive(x: StateView, y: StateView, z: StateView)
    ensures
        root_equivalent(x, y) ==> root_equivalent(y, x),
        root_equivalent(x, y) && root_equivalent(y, z) ==> root_equivalent(x, z),
{
    if root_equivalent(x, y) {
        assert forall|a: Address| #[trigger] y.accounts.contains_key(a) implies same_root_fields(
            y.accounts[a],
            x.accounts[a],
        ) by {
            assert(x.accounts.contains_key(a));
        }
        if root_equivalent(y, z) {
            assert forall|a: Address| #[trigger] x.accounts.contains_key(a) implies same_root_fields(
                x.accounts[a],
                z.accounts[a],
            ) by {
                assert(y.accounts.contains_key(a));
            }
        }
    }
}

proof fn lemma_apply_map_empty(v: StateView)
    ensures
        apply_map(v, Map::empty()) == v,
{
    let r = apply_map(v, Map::empty());
    assert(r.accounts =~= v.accounts);
    assert(r.storage =~= v.storage);
}

/// Equivalent states stay equivalent under the same write set.
proof fn lemma_apply_map_congruent(x: StateView, y: StateView, m: Map<LocationKey, WriteValue>)
    requires
        root_equivalent(x, y),
    ensures
        root_equivalent(apply_map(x, m), apply_map(y, m)),
{
    let rx = apply_map(x, m);
    let ry = apply_map(y, m);
    assert(rx.accounts.dom() =~= ry.accounts.dom());
    assert forall|a: Address| #[trigger] rx.accounts.contains_key(a) implies same_root_fields(
        rx.accounts[a],
        ry.accounts[a],
    ) by {
        if x.accounts.contains_key(a) {
            assert(y.accounts.contains_key(a));
        }
    }
    assert(rx.storage =~= ry.storage);
}

/// Equivalent states stay equivalent under the same account change.
proof fn lemma_apply_change_congruent(x: StateView, y: StateView, c: AccountChange, coinbase: Address)
    requires
        root_equivalent(x, y),
    ensures
        root_equivalent(
            crate::block_executor::apply_change(x, c, coinbase),
            crate::block_executor::apply_change(y, c, coinbase),
        ),
{
    let rx = crate::block_executor::apply_change(x, c, coinbase);
    let ry = crate::block_executor::apply_change(y, c, coinbase);
    if c.address != coinbase {
        assert(rx.accounts.dom() =~= ry.accounts.dom());
        assert forall|a: Address| #[trigger] rx.accounts.contains_key(a) implies same_root_fields(
            rx.accounts[a],
            ry.accounts[a],
        ) by {
            if a != c.address {
                assert(x.accounts.contains_key(a));
            }
        }
    }
}

/// Slot writes leave the account fields of a write set alone.
proof fn lemma_slot_writes_accounts(ws: Map<LocationKey, WriteValue>, address: Address, slots: Seq<(U256, U256)>)
    ensures
        forall|l: LocationKey|
            !(l is Storage) ==> (#[trigger] slot_writes(ws, address, slots).contains_key(l) <==> ws.contains_key(l)),
        forall|l: LocationKey|
            !(l is Storage) && ws.contains_key(l) ==> #[trigger] slot_writes(ws, address, slots)[l] == ws[l],
    decreases slots.len(),
{
    if slots.len() > 0 {
        lemma_slot_writes_accounts(ws, address, slots.drop_last());
        let prev = slot_writes(ws, address, slots.drop_last());
        let k = LocationKey::Storage(address, slots.last().0);
        let cur = slot_writes(ws, address, slots);
        assert(cur == prev.insert(k, WriteValue::Storage(slots.last().1)));
        assert forall|l: LocationKey| !(l is Storage) implies (#[trigger] cur.contains_key(l) <==> ws.contains_key(l)) by {
            assert(l != k);
            assert(prev.contains_key(l) <==> ws.contains_key(l));
        }
        assert forall|l: LocationKey| !(l is Storage) && ws.contains_key(l) implies #[trigger] cur[l] == ws[l] by {
            assert(l != k);
            assert(prev[l] == ws[l]);
        }
    }
}

/// Slot writes become the slots an account change applies.
proof fn lemma_slot_writes_storage(
    s: Map<StorageKey, U256>,
    ws: Map<LocationKey, WriteValue>,
    address: Address,
    slots: Seq<(U256, U256)>,
)
    ensures
        written_storage(s, slot_writes(ws, address, slots)) == apply_slots(written_storage(s, ws), address, slots),
    decreases slots.len(),
{
    if slots.len() > 0 {
        lemma_slot_writes_storage(s, ws, address, slots.drop_last());
        let prev = slot_writes(ws, address, slots.drop_last());
        let k = LocationKey::Storage(address, slots.last().0);
        assert(written_storage(s, prev.insert(k, WriteValue::Storage(slots.last().1))) =~= written_storage(
            s,
            prev,
        ).insert(StorageKey { address, slot: slots.last().0 }, slots.last().1));
    }
}

/// The write set of one account change, applied at once, agrees with the
/// change applied to the state after the earlier writes.
proof fn lemma_change_writes_step(v: StateView, m: Map<LocationKey, WriteValue>, c: AccountChange, coinbase: Address)
    requires
        c.address != coinbase,
    ensures
        root_equivalent(
            crate::block_executor::apply_change(apply_map(v, m), c, coinbase),
            apply_map(v, change_writes(m, c)),
        ),
{
    let a = c.address;
    let m3 = m.insert(LocationKey::Balance(a), WriteValue::Balance(c.info.balance)).insert(
        LocationKey::Nonce(a),
        WriteValue::Nonce(c.info.nonce),
    ).insert(LocationKey::CodeHash(a), WriteValue::CodeHash(c.info.code_hash));
    let m2 = change_writes(m, c);
    assert(m2 == slot_writes(m3, a, c.storage@));
    lemma_slot_writes_accounts(m3, a, c.storage@);
    lemma_slot_writes_storage(v.storage, m3, a, c.storage@);
    assert(written_storage(v.storage, m3) =~= written_storage(v.storage, m));
    let l = crate::block_executor::apply_change(apply_map(v, m), c, coinbase);
    let r = apply_map(v, m2);
    assert(m2.contains_key(LocationKey::Balance(a)));
    assert(m2.contains_key(LocationKey::Nonce(a)));
    assert(m2.contains_key(LocationKey::CodeHash(a)));
    assert forall|b: Address| #[trigger] l.accounts.contains_key(b) <==> r.accounts.contains_key(b) by {
        if b != a {
            assert(touched(m2, b) == touched(m, b));
        }
    }
    assert(l.accounts.dom() =~= r.accounts.dom());
    assert forall|b: Address| #[trigger] l.accounts.contains_key(b) implies same_root_fields(
        l.accounts[b],
        r.accounts[b],
    ) by {
        if b != a {
            assert(m2.contains_key(LocationKey::Balance(b)) == m.contains_key(LocationKey::Balance(b)));
            assert(m2.contains_key(LocationKey::Nonce(b)) == m.contains_key(LocationKey::Nonce(b)));
            assert(m2.contains_key(LocationKey::CodeHash(b)) == m.contains_key(LocationKey::CodeHash(b)));
            if m.contains_key(LocationKey::Balance(b)) {
                assert(m2[LocationKey::Balance(b)] == m[LocationKey::Balance(b)]);
            }
            if m.contains_key(LocationKey::Nonce(b)) {
                assert(m2[LocationKey::Nonce(b)] == m[LocationKey::Nonce(b)]);
            }
            if m.contains_key(LocationKey::CodeHash(b)) {
                assert(m2[LocationKey::CodeHash(b)] == m[LocationKey::CodeHash(b)]);
            }
        } else {
            assert(m2[LocationKey::Balance(a)] == m3[LocationKey::Balance(a)]);
            assert(m2[LocationKey::Nonce(a)] == m3[LocationKey::Nonce(a)]);
            assert(m2[LocationKey::CodeHash(a)] == m3[LocationKey::CodeHash(a)]);
        }
    }
}

/// A transaction's account changes agree with its converted write set
/// applied at once.
proof fn lemma_changes_match_writes(v: StateView, cs: Seq<AccountChange>, coinbase: Address)
    ensures
        root_equivalent(apply_changes(v, cs, coinbase), apply_map(v, diff_writes(cs, coinbase))),
    decreases cs.len(),
{
    if cs.len() == 0 {
        lemma_apply_map_empty(v);
        assert(diff_writes(cs, coinbase) == Map::<LocationKey, WriteValue>::empty());
    } else {
        lemma_changes_match_writes(v, cs.drop_last(), coinbase);
        let x = apply_changes(v, cs.drop_last(), coinbase);
        let m = diff_writes(cs.drop_last(), coinbase);
        let y = apply_map(v, m);
        let c = cs.last();
        if c.address != coinbase {
            lemma_apply_change_congruent(x, y, c, coinbase);
            lemma_change_writes_step(v, m, c, coinbase);
            lemma_equivalent_symmetric_transitive(
                crate::block_executor::apply_change(x, c, coinbase),
                crate::block_executor::apply_change(y, c, coinbase),
                apply_map(v, change_writes(m, c)),
            );
        }
    }
}


// ── Whole blocks ────────────────────────────────────────────────────────────

/// The state after applying each transaction's account changes in block order.
pub open spec fn sequential_state(v: StateView, changes: Seq<Seq<AccountChange>>, coinbase: Address) -> StateView
    decreases changes.len(),
{
    if changes.len() == 0 {
        v
    } else {
        apply_changes(sequential_state(v, changes.drop_last(), coinbase), changes.last(), coinbase)
    }
}

/// A converted write set only writes values of their location's kind.
proof fn lemma_diff_writes_match(cs: Seq<AccountChange>, coinbase: Address)
    ensures
        writes_match(diff_writes(cs, coinbase)),
    decreases cs.len(),
{
    if cs.len() > 0 {
        lemma_diff_writes_match(cs.drop_last(), coinbase);
        let c = cs.last();
        if c.address != coinbase {
            let m = diff_writes(cs.drop_last(), coinbase);
            let m3 = m.insert(LocationKey::Balance(c.address), WriteValue::Balance(c.info.balance)).insert(
                LocationKey::Nonce(c.address),
                WriteValue::Nonce(c.info.nonce),
            ).insert(LocationKey::CodeHash(c.address), WriteValue::CodeHash(c.info.code_hash));
            assert(writes_match(m3));
            lemma_slot_writes_match(m3, c.address, c.storage@);
        }
    }
}

proof fn lemma_slot_writes_match(ws: Map<LocationKey, WriteValue>, address: Address, slots: Seq<(U256, U256)>)
    requires
        writes_match(ws),
    ensures
        writes_match(slot_writes(ws, address, slots)),
    decreases slots.len(),
{
    if slots.len() > 0 {
        lemma_slot_writes_match(ws, address, slots.drop_last());
    }
}

pub open spec fn finite_state(v: StateView) -> bool {
    v.accounts.dom().finite() && v.storage.dom().finite()
}

proof fn lemma_apply_entries_finite(v: StateView, es: Seq<(LocationKey, WriteValue)>)
    requires
        finite_state(v),
    ensures
        finite_state(apply_entries(v, es)),
    decreases es.len(),
{
    if es.len() > 0 {
        lemma_apply_entries_finite(v, es.drop_last());
    }
}

proof fn lemma_apply_slots_finite(st: Map<StorageKey, U256>, address: Address, slots: Seq<(U256, U256)>)
    requires
        st.dom().finite(),
    ensures
        apply_slots(st, address, slots).dom().finite(),
    decreases slots.len(),
{
    if slots.len() > 0 {
        lemma_apply_slots_finite(st, address, slots.drop_last());
    }
}

proof fn lemma_apply_changes_finite(v: StateView, cs: Seq<AccountChange>, coinbase: Address)
    requires
        finite_state(v),
    ensures
        finite_state(apply_changes(v, cs, coinbase)),
    decreases cs.len(),
{
    if cs.len() > 0 {
        lemma_apply_changes_finite(v, cs.drop_last(), coinbase);
        let x = apply_changes(v, cs.drop_last(), coinbase);
        lemma_apply_slots_finite(x.storage, cs.last().address, cs.last().storage@);
    }
}

/// The merged write sets and the sequentially applied changes agree on what
/// the state root covers, and both stay finite.
proof fn lemma_block_paths_agree(
    v: StateView,
    txs: Seq<(ExecutionResult, WriteSet)>,
    changes: Seq<Seq<AccountChange>>,
    coinbase: Address,
)
    requires
        finite_state(v),
        txs.len() == changes.len(),
        forall|i: int|
            0 <= i < txs.len() ==> (#[trigger] txs[i]).1.wf() && txs[i].1@ == diff_writes(changes[i], coinbase),
    ensures
        root_equivalent(merged_writes(v, txs), sequential_state(v, changes, coinbase)),
        finite_state(merged_writes(v, txs)),
        finite_state(sequential_state(v, changes, coinbase)),
    decreases txs.len(),
{
    if txs.len() == 0 {
        lemma_apply_map_empty(v);
        lemma_apply_map_congruent(v, v, Map::empty());
    } else {
        let t = txs.drop_last();
        let c = changes.drop_last();
        assert forall|i: int| 0 <= i < t.len() implies (#[trigger] t[i]).1.wf() && t[i].1@ == diff_writes(
            c[i],
            coinbase,
        ) by {
            assert(t[i] == txs[i] && c[i] == changes[i]);
        }
        lemma_block_paths_agree(v, t, c, coinbase);
        let x = merged_writes(v, t);
        let y = sequential_state(v, c, coinbase);
        let ws = txs.last().1;
        let cs = changes.last();
        assert(ws.wf() && ws@ == diff_writes(cs, coinbase)) by {
            assert(txs[txs.len() - 1] == txs.last());
            assert(changes[changes.len() - 1] == changes.last());
        }
        ws.lemma_entries();
        lemma_diff_writes_match(cs, coinbase);
        lemma_apply_entries_is_apply_map(x, ws.entries());
        lemma_apply_entries_finite(x, ws.entries());
        lemma_apply_changes_finite(y, cs, coinbase);
        let d = diff_writes(cs, coinbase);
        lemma_apply_map_congruent(x, y, d);
        lemma_changes_match_writes(y, cs, coinbase);
        lemma_equivalent_symmetric_transitive(apply_changes(y, cs, coinbase), apply_map(y, d), apply_map(x, d));
        lemma_equivalent_symmetric_transitive(apply_map(x, d), apply_map(y, d), apply_changes(y, cs, coinbase));
    }
}

proof fn lemma_credit_congruent(x: StateView, y: StateView, coinbase: Address, amount: U256)
    requires
        root_equivalent(x, y),
        finite_state(x),
    ensures
        root_equivalent(credit_coinbase(x, coinbase, amount), credit_coinbase(y, coinbase, amount)),
        finite_state(credit_coinbase(x, coinbase, amount)),
{
    let rx = credit_coinbase(x, coinbase, amount);
    let ry = credit_coinbase(y, coinbase, amount);
    if x.accounts.contains_key(coinbase) {
        assert(y.accounts.contains_key(coinbase));
    }
    assert(rx.accounts.dom() =~= ry.accounts.dom());
    assert forall|a: Address| #[trigger] rx.accounts.contains_key(a) implies same_root_fields(
        rx.accounts[a],
        ry.accounts[a],
    ) by {
        if a != coinbase {
            assert(x.accounts.contains_key(a));
        }
    }
}

// ── Equivalent states have the same root ────────────────────────────────────

/// An account without its code.
pub open spec fn without_code(e: (Address, AccountView)) -> (Address, AccountView) {
    (e.0, AccountView { code: None, ..e.1 })
}

/// The accounts without their code.
pub open spec fn strip_code(m: Map<Address, AccountView>) -> Map<Address, AccountView> {
    Map::new(|a: Address| m.contains_key(a), |a: Address| AccountView { code: None, ..m[a] })
}

proof fn lemma_records_ignore_code(s: Seq<(Address, AccountView)>)
    ensures
        account_records(s.map_values(|e: (Address, AccountView)| without_code(e))) == account_records(s),
    decreases s.len(),
{
    if s.len() > 0 {
        lemma_records_ignore_code(s.drop_last());
        let f = |e: (Address, AccountView)| without_code(e);
        assert(s.map_values(f).drop_last() =~= s.drop_last().map_values(f));
        assert(account_record(s.map_values(f).last()) == account_record(s.last()));
    }
}

proof fn lemma_records_of_stripped(m: Map<Address, AccountView>)
    requires
        m.dom().finite(),
    ensures
        account_records(sorted_entries(strip_code(m))) == account_records(sorted_entries(m)),
{
    lemma_sorted_entries_exist(m);
    let s = sorted_entries(m);
    let f = |e: (Address, AccountView)| without_code(e);
    let s2 = s.map_values(f);
    assert(strictly_sorted(s2)) by {
        assert forall|i: int, j: int| 0 <= i < j < s2.len() implies (#[trigger] s2[i]).0.key_lt(
            (#[trigger] s2[j]).0,
        ) by {
            assert(s2[i].0 == s[i].0 && s2[j].0 == s[j].0);
        }
    }
    lemma_entries_map(s);
    lemma_entries_map(s2);
    let sm = strip_code(m);
    assert forall|a: Address| #[trigger] entries_map(s2).contains_key(a) <==> sm.contains_key(a) by {
        if entries_map(s2).contains_key(a) {
            let i = choose|i: int| 0 <= i < s2.len() && s2[i].0 == a;
            assert(s[i].0 == a);
            assert(entries_map(s).contains_key(s[i].0));
        }
        if sm.contains_key(a) {
            let i = choose|i: int| 0 <= i < s.len() && s[i].0 == a;
            assert(s2[i].0 == a);
            assert(entries_map(s2).contains_key(s2[i].0));
        }
    }
    assert forall|a: Address| #[trigger] entries_map(s2).contains_key(a) implies entries_map(s2)[a] == sm[a] by {
        let i = choose|i: int| 0 <= i < s2.len() && s2[i].0 == a;
        assert(entries_map(s2).contains_key(s2[i].0) && entries_map(s2)[s2[i].0] == s2[i].1);
        assert(entries_map(s).contains_key(s[i].0) && entries_map(s)[s[i].0] == s[i].1);
    }
    assert(entries_map(s2) =~= sm);
    crate::sorted_map::lemma_sorted_entries(s2);
    lemma_records_ignore_code(s);
}

/// States that agree on what the state root covers have the same root.
pub proof fn lemma_equivalent_roots(x: StateView, y: StateView, rx: B256, ry: B256)
    requires
        root_equivalent(x, y),
        finite_state(x),
        spec_state_root(x, rx),
        spec_state_root(y, ry),
    ensures
        rx == ry,
{
    assert(strip_code(x.accounts) =~= strip_code(y.accounts)) by {
        assert forall|a: Address| #[trigger] strip_code(x.accounts).contains_key(a) implies strip_code(
            x.accounts,
        )[a] == strip_code(y.accounts)[a] by {
            assert(x.accounts.contains_key(a));
        }
    }
    assert(y.accounts.dom().finite());
    lemma_records_of_stripped(x.accounts);
    lemma_records_of_stripped(y.accounts);
    assert(state_preimage(x) == state_preimage(y));
    if is_blank(x) {
        assert(y.accounts =~= Map::<Address, AccountView>::empty());
    }
    if is_blank(y) {
        assert(x.accounts =~= Map::<Address, AccountView>::empty());
    }
    if !is_blank(x) {
        B256::lemma_bytes_injective(rx, ry);
    }
}

/// The coinbase account is present with no code: crediting it nothing
/// changes none of what the state root covers.
pub open spec fn coinbase_without_code(v: StateView, coinbase: Address) -> bool {
    v.accounts.contains_key(coinbase) && v.accounts[coinbase].code_hash == spec_keccak_empty()
}

proof fn lemma_zero_credit(y: StateView, coinbase: Address, fees: U256)
    requires
        fees.value() == 0,
        coinbase_without_code(y, coinbase),
    ensures
        root_equivalent(y, credit_coinbase(y, coinbase, fees)),
{
    let y2 = credit_coinbase(y, coinbase, fees);
    let c = y.accounts[coinbase];
    crate::primitives::lemma_u256_of_value(c.balance);
    vstd::arithmetic::div_mod::lemma_small_mod(c.balance.value() as nat, pow2_256() as nat);
    crate::primitives::lemma_u256_of_value(y2.accounts[coinbase].balance);
    assert(y2.accounts.dom() =~= y.accounts.dom());
}

/// Merging the write sets converted from each transaction's account changes
/// gives the same state root as applying those changes one transaction after
/// another, when the block collected fees or its coinbase account exists
/// without code after the transactions.
pub proof fn lemma_merge_matches_sequential(
    base: StateView,
    txs: Seq<(ExecutionResult, WriteSet)>,
    changes: Seq<Seq<AccountChange>>,
    coinbase: Address,
    fees: U256,
    parallel_root: B256,
    sequential_root: B256,
)
    requires
        finite_state(base),
        txs.len() == changes.len(),
        forall|i: int|
            0 <= i < txs.len() ==> (#[trigger] txs[i]).1.wf() && txs[i].1@ == diff_writes(changes[i], coinbase),
        fees.value() > 0 || coinbase_without_code(sequential_state(base, changes, coinbase), coinbase),
        spec_state_root(merged_state(base, txs, fees, coinbase), parallel_root),
        spec_state_root(credit_coinbase(sequential_state(base, changes, coinbase), coinbase, fees), sequential_root),
    ensures
        parallel_root == sequential_root,
{
    lemma_block_paths_agree(base, txs, changes, coinbase);
    let x = merged_writes(base, txs);
    let y = sequential_state(base, changes, coinbase);
    if fees.value() > 0 {
        lemma_credit_congruent(x, y, coinbase, fees);
        lemma_equivalent_roots(
            credit_coinbase(x, coinbase, fees),
            credit_coinbase(y, coinbase, fees),
            parallel_root,
            sequential_root,
        );
    } else {
        let y2 = credit_coinbase(y, coinbase, fees);
        lemma_zero_credit(y, coinbase, fees);
        lemma_equivalent_symmetric_transitive(x, y, y2);
        lemma_equivalent_roots(x, y2, parallel_root, sequential_root);
    }
}

} // verus!
