//! What a Block-STM worker decides around one EVM run.
//!
//! An execution either succeeds (its state changes become a deterministic
//! write set, skipping the coinbase, and its fee is `gas_used * gas_price`),
//! meets an ESTIMATE marker (the transaction is re-queued behind the blocking
//! transaction), or fails. Validation re-checks a read set.

use vstd::prelude::*;
use vstd::string::StringSliceAdditionalSpecFns;

use crate::block_executor::AccountChange;
use crate::mv_hashmap::MVHashMap;
use crate::mv_types::{LocationKey, TxIndex, WriteValue};
use crate::primitives::{pow2_256, u256_of, Address, U256};
use crate::read_write_sets::{reads_valid, ReadSet, WriteSet};
use crate::types::{EvmError, ExecutionResult};

verus! {

// ── Outcomes ────────────────────────────────────────────────────────────────

/// The outcome of executing one transaction.
pub enum ExecutionOutcome {
    /// Executed: what it read, what it wrote, the EVM result and its fee.
    Success { read_set: ReadSet, write_set: WriteSet, result: ExecutionResult, gas_fee: U256 },
    /// A read met an ESTIMATE of transaction `blocking_tx`; re-queue.
    EstimateHit { blocking_tx: TxIndex },
    /// An infrastructure error (reverts are successes).
    ExecutionError(EvmError),
}

// ── State changes to write sets ─────────────────────────────────────────────

/// Writes of the changed storage slots of `address`, in order.
pub open spec fn slot_writes(
    ws: Map<LocationKey, WriteValue>,
    address: Address,
    slots: Seq<(U256, U256)>,
) -> Map<LocationKey, WriteValue>
    decreases slots.len(),
{
    if slots.len() == 0 {
        ws
    } else {
        slot_writes(ws, address, slots.drop_last()).insert(
            LocationKey::Storage(address, slots.last().0),
            WriteValue::Storage(slots.last().1),
        )
    }
}

/// Writes of one account change: balance, nonce, code hash, then its slots.
pub open spec fn change_writes(
    ws: Map<LocationKey, WriteValue>,
    c: AccountChange,
) -> Map<LocationKey, WriteValue> {
    slot_writes(
        ws.insert(LocationKey::Balance(c.address), WriteValue::Balance(c.info.balance)).insert(
            LocationKey::Nonce(c.address),
            WriteValue::Nonce(c.info.nonce),
        ).insert(LocationKey::CodeHash(c.address), WriteValue::CodeHash(c.info.code_hash)),
        c.address,
        c.storage@,
    )
}

/// The write set of a list of account changes, the coinbase's skipped.
pub open spec fn diff_writes(cs: Seq<AccountChange>, coinbase: Address) -> Map<
    LocationKey,
    WriteValue,
>
    decreases cs.len(),
{
    if cs.len() == 0 {
        Map::empty()
    } else if cs.last().address == coinbase {
        diff_writes(cs.drop_last(), coinbase)
    } else {
        change_writes(diff_writes(cs.drop_last(), coinbase), cs.last())
    }
}

/// Turns the account changes of an execution into a write set, skipping the
/// coinbase (fees are tracked on the side).
pub fn convert_state_diffs(changes: &Vec<AccountChange>, coinbase: Address) -> (w: WriteSet)
    ensures
        w.wf(),
        w@ == diff_writes(changes@, coinbase),
{
    let mut w = WriteSet::new();
    let n = changes.len();
    let mut i: usize = 0;
    while i < n
        invariant
            i <= n,
            n == changes@.len(),
            w.wf(),
            w@ == diff_writes(changes@.take(i as int), coinbase),
        decreases n - i,
    {
        let c = &changes[i];
        proof {
            assert(changes@.take(i + 1).drop_last() =~= changes@.take(i as int));
            assert(changes@.take(i + 1).last() == changes@[i as int]);
        }
        if c.address != coinbase {
            let a = c.address;
            w.record(LocationKey::Balance(a), WriteValue::Balance(c.info.balance));
            w.record(LocationKey::Nonce(a), WriteValue::Nonce(c.info.nonce));
            w.record(LocationKey::CodeHash(a), WriteValue::CodeHash(c.info.code_hash));
            let ghost base = w@;
            let m = c.storage.len();
            let mut j: usize = 0;
            while j < m
                invariant
                    j <= m,
                    m == c.storage@.len(),
                    w.wf(),
                    w@ == slot_writes(base, a, c.storage@.take(j as int)),
                decreases m - j,
            {
                let (slot, value) = c.storage[j];
                proof {
                    assert(c.storage@.take(j + 1).drop_last() =~= c.storage@.take(j as int));
                    assert(c.storage@.take(j + 1).last() == c.storage@[j as int]);
                }
                w.record(LocationKey::Storage(a, slot), WriteValue::Storage(value));
                j = j + 1;
            }
            assert(c.storage@.take(m as int) =~= c.storage@);
        }
        i = i + 1;
    }
    assert(changes@.take(n as int) =~= changes@);
    w
}

// ── Reading the blocking transaction out of an error ────────────────────────

/// `needle` occurs in `hay` at position `i`.
pub open spec fn occurs_at(hay: Seq<u8>, needle: Seq<u8>, i: int) -> bool {
    0 <= i && i + needle.len() <= hay.len() && hay.subrange(i, i + needle.len()) == needle
}

/// The first position at which `needle` occurs in `hay`.
pub open spec fn first_occurrence(hay: Seq<u8>, needle: Seq<u8>) -> Option<int> {
    if exists|i: int| occurs_at(hay, needle, i) {
        Some(
            choose|i: int|
                occurs_at(hay, needle, i) && forall|k: int| 0 <= k < i ==> !occurs_at(hay, needle, k),
        )
    } else {
        None
    }
}

/// Position of the first occurrence of `needle` in `hay`.
pub fn find_bytes(hay: &[u8], needle: &[u8]) -> (r: Option<usize>)
    ensures
        match r {
            Some(i) => occurs_at(hay@, needle@, i as int) && forall|k: int|
                0 <= k < i ==> !occurs_at(hay@, needle@, k),
            None => forall|k: int| !occurs_at(hay@, needle@, k),
        },
        r is Some <==> first_occurrence(hay@, needle@) is Some,
        r is Some ==> first_occurrence(hay@, needle@) == Some(r.unwrap() as int),
{
    let n = hay.len();
    let m = needle.len();
    if m > n {
        return None;
    }
    let mut i: usize = 0;
    while i <= n - m
        invariant
            n == hay@.len(),
            m == needle@.len(),
            m <= n,
            i <= n - m + 1,
            forall|k: int| 0 <= k < i ==> !occurs_at(hay@, needle@, k),
        decreases n - i,
    {
        let mut j: usize = 0;
        let mut ok = true;
        while j < m
            invariant
                n == hay@.len(),
                m == needle@.len(),
                i + m <= n,
                j <= m,
                ok == (forall|t: int| 0 <= t < j ==> hay@[i + t] == needle@[t]),
            decreases m - j,
        {
            if hay[i + j] != needle[j] {
                ok = false;
            }
            j = j + 1;
        }
        if ok {
            proof {
                assert(hay@.subrange(i as int, i + m) =~= needle@);
                let target = choose|p: int|
                    occurs_at(hay@, needle@, p) && forall|k: int|
                        0 <= k < p ==> !occurs_at(hay@, needle@, k);
                assert(occurs_at(hay@, needle@, i as int));
                if target < i {
                } else if target > i {
                }
            }
            return Some(i);
        }
        proof {
            if occurs_at(hay@, needle@, i as int) {
                let t = choose|t: int| 0 <= t < m && hay@[i + t] != needle@[t];
                assert(hay@.subrange(i as int, i + m)[t] == hay@[i + t]);
            }
        }
        i = i + 1;
    }
    proof {
        assert forall|k: int| !occurs_at(hay@, needle@, k) by {
            if k >= i {
            }
        }
    }
    None
}

/// An ASCII decimal digit.
pub open spec fn is_digit(c: u8) -> bool {
    48 <= c <= 57
}

/// The number written by a string of decimal digits.
pub open spec fn digits_value(d: Seq<u8>) -> nat
    decreases d.len(),
{
    if d.len() == 0 {
        0
    } else {
        digits_value(d.drop_last()) * 10 + (d.last() - 48) as nat
    }
}

/// The bytes of `tx_index: `.
pub open spec fn tx_index_marker() -> Seq<u8> {
    seq![116u8, 120u8, 95u8, 105u8, 110u8, 100u8, 101u8, 120u8, 58u8, 32u8]
}

/// The digits that follow the first `tx_index: ` in `b`, up to the first
/// non-digit; `None` when there is no marker or no non-digit after it.
pub open spec fn digits_after_marker(b: Seq<u8>) -> Option<Seq<u8>> {
    match first_occurrence(b, tx_index_marker()) {
        None => None,
        Some(s) => {
            let after = b.subrange(s + 10, b.len() as int);
            if exists|e: int| 0 <= e < after.len() && !is_digit(after[e]) {
                let e = choose|e: int|
                    0 <= e < after.len() && !is_digit(after[e]) && forall|k: int|
                        0 <= k < e ==> is_digit(after[k]);
                Some(after.subrange(0, e))
            } else {
                None
            }
        },
    }
}

/// The transaction index named in a rendered ESTIMATE error: the decimal
/// number after the first `tx_index: `, if it is nonempty, ends before the
/// text does, and fits in 32 bits.
pub open spec fn spec_extract_estimate_tx_index(b: Seq<u8>) -> Option<TxIndex> {
    match digits_after_marker(b) {
        Some(d) => if d.len() > 0 && digits_value(d) <= u32::MAX {
            Some(digits_value(d) as u32)
        } else {
            None
        },
        None => None,
    }
}

fn tx_index_marker_bytes() -> (v: Vec<u8>)
    ensures
        v@ == tx_index_marker(),
{
    let v: Vec<u8> = vec![116u8, 120u8, 95u8, 105u8, 110u8, 100u8, 101u8, 120u8, 58u8, 32u8];
    assert(v@ =~= tx_index_marker());
    v
}

/// Extracts the blocking transaction index from the debug rendering of an
/// ESTIMATE error, e.g. `ReadEstimate { tx_index: 3, location: ".." }`.
pub fn extract_estimate_tx_index(err_debug: &str) -> (r: Option<TxIndex>)
    ensures
        r == spec_extract_estimate_tx_index(err_debug.spec_bytes()),
{
    let b = err_debug.as_bytes();
    let marker = tx_index_marker_bytes();
    let start = match find_bytes(b, marker.as_slice()) {
        Some(s) => s,
        None => {
            return None;
        },
    };
    let ghost bs = b@;
    let ghost after = bs.subrange(start + 10, bs.len() as int);
    let n = b.len();
    let mut k: usize = start + 10;
    let mut value: u64 = 0;
    let mut overflow = false;
    while k < n && 48 <= b[k] && b[k] <= 57
        invariant
            start + 10 <= k <= n,
            n == bs.len(),
            b@ == bs,
            after == bs.subrange(start + 10, n as int),
            forall|t: int| 0 <= t < k - (start + 10) ==> is_digit(#[trigger] after[t]),
            !overflow ==> value == digits_value(after.subrange(0, k - (start + 10))),
            !overflow ==> value <= u32::MAX,
            overflow ==> digits_value(after.subrange(0, k - (start + 10))) > u32::MAX,
        decreases n - k,
    {
        let d = (b[k] - 48) as u64;
        let ghost prefix = after.subrange(0, k - (start + 10));
        let ghost next = after.subrange(0, k + 1 - (start + 10));
        assert(next.drop_last() =~= prefix);
        assert(next.last() == b[k as int]);
        proof {
            assert(digits_value(next) == digits_value(prefix) * 10 + d);
            if overflow {
                assert(digits_value(prefix) * 10 + d > u32::MAX) by (nonlinear_arith)
                    requires
                        digits_value(prefix) > u32::MAX,
                        d >= 0,
                ;
            }
        }
        if !overflow {
            let v = value * 10 + d;
            if v > 0xffff_ffffu64 {
                overflow = true;
            } else {
                value = v;
            }
        }
        k = k + 1;
    }
    if k >= n {
        proof {
            assert(forall|e: int| 0 <= e < after.len() ==> is_digit(#[trigger] after[e]));
        }
        return None;
    }
    let e = k - (start + 10);
    proof {
        assert(marker@ == tx_index_marker());
        assert(first_occurrence(bs, tx_index_marker()) == Some(start as int));
        assert(!is_digit(after[e as int]));
        assert(exists|x: int| 0 <= x < after.len() && !is_digit(after[x]));
        assert(0 <= e < after.len() && !is_digit(after[e as int]) && forall|t: int|
            0 <= t < e ==> is_digit(after[t]));
        let c = choose|c: int|
            0 <= c < after.len() && !is_digit(after[c]) && forall|t: int|
                0 <= t < c ==> is_digit(after[t]);
        if c < e {
            assert(is_digit(after[c]));
        } else if c > e {
            assert(is_digit(after[e as int]));
        }
        assert(c == e);
        let s0 = first_occurrence(bs, tx_index_marker()).unwrap();
        assert(s0 == start);
        assert(bs.subrange(s0 + 10, bs.len() as int) == after);
        assert(digits_after_marker(bs) == Some(after.subrange(0, e as int)));
    }
    if e == 0 || overflow {
        return None;
    }
    Some(value as u32)
}

/// The bytes of `ReadEstimate`.
pub open spec fn read_estimate_marker() -> Seq<u8> {
    seq![82u8, 101u8, 97u8, 100u8, 69u8, 115u8, 116u8, 105u8, 109u8, 97u8, 116u8, 101u8]
}

/// The outcome of an EVM run that failed with an error rendered as
/// `err_debug`: an ESTIMATE hit names its blocking transaction (0 when it
/// cannot be read); any other failure of a later transaction is treated as
/// a dependency on the previous one; only transaction 0 fails for good.
pub open spec fn spec_error_outcome_blocking(b: Seq<u8>, tx_index: TxIndex) -> Option<TxIndex> {
    if first_occurrence(b, read_estimate_marker()) is Some {
        Some(
            match spec_extract_estimate_tx_index(b) {
                Some(t) => t,
                None => 0,
            },
        )
    } else if tx_index > 0 {
        Some((tx_index - 1) as u32)
    } else {
        None
    }
}

/// Classifies a failed EVM run (see `spec_error_outcome_blocking`); a final
/// failure is `EvmError::Internal("revm execution error: " + err_debug)`.
pub fn outcome_of_error(err_debug: &str, tx_index: TxIndex) -> (o: ExecutionOutcome)
    ensures
        match spec_error_outcome_blocking(err_debug.spec_bytes(), tx_index) {
            Some(t) => o == (ExecutionOutcome::EstimateHit { blocking_tx: t }),
            None => match o {
                ExecutionOutcome::ExecutionError(EvmError::Internal(s)) => s@
                    == "revm execution error: "@ + err_debug@,
                _ => false,
            },
        },
{
    let b = err_debug.as_bytes();
    let marker: Vec<u8> = vec![82u8, 101u8, 97u8, 100u8, 69u8, 115u8, 116u8, 105u8, 109u8, 97u8, 116u8, 101u8];
    assert(marker@ =~= read_estimate_marker());
    if find_bytes(b, marker.as_slice()).is_some() {
        let blocking_tx = match extract_estimate_tx_index(err_debug) {
            Some(t) => t,
            None => 0,
        };
        return ExecutionOutcome::EstimateHit { blocking_tx };
    }
    if tx_index > 0 {
        return ExecutionOutcome::EstimateHit { blocking_tx: tx_index - 1 };
    }
    let mut s = String::new();
    s.append("revm execution error: ");
    s.append(err_debug);
    ExecutionOutcome::ExecutionError(EvmError::Internal(s))
}

/// The fee of an execution: `gas_used * gas_price`, modulo 2^256.
pub open spec fn gas_fee_of(gas_used: u64, gas_price: U256) -> U256 {
    u256_of((gas_price.value() * gas_used) % pow2_256())
}

/// The outcome of a successful EVM run: the write set of its account
/// changes (coinbase skipped), its reads, its result and its fee.
pub fn outcome_of_success(
    result: ExecutionResult,
    gas_price: U256,
    changes: &Vec<AccountChange>,
    coinbase: Address,
    read_set: ReadSet,
) -> (o: ExecutionOutcome)
    ensures
        match o {
            ExecutionOutcome::Success { read_set: rs, write_set: ws, result: r, gas_fee } => {
                &&& rs == read_set
                &&& ws.wf()
                &&& ws@ == diff_writes(changes@, coinbase)
                &&& r == result
                &&& gas_fee == gas_fee_of(result.spec_gas_used(), gas_price)
            },
            _ => false,
        },
{
    let gas_used = result.gas_used();
    let gas_fee = gas_price.wrapping_mul_u64(gas_used);
    let write_set = convert_state_diffs(changes, coinbase);
    ExecutionOutcome::Success { read_set, write_set, result, gas_fee }
}

/// Re-checks the read set of transaction `tx_index` against the current
/// multi-version state.
pub fn validate_transaction(tx_index: TxIndex, read_set: &ReadSet, mv_state: &MVHashMap) -> (valid: bool)
    requires
        read_set.wf(),
        mv_state.wf(),
    ensures
        valid == reads_valid(read_set@, mv_state@, tx_index),
{
    read_set.validate(mv_state, tx_index)
}

} // verus!
