//! Conflict analysis of a parallel execution: which transactions touched the
//! same locations.
//!
//! For every pair of transactions `tx_a < tx_b` the analysis reports the
//! locations both wrote (write-write), the locations `tx_a` read and `tx_b`
//! wrote, and the locations `tx_a` wrote and `tx_b` read (both read-write).
//! Locations are reported in increasing order within each group.

use vstd::prelude::*;

use crate::mv_types::{LocationKey, ReadOrigin, WriteValue};
use crate::read_write_sets::{ReadSet, WriteSet};
use crate::sorted_map::{entries_map, keys_of};
use crate::text::{address_hex, push_address_hex, push_u256_hex, u256_hex};
use crate::types::ExecutionResult;

verus! {

/// The rendered form of a location.
pub struct LocationInfoView {
    pub location_type: Seq<char>,
    pub address: Seq<char>,
    pub slot: Option<Seq<char>>,
}

/// A location rendered for output: its kind, its address as `0x` and 40
/// lowercase hex digits, and for storage the slot as `0x` and minimal
/// lowercase hex.
#[derive(Debug, Clone, PartialEq, Eq)]
pub struct LocationInfo {
    pub location_type: String,
    pub address: String,
    pub slot: Option<String>,
}

impl View for LocationInfo {
    type V = LocationInfoView;

    open spec fn view(&self) -> LocationInfoView {
        LocationInfoView {
            location_type: self.location_type@,
            address: self.address@,
            slot: match self.slot {
                Some(s) => Some(s@),
                None => None,
            },
        }
    }
}

/// How `location_key_to_info` renders a location.
pub open spec fn location_info(key: LocationKey) -> LocationInfoView {
    match key {
        LocationKey::Storage(a, s) => LocationInfoView {
            location_type: "Storage"@,
            address: "0x"@ + address_hex(a),
            slot: Some("0x"@ + u256_hex(s)),
        },
        LocationKey::Balance(a) => LocationInfoView {
            location_type: "Balance"@,
            address: "0x"@ + address_hex(a),
            slot: None,
        },
        LocationKey::Nonce(a) => LocationInfoView {
            location_type: "Nonce"@,
            address: "0x"@ + address_hex(a),
            slot: None,
        },
        LocationKey::CodeHash(a) => LocationInfoView {
            location_type: "CodeHash"@,
            address: "0x"@ + address_hex(a),
            slot: None,
        },
    }
}

fn hex_address_string(a: &crate::primitives::Address) -> (s: String)
    ensures
        s@ == "0x"@ + address_hex(*a),
{
    let mut s = String::new();
    s.append("0x");
    push_address_hex(&mut s, a);
    s
}

/// Renders a location for output.
pub fn location_key_to_info(key: &LocationKey) -> (info: LocationInfo)
    ensures
        info@ == location_info(*key),
{
    match key {
        LocationKey::Storage(addr, slot) => {
            let mut s = String::new();
            s.append("0x");
            push_u256_hex(&mut s, slot);
            LocationInfo {
                location_type: "Storage".to_string(),
                address: hex_address_string(addr),
                slot: Some(s),
            }
        },
        LocationKey::Balance(addr) => LocationInfo {
            location_type: "Balance".to_string(),
            address: hex_address_string(addr),
            slot: None,
        },
        LocationKey::Nonce(addr) => LocationInfo {
            location_type: "Nonce".to_string(),
            address: hex_address_string(addr),
            slot: None,
        },
        LocationKey::CodeHash(addr) => LocationInfo {
            location_type: "CodeHash".to_string(),
            address: hex_address_string(addr),
            slot: None,
        },
    }
}

/// The rendered locations of a sequence of entries.
pub open spec fn infos_of<A>(s: Seq<(LocationKey, A)>) -> Seq<LocationInfoView> {
    s.map_values(|e: (LocationKey, A)| location_info(e.0))
}

/// The views of rendered locations.
pub open spec fn info_views(v: Seq<LocationInfo>) -> Seq<LocationInfoView> {
    v.map_values(|i: LocationInfo| i@)
}

/// Access summary of one transaction.
pub struct TxAccessSummary {
    pub tx_index: usize,
    pub reads: Vec<LocationInfo>,
    pub writes: Vec<LocationInfo>,
}

/// A conflict between two transactions at one location.
pub struct ConflictPair {
    pub location: LocationInfo,
    pub tx_a: usize,
    pub tx_b: usize,
    /// `write-write` or `read-write`.
    pub conflict_type: String,
}

/// The abstract content of a conflict.
pub struct ConflictView {
    pub location: LocationInfoView,
    pub tx_a: int,
    pub tx_b: int,
    pub conflict_type: Seq<char>,
}

impl View for ConflictPair {
    type V = ConflictView;

    open spec fn view(&self) -> ConflictView {
        ConflictView {
            location: self.location@,
            tx_a: self.tx_a as int,
            tx_b: self.tx_b as int,
            conflict_type: self.conflict_type@,
        }
    }
}

/// The result of the analysis.
pub struct ConflictDetails {
    pub per_tx: Vec<TxAccessSummary>,
    pub conflicts: Vec<ConflictPair>,
}

/// The keys of the entries of `s`, in order, that `other` also has.
pub open spec fn common_keys<A, B>(s: Seq<(LocationKey, A)>, other: Map<LocationKey, B>) -> Seq<
    LocationKey,
>
    decreases s.len(),
{
    if s.len() == 0 {
        Seq::empty()
    } else if other.contains_key(s.last().0) {
        common_keys(s.drop_last(), other).push(s.last().0)
    } else {
        common_keys(s.drop_last(), other)
    }
}

/// Conflicts of kind `kind` at `keys` between `a` and `b`.
pub open spec fn conflicts_at(keys: Seq<LocationKey>, a: int, b: int, kind: Seq<char>) -> Seq<
    ConflictView,
> {
    keys.map_values(
        |k: LocationKey| ConflictView { location: location_info(k), tx_a: a, tx_b: b, conflict_type: kind },
    )
}

/// The conflicts between transactions `a < b` of `txs`.
pub open spec fn pair_conflicts(
    txs: Seq<(ExecutionResult, WriteSet, ReadSet)>,
    a: int,
    b: int,
) -> Seq<ConflictView> {
    let (wa, ra) = (txs[a].1, txs[a].2);
    let (wb, rb) = (txs[b].1, txs[b].2);
    conflicts_at(common_keys(wa.entries(), wb@), a, b, "write-write"@) + conflicts_at(
        common_keys(ra.entries(), wb@),
        a,
        b,
        "read-write"@,
    ) + conflicts_at(common_keys(wa.entries(), rb@), a, b, "read-write"@)
}

/// Conflicts of `a` with every `b` in `a + 1 .. upto`, in order of `b`.
pub open spec fn row_conflicts(txs: Seq<(ExecutionResult, WriteSet, ReadSet)>, a: int, upto: int) -> Seq<
    ConflictView,
>
    decreases upto - a,
{
    if upto <= a + 1 {
        Seq::empty()
    } else {
        row_conflicts(txs, a, upto - 1) + pair_conflicts(txs, a, upto - 1)
    }
}

/// Conflicts of every `a` below `upto` with its later transactions.
pub open spec fn all_conflicts(txs: Seq<(ExecutionResult, WriteSet, ReadSet)>, upto: int) -> Seq<
    ConflictView,
>
    decreases upto,
{
    if upto <= 0 {
        Seq::empty()
    } else {
        all_conflicts(txs, upto - 1) + row_conflicts(txs, upto - 1, txs.len() as int)
    }
}

proof fn lemma_row_ordered(txs: Seq<(ExecutionResult, WriteSet, ReadSet)>, a: int, upto: int)
    requires
        0 <= a,
        upto <= txs.len(),
    ensures
        forall|i: int|
            0 <= i < row_conflicts(txs, a, upto).len() ==> (#[trigger] row_conflicts(txs, a, upto)[i]).tx_a
                == a && a < row_conflicts(txs, a, upto)[i].tx_b < upto,
    decreases upto - a,
{
    if upto > a + 1 {
        lemma_row_ordered(txs, a, upto - 1);
        let r = row_conflicts(txs, a, upto - 1);
        let p = pair_conflicts(txs, a, upto - 1);
        assert forall|i: int| 0 <= i < (r + p).len() implies (#[trigger] (r + p)[i]).tx_a == a && a < (r
            + p)[i].tx_b < upto by {
            if i >= r.len() {
                assert((r + p)[i] == p[i - r.len()]);
            }
        }
    }
}

proof fn lemma_key_listed<A>(s: Seq<(LocationKey, A)>, k: LocationKey)
    requires
        entries_map(s).contains_key(k),
    ensures
        exists|i: int| 0 <= i < s.len() && s[i].0 == k,
{
    assert(keys_of(s).contains(k));
    let i = choose|i: int| 0 <= i < keys_of(s).len() && keys_of(s)[i] == k;
    assert(s[i].0 == k);
}

proof fn lemma_common_keys_has<A, B>(s: Seq<(LocationKey, A)>, other: Map<LocationKey, B>, i: int)
    requires
        0 <= i < s.len(),
        other.contains_key(s[i].0),
    ensures
        common_keys(s, other).contains(s[i].0),
    decreases s.len(),
{
    let init = s.drop_last();
    if i < s.len() - 1 {
        assert(init[i] == s[i]);
        lemma_common_keys_has(init, other, i);
        let j = choose|j: int| 0 <= j < common_keys(init, other).len() && common_keys(init, other)[j] == s[i].0;
        if other.contains_key(s.last().0) {
            assert(common_keys(s, other)[j] == common_keys(init, other)[j]);
        } else {
            assert(common_keys(s, other)[j] == s[i].0);
        }
    } else {
        assert(common_keys(s, other) == common_keys(init, other).push(s[i].0));
        assert(common_keys(s, other)[common_keys(init, other).len() as int] == s[i].0);
    }
}

proof fn lemma_conflicts_at_has(keys: Seq<LocationKey>, k: LocationKey, a: int, b: int, kind: Seq<char>)
    requires
        keys.contains(k),
    ensures
        conflicts_at(keys, a, b, kind).contains(
            ConflictView { location: location_info(k), tx_a: a, tx_b: b, conflict_type: kind },
        ),
{
    let j = choose|j: int| 0 <= j < keys.len() && keys[j] == k;
    assert(conflicts_at(keys, a, b, kind)[j] == ConflictView {
        location: location_info(k),
        tx_a: a,
        tx_b: b,
        conflict_type: kind,
    });
}

proof fn lemma_row_has(txs: Seq<(ExecutionResult, WriteSet, ReadSet)>, a: int, b: int, upto: int, x: ConflictView)
    requires
        a < b < upto,
        pair_conflicts(txs, a, b).contains(x),
    ensures
        row_conflicts(txs, a, upto).contains(x),
    decreases upto - a,
{
    let r = row_conflicts(txs, a, upto - 1);
    let p = pair_conflicts(txs, a, upto - 1);
    assert(row_conflicts(txs, a, upto) == r + p);
    if b == upto - 1 {
        let j = choose|j: int| 0 <= j < p.len() && p[j] == x;
        assert((r + p)[r.len() + j] == x);
    } else {
        lemma_row_has(txs, a, b, upto - 1, x);
        let j = choose|j: int| 0 <= j < r.len() && r[j] == x;
        assert((r + p)[j] == x);
    }
}

proof fn lemma_all_has(txs: Seq<(ExecutionResult, WriteSet, ReadSet)>, a: int, upto: int, x: ConflictView)
    requires
        0 <= a < upto,
        row_conflicts(txs, a, txs.len() as int).contains(x),
    ensures
        all_conflicts(txs, upto).contains(x),
    decreases upto,
{
    let r = all_conflicts(txs, upto - 1);
    let p = row_conflicts(txs, upto - 1, txs.len() as int);
    assert(all_conflicts(txs, upto) == r + p);
    if a == upto - 1 {
        let j = choose|j: int| 0 <= j < p.len() && p[j] == x;
        assert((r + p)[r.len() + j] == x);
    } else {
        lemma_all_has(txs, a, upto - 1, x);
        let j = choose|j: int| 0 <= j < r.len() && r[j] == x;
        assert((r + p)[j] == x);
    }
}

/// Every pair of transactions `a < b` of the block is compared, however far
/// apart: each location both wrote is reported as a write-write conflict
/// `(a, b)`, and each location `a` read and `b` wrote, or `a` wrote and `b`
/// read, as a read-write conflict `(a, b)`.
pub proof fn lemma_conflicts_complete(
    txs: Seq<(ExecutionResult, WriteSet, ReadSet)>,
    a: int,
    b: int,
    loc: LocationKey,
)
    requires
        sets_wf(txs),
        0 <= a < b < txs.len(),
    ensures
        txs[a].1@.contains_key(loc) && txs[b].1@.contains_key(loc) ==> all_conflicts(txs, txs.len() as int).contains(
            ConflictView { location: location_info(loc), tx_a: a, tx_b: b, conflict_type: "write-write"@ },
        ),
        txs[a].2@.contains_key(loc) && txs[b].1@.contains_key(loc) ==> all_conflicts(txs, txs.len() as int).contains(
            ConflictView { location: location_info(loc), tx_a: a, tx_b: b, conflict_type: "read-write"@ },
        ),
        txs[a].1@.contains_key(loc) && txs[b].2@.contains_key(loc) ==> all_conflicts(txs, txs.len() as int).contains(
            ConflictView { location: location_info(loc), tx_a: a, tx_b: b, conflict_type: "read-write"@ },
        ),
{
    let (wa, ra) = (txs[a].1, txs[a].2);
    let (wb, rb) = (txs[b].1, txs[b].2);
    assert(txs[a].1.wf() && txs[a].2.wf() && txs[b].1.wf() && txs[b].2.wf());
    wa.lemma_entries();
    ra.lemma_entries();
    let ww = conflicts_at(common_keys(wa.entries(), wb@), a, b, "write-write"@);
    let rw = conflicts_at(common_keys(ra.entries(), wb@), a, b, "read-write"@);
    let wr = conflicts_at(common_keys(wa.entries(), rb@), a, b, "read-write"@);
    let pc = pair_conflicts(txs, a, b);
    assert(pc == ww + rw + wr);
    if wa@.contains_key(loc) && wb@.contains_key(loc) {
        lemma_key_listed(wa.entries(), loc);
        let i = choose|i: int| 0 <= i < wa.entries().len() && wa.entries()[i].0 == loc;
        lemma_common_keys_has(wa.entries(), wb@, i);
        lemma_conflicts_at_has(common_keys(wa.entries(), wb@), loc, a, b, "write-write"@);
        let x = ConflictView { location: location_info(loc), tx_a: a, tx_b: b, conflict_type: "write-write"@ };
        let j = choose|j: int| 0 <= j < ww.len() && ww[j] == x;
        assert(pc[j] == x);
        lemma_row_has(txs, a, b, txs.len() as int, x);
        lemma_all_has(txs, a, txs.len() as int, x);
    }
    if ra@.contains_key(loc) && wb@.contains_key(loc) {
        lemma_key_listed(ra.entries(), loc);
        let i = choose|i: int| 0 <= i < ra.entries().len() && ra.entries()[i].0 == loc;
        lemma_common_keys_has(ra.entries(), wb@, i);
        lemma_conflicts_at_has(common_keys(ra.entries(), wb@), loc, a, b, "read-write"@);
        let x = ConflictView { location: location_info(loc), tx_a: a, tx_b: b, conflict_type: "read-write"@ };
        let j = choose|j: int| 0 <= j < rw.len() && rw[j] == x;
        assert(pc[ww.len() + j] == x);
        lemma_row_has(txs, a, b, txs.len() as int, x);
        lemma_all_has(txs, a, txs.len() as int, x);
    }
    if wa@.contains_key(loc) && rb@.contains_key(loc) {
        lemma_key_listed(wa.entries(), loc);
        let i = choose|i: int| 0 <= i < wa.entries().len() && wa.entries()[i].0 == loc;
        lemma_common_keys_has(wa.entries(), rb@, i);
        lemma_conflicts_at_has(common_keys(wa.entries(), rb@), loc, a, b, "read-write"@);
        let x = ConflictView { location: location_info(loc), tx_a: a, tx_b: b, conflict_type: "read-write"@ };
        let j = choose|j: int| 0 <= j < wr.len() && wr[j] == x;
        assert(pc[ww.len() + rw.len() + j] == x);
        lemma_row_has(txs, a, b, txs.len() as int, x);
        lemma_all_has(txs, a, txs.len() as int, x);
    }
}

/// Conflict `x` is backed by the sets of `txs`: its transactions share the
/// location it names, both writing it (write-write) or one reading what the
/// other wrote (read-write).
pub open spec fn conflict_backed(txs: Seq<(ExecutionResult, WriteSet, ReadSet)>, x: ConflictView) -> bool {
    exists|loc: LocationKey|
        #[trigger] location_info(loc) == x.location && {
            let (a, b) = (x.tx_a, x.tx_b);
            ||| x.conflict_type == "write-write"@ && txs[a].1@.contains_key(loc) && txs[b].1@.contains_key(loc)
            ||| x.conflict_type == "read-write"@ && txs[a].2@.contains_key(loc) && txs[b].1@.contains_key(loc)
            ||| x.conflict_type == "read-write"@ && txs[a].1@.contains_key(loc) && txs[b].2@.contains_key(loc)
        }
}

proof fn lemma_common_keys_in<A, B>(s: Seq<(LocationKey, A)>, other: Map<LocationKey, B>, j: int)
    requires
        0 <= j < common_keys(s, other).len(),
    ensures
        other.contains_key(common_keys(s, other)[j]),
        exists|i: int| 0 <= i < s.len() && s[i].0 == common_keys(s, other)[j],
    decreases s.len(),
{
    let init = s.drop_last();
    let ck0 = common_keys(init, other);
    if j < ck0.len() {
        lemma_common_keys_in(init, other, j);
        let i = choose|i: int| 0 <= i < init.len() && init[i].0 == ck0[j];
        assert(s[i] == init[i]);
        if other.contains_key(s.last().0) {
            assert(common_keys(s, other)[j] == ck0[j]);
        } else {
            assert(common_keys(s, other)[j] == ck0[j]);
        }
    } else {
        assert(common_keys(s, other)[j] == s.last().0);
        assert(s[s.len() - 1].0 == s.last().0);
    }
}

proof fn lemma_listed_key<A>(s: Seq<(LocationKey, A)>, i: int)
    requires
        0 <= i < s.len(),
    ensures
        entries_map(s).contains_key(s[i].0),
{
    assert(keys_of(s)[i] == s[i].0);
}

proof fn lemma_pair_backed(txs: Seq<(ExecutionResult, WriteSet, ReadSet)>, a: int, b: int, y: int)
    requires
        sets_wf(txs),
        0 <= a < b < txs.len(),
        0 <= y < pair_conflicts(txs, a, b).len(),
    ensures
        conflict_backed(txs, pair_conflicts(txs, a, b)[y]),
        pair_conflicts(txs, a, b)[y].tx_a == a && pair_conflicts(txs, a, b)[y].tx_b == b,
{
    let (wa, ra) = (txs[a].1, txs[a].2);
    let (wb, rb) = (txs[b].1, txs[b].2);
    assert(txs[a].1.wf() && txs[a].2.wf() && txs[b].1.wf() && txs[b].2.wf());
    wa.lemma_entries();
    ra.lemma_entries();
    let k1 = common_keys(wa.entries(), wb@);
    let k2 = common_keys(ra.entries(), wb@);
    let k3 = common_keys(wa.entries(), rb@);
    let ww = conflicts_at(k1, a, b, "write-write"@);
    let rw = conflicts_at(k2, a, b, "read-write"@);
    let wr = conflicts_at(k3, a, b, "read-write"@);
    let pc = pair_conflicts(txs, a, b);
    assert(pc == ww + rw + wr);
    let x = pc[y];
    if y < ww.len() {
        assert(x == ww[y]);
        lemma_common_keys_in(wa.entries(), wb@, y);
        let i = choose|i: int| 0 <= i < wa.entries().len() && wa.entries()[i].0 == k1[y];
        lemma_listed_key(wa.entries(), i);
        assert(location_info(k1[y]) == x.location);
    } else if y < ww.len() + rw.len() {
        let z = y - ww.len();
        assert(x == rw[z]);
        lemma_common_keys_in(ra.entries(), wb@, z);
        let i = choose|i: int| 0 <= i < ra.entries().len() && ra.entries()[i].0 == k2[z];
        lemma_listed_key(ra.entries(), i);
        assert(location_info(k2[z]) == x.location);
    } else {
        let z = y - ww.len() - rw.len();
        assert(x == wr[z]);
        lemma_common_keys_in(wa.entries(), rb@, z);
        let i = choose|i: int| 0 <= i < wa.entries().len() && wa.entries()[i].0 == k3[z];
        lemma_listed_key(wa.entries(), i);
        assert(location_info(k3[z]) == x.location);
    }
}

proof fn lemma_row_backed(txs: Seq<(ExecutionResult, WriteSet, ReadSet)>, a: int, upto: int, y: int)
    requires
        sets_wf(txs),
        0 <= a,
        upto <= txs.len(),
        0 <= y < row_conflicts(txs, a, upto).len(),
    ensures
        conflict_backed(txs, row_conflicts(txs, a, upto)[y]),
    decreases upto - a,
{
    let r = row_conflicts(txs, a, upto - 1);
    let p = pair_conflicts(txs, a, upto - 1);
    assert(row_conflicts(txs, a, upto) == r + p);
    if y < r.len() {
        lemma_row_backed(txs, a, upto - 1, y);
        assert((r + p)[y] == r[y]);
    } else {
        lemma_pair_backed(txs, a, upto - 1, y - r.len());
        assert((r + p)[y] == p[y - r.len()]);
    }
}

proof fn lemma_all_backed(txs: Seq<(ExecutionResult, WriteSet, ReadSet)>, upto: int, y: int)
    requires
        sets_wf(txs),
        0 <= upto <= txs.len(),
        0 <= y < all_conflicts(txs, upto).len(),
    ensures
        conflict_backed(txs, all_conflicts(txs, upto)[y]),
    decreases upto,
{
    let r = all_conflicts(txs, upto - 1);
    let p = row_conflicts(txs, upto - 1, txs.len() as int);
    assert(all_conflicts(txs, upto) == r + p);
    if y < r.len() {
        lemma_all_backed(txs, upto - 1, y);
        assert((r + p)[y] == r[y]);
    } else {
        lemma_row_backed(txs, upto - 1, txs.len() as int, y - r.len());
        assert((r + p)[y] == p[y - r.len()]);
    }
}

/// Every reported conflict is backed by the transactions' sets: they share
/// the location it names, both writing it, or one reading what the other
/// wrote.
pub proof fn lemma_conflicts_backed(txs: Seq<(ExecutionResult, WriteSet, ReadSet)>)
    requires
        sets_wf(txs),
    ensures
        forall|y: int|
            0 <= y < all_conflicts(txs, txs.len() as int).len() ==> conflict_backed(
                txs,
                #[trigger] all_conflicts(txs, txs.len() as int)[y],
            ),
{
    assert forall|y: int| 0 <= y < all_conflicts(txs, txs.len() as int).len() implies conflict_backed(
        txs,
        #[trigger] all_conflicts(txs, txs.len() as int)[y],
    ) by {
        lemma_all_backed(txs, txs.len() as int, y);
    }
}

/// Every reported conflict is between an earlier and a later transaction of
/// the block.
pub proof fn lemma_conflicts_ordered(txs: Seq<(ExecutionResult, WriteSet, ReadSet)>, upto: int)
    requires
        0 <= upto <= txs.len(),
    ensures
        forall|i: int|
            0 <= i < all_conflicts(txs, upto).len() ==> 0 <= (#[trigger] all_conflicts(txs, upto)[i]).tx_a
                < all_conflicts(txs, upto)[i].tx_b < txs.len(),
    decreases upto,
{
    if upto > 0 {
        lemma_conflicts_ordered(txs, upto - 1);
        lemma_row_ordered(txs, upto - 1, txs.len() as int);
        let r = all_conflicts(txs, upto - 1);
        let p = row_conflicts(txs, upto - 1, txs.len() as int);
        assert forall|i: int| 0 <= i < (r + p).len() implies 0 <= (#[trigger] (r + p)[i]).tx_a < (r
            + p)[i].tx_b < txs.len() by {
            if i >= r.len() {
                assert((r + p)[i] == p[i - r.len()]);
            }
        }
    }
}

/// The conflict views of a list of conflicts.
pub open spec fn conflict_views(v: Seq<ConflictPair>) -> Seq<ConflictView> {
    v.map_values(|c: ConflictPair| c@)
}

/// The read and write sets of `txs` are well formed.
pub open spec fn sets_wf(txs: Seq<(ExecutionResult, WriteSet, ReadSet)>) -> bool {
    forall|i: int| 0 <= i < txs.len() ==> (#[trigger] txs[i]).1.wf() && txs[i].2.wf()
}

fn render_reads(rs: &ReadSet) -> (v: Vec<LocationInfo>)
    requires
        rs.wf(),
    ensures
        info_views(v@) == infos_of(rs.entries()),
{
    let es = rs.iter();
    let mut v: Vec<LocationInfo> = Vec::new();
    let n = es.len();
    let mut i: usize = 0;
    while i < n
        invariant
            i <= n,
            n == es@.len(),
            es@ == rs.entries(),
            v@.len() == i,
            forall|j: int| 0 <= j < i ==> (#[trigger] v@[j])@ == location_info(es@[j].0),
        decreases n - i,
    {
        v.push(location_key_to_info(&es[i].0));
        i = i + 1;
    }
    assert(info_views(v@) =~= infos_of(rs.entries()));
    v
}

fn render_writes(ws: &WriteSet) -> (v: Vec<LocationInfo>)
    requires
        ws.wf(),
    ensures
        info_views(v@) == infos_of(ws.entries()),
{
    let es = ws.iter();
    let mut v: Vec<LocationInfo> = Vec::new();
    let n = es.len();
    let mut i: usize = 0;
    while i < n
        invariant
            i <= n,
            n == es@.len(),
            es@ == ws.entries(),
            v@.len() == i,
            forall|j: int| 0 <= j < i ==> (#[trigger] v@[j])@ == location_info(es@[j].0),
        decreases n - i,
    {
        v.push(location_key_to_info(&es[i].0));
        i = i + 1;
    }
    assert(info_views(v@) =~= infos_of(ws.entries()));
    v
}

/// Appends the conflicts of kind `kind` between `a` and `b` at the keys of
/// `es` that `other` holds (`other_has` answers membership in `other`).
fn push_common_writes(
    out: &mut Vec<ConflictPair>,
    es: &Vec<(LocationKey, WriteValue)>,
    other: &WriteSet,
    a: usize,
    b: usize,
    ww: bool,
)
    requires
        other.wf(),
    ensures
        conflict_views(final(out)@) == conflict_views(old(out)@) + conflicts_at(
            common_keys(es@, other@),
            a as int,
            b as int,
            if ww {
                "write-write"@
            } else {
                "read-write"@
            },
        ),
{
    let ghost kind = if ww {
        "write-write"@
    } else {
        "read-write"@
    };
    let n = es.len();
    let mut i: usize = 0;
    while i < n
        invariant
            i <= n,
            n == es@.len(),
            other.wf(),
            kind == (if ww {
                "write-write"@
            } else {
                "read-write"@
            }),
            conflict_views(out@) == conflict_views(old(out)@) + conflicts_at(
                common_keys(es@.take(i as int), other@),
                a as int,
                b as int,
                kind,
            ),
        decreases n - i,
    {
        let key = es[i].0;
        proof {
            assert(es@.take(i + 1).drop_last() =~= es@.take(i as int));
            assert(es@.take(i + 1).last() == es@[i as int]);
        }
        let ghost before = out@;
        if other.contains_key(&key) {
            let conflict_type = if ww {
                "write-write".to_string()
            } else {
                "read-write".to_string()
            };
            proof {
                reveal_strlit("write-write");
                reveal_strlit("read-write");
            }
            out.push(
                ConflictPair { location: location_key_to_info(&key), tx_a: a, tx_b: b, conflict_type },
            );
            proof {
                let ks = common_keys(es@.take(i as int), other@);
                assert(common_keys(es@.take(i + 1), other@) == ks.push(key));
                assert(conflicts_at(ks.push(key), a as int, b as int, kind) =~= conflicts_at(
                    ks,
                    a as int,
                    b as int,
                    kind,
                ).push(
                    ConflictView {
                        location: location_info(key),
                        tx_a: a as int,
                        tx_b: b as int,
                        conflict_type: kind,
                    },
                ));
                assert(conflict_views(out@) =~= conflict_views(before).push(out@.last()@));
            }
        }
        i = i + 1;
    }
    assert(es@.take(n as int) =~= es@);
}

/// Like `push_common_writes`, for the read entries of `es` against writes.
fn push_common_reads(
    out: &mut Vec<ConflictPair>,
    es: &Vec<(LocationKey, ReadOrigin)>,
    other: &WriteSet,
    a: usize,
    b: usize,
)
    requires
        other.wf(),
    ensures
        conflict_views(final(out)@) == conflict_views(old(out)@) + conflicts_at(
            common_keys(es@, other@),
            a as int,
            b as int,
            "read-write"@,
        ),
{
    let n = es.len();
    let mut i: usize = 0;
    while i < n
        invariant
            i <= n,
            n == es@.len(),
            other.wf(),
            conflict_views(out@) == conflict_views(old(out)@) + conflicts_at(
                common_keys(es@.take(i as int), other@),
                a as int,
                b as int,
                "read-write"@,
            ),
        decreases n - i,
    {
        let key = es[i].0;
        proof {
            assert(es@.take(i + 1).drop_last() =~= es@.take(i as int));
            assert(es@.take(i + 1).last() == es@[i as int]);
        }
        let ghost before = out@;
        if other.contains_key(&key) {
            let conflict_type = "read-write".to_string();
            proof {
                reveal_strlit("read-write");
            }
            out.push(
                ConflictPair { location: location_key_to_info(&key), tx_a: a, tx_b: b, conflict_type },
            );
            proof {
                let ks = common_keys(es@.take(i as int), other@);
                assert(conflicts_at(ks.push(key), a as int, b as int, "read-write"@) =~= conflicts_at(
                    ks,
                    a as int,
                    b as int,
                    "read-write"@,
                ).push(
                    ConflictView {
                        location: location_info(key),
                        tx_a: a as int,
                        tx_b: b as int,
                        conflict_type: "read-write"@,
                    },
                ));
                assert(conflict_views(out@) =~= conflict_views(before).push(out@.last()@));
            }
        }
        i = i + 1;
    }
    assert(es@.take(n as int) =~= es@);
}

/// Like `push_common_writes`, for write entries of `es` against reads.
fn push_writes_read_by(
    out: &mut Vec<ConflictPair>,
    es: &Vec<(LocationKey, WriteValue)>,
    other: &ReadSet,
    a: usize,
    b: usize,
)
    requires
        other.wf(),
    ensures
        conflict_views(final(out)@) == conflict_views(old(out)@) + conflicts_at(
            common_keys(es@, other@),
            a as int,
            b as int,
            "read-write"@,
        ),
{
    let n = es.len();
    let mut i: usize = 0;
    while i < n
        invariant
            i <= n,
            n == es@.len(),
            other.wf(),
            conflict_views(out@) == conflict_views(old(out)@) + conflicts_at(
                common_keys(es@.take(i as int), other@),
                a as int,
                b as int,
                "read-write"@,
            ),
        decreases n - i,
    {
        let key = es[i].0;
        proof {
            assert(es@.take(i + 1).drop_last() =~= es@.take(i as int));
            assert(es@.take(i + 1).last() == es@[i as int]);
        }
        let ghost before = out@;
        if other.contains_key(&key) {
            let conflict_type = "read-write".to_string();
            proof {
                reveal_strlit("read-write");
            }
            out.push(
                ConflictPair { location: location_key_to_info(&key), tx_a: a, tx_b: b, conflict_type },
            );
            proof {
                let ks = common_keys(es@.take(i as int), other@);
                assert(conflicts_at(ks.push(key), a as int, b as int, "read-write"@) =~= conflicts_at(
                    ks,
                    a as int,
                    b as int,
                    "read-write"@,
                ).push(
                    ConflictView {
                        location: location_info(key),
                        tx_a: a as int,
                        tx_b: b as int,
                        conflict_type: "read-write"@,
                    },
                ));
                assert(conflict_views(out@) =~= conflict_views(before).push(out@.last()@));
            }
        }
        i = i + 1;
    }
    assert(es@.take(n as int) =~= es@);
}

/// Analyses the read and write sets of a parallel execution: one access
/// summary per transaction, and every write-write and read-write conflict
/// between transaction pairs.
pub fn detect_conflicts(tx_results: &[(ExecutionResult, WriteSet, ReadSet)]) -> (d: ConflictDetails)
    requires
        sets_wf(tx_results@),
    ensures
        d.per_tx@.len() == tx_results@.len(),
        forall|i: int|
            0 <= i < tx_results@.len() ==> {
                &&& (#[trigger] d.per_tx@[i]).tx_index == i
                &&& info_views(d.per_tx@[i].reads@) == infos_of(tx_results@[i].2.entries())
                &&& info_views(d.per_tx@[i].writes@) == infos_of(tx_results@[i].1.entries())
            },
        conflict_views(d.conflicts@) == all_conflicts(tx_results@, tx_results@.len() as int),
{
    let ghost txs = tx_results@;
    let n = tx_results.len();
    let mut per_tx: Vec<TxAccessSummary> = Vec::new();
    let mut i: usize = 0;
    while i < n
        invariant
            i <= n,
            n == txs.len(),
            txs == tx_results@,
            sets_wf(txs),
            per_tx@.len() == i,
            forall|j: int|
                0 <= j < i ==> {
                    &&& (#[trigger] per_tx@[j]).tx_index == j
                    &&& info_views(per_tx@[j].reads@) == infos_of(txs[j].2.entries())
                    &&& info_views(per_tx@[j].writes@) == infos_of(txs[j].1.entries())
                },
        decreases n - i,
    {
        let t = &tx_results[i];
        assert(txs[i as int].1.wf() && txs[i as int].2.wf());
        let reads = render_reads(&t.2);
        let writes = render_writes(&t.1);
        per_tx.push(TxAccessSummary { tx_index: i, reads, writes });
        i = i + 1;
    }
    let mut conflicts: Vec<ConflictPair> = Vec::new();
    let mut a: usize = 0;
    assert(conflict_views(conflicts@) =~= all_conflicts(txs, 0));
    while a < n
        invariant
            a <= n,
            n == txs.len(),
            txs == tx_results@,
            sets_wf(txs),
            conflict_views(conflicts@) == all_conflicts(txs, a as int),
        decreases n - a,
    {
        let ta = &tx_results[a];
        assert(txs[a as int].1.wf() && txs[a as int].2.wf());
        let wa = ta.1.iter();
        let ra = ta.2.iter();
        let ghost start = conflicts@;
        let mut b: usize = a + 1;
        assert(row_conflicts(txs, a as int, (a + 1) as int) =~= Seq::<ConflictView>::empty());
        assert(conflict_views(conflicts@) =~= all_conflicts(txs, a as int) + row_conflicts(
            txs,
            a as int,
            b as int,
        ));
        while b < n
            invariant
                a < b <= n,
                n == txs.len(),
                txs == tx_results@,
                sets_wf(txs),
                wa@ == txs[a as int].1.entries(),
                ra@ == txs[a as int].2.entries(),
                conflict_views(conflicts@) == all_conflicts(txs, a as int) + row_conflicts(
                    txs,
                    a as int,
                    b as int,
                ),
            decreases n - b,
        {
            let tb = &tx_results[b];
            assert(txs[b as int].1.wf() && txs[b as int].2.wf());
            let ghost before = conflicts@;
            push_common_writes(&mut conflicts, &wa, &tb.1, a, b, true);
            push_common_reads(&mut conflicts, &ra, &tb.1, a, b);
            push_writes_read_by(&mut conflicts, &wa, &tb.2, a, b);
            proof {
                assert(row_conflicts(txs, a as int, b + 1) == row_conflicts(txs, a as int, b as int)
                    + pair_conflicts(txs, a as int, b as int));
                assert(conflict_views(conflicts@) =~= all_conflicts(txs, a as int) + row_conflicts(
                    txs,
                    a as int,
                    b + 1,
                ));
            }
            b = b + 1;
        }
        proof {
            assert(all_conflicts(txs, a + 1) == all_conflicts(txs, a as int) + row_conflicts(
                txs,
                a as int,
                n as int,
            ));
        }
        a = a + 1;
    }
    ConflictDetails { per_tx, conflicts }
}

} // verus!
