//! Read sets and write sets of executed transactions.
//!
//! A `ReadSet` records, for every location a transaction read, where the
//! value came from. Validation re-reads every location and succeeds only if
//! each read would still come from the same place. A `WriteSet` records what
//! a transaction wrote; `apply_to` publishes it to the multi-version state.

use vstd::prelude::*;

use crate::mv_hashmap::{
    has_writer_below, is_max_writer, lemma_max_writer_exists, lemma_read_found,
    lemma_read_is_max_writer, spec_read, MVHashMap, MvCell, MvState,
};
use crate::mv_types::{Incarnation, LocationKey, MvReadResult, ReadOrigin, TxIndex, WriteValue};
use crate::primitives::OrderedKey;
use crate::sorted_map::{entries_map, strictly_sorted, SortedMap};

verus! {

/// A recorded read is still valid when a re-read returns the same version:
/// still nothing in the multi-version state for a base-state read, or the
/// same `(tx_index, incarnation)` for a multi-version read.
pub open spec fn read_still_valid(current: MvReadResult, recorded: ReadOrigin) -> bool {
    match (current, recorded) {
        (MvReadResult::NotFound, ReadOrigin::Storage) => true,
        (MvReadResult::NotFound, ReadOrigin::NotFound) => true,
        (
            MvReadResult::Value(_, current_tx, current_inc),
            ReadOrigin::MvHashMap { tx_index, incarnation },
        ) => current_tx == tx_index && current_inc == incarnation,
        _ => false,
    }
}

/// Every recorded read of `reads` is still valid for transaction `tx`.
pub open spec fn reads_valid(reads: Map<LocationKey, ReadOrigin>, m: MvState, tx: TxIndex) -> bool {
    forall|loc: LocationKey|
        #[trigger] reads.contains_key(loc) ==> read_still_valid(spec_read(m, loc, tx), reads[loc])
}

/// The multi-version state after `writes` of transaction `tx` (incarnation
/// `inc`) are published.
pub open spec fn spec_apply(
    m: MvState,
    writes: Map<LocationKey, WriteValue>,
    tx: TxIndex,
    inc: Incarnation,
) -> MvState {
    Map::new(
        |k: (LocationKey, TxIndex)| m.contains_key(k) || (k.1 == tx && writes.contains_key(k.0)),
        |k: (LocationKey, TxIndex)|
            if k.1 == tx && writes.contains_key(k.0) {
                MvCell { incarnation: inc, value: writes[k.0], estimate: false }
            } else {
                m[k]
            },
    )
}

// ── Laws ────────────────────────────────────────────────────────────────────

/// After a write set of `tx` is published, a later reader with no writer in
/// between reads each written value, with `tx`'s incarnation.
pub proof fn lemma_apply_then_read(
    m: MvState,
    writes: Map<LocationKey, WriteValue>,
    tx: TxIndex,
    inc: Incarnation,
    loc: LocationKey,
    reader: TxIndex,
)
    requires
        writes.contains_key(loc),
        tx < reader,
        forall|k: TxIndex| tx < k < reader ==> !m.contains_key((loc, k)),
    ensures
        spec_read(spec_apply(m, writes, tx, inc), loc, reader) == MvReadResult::Value(
            writes[loc],
            tx,
            inc,
        ),
{
    let m2 = spec_apply(m, writes, tx, inc);
    assert(is_max_writer(m2, loc, reader, tx)) by {
        assert forall|k: TxIndex| #[trigger] m2.contains_key((loc, k)) && k < reader implies k <= tx by {
            if k > tx {
                assert(m.contains_key((loc, k)));
            }
        }
    }
    lemma_read_is_max_writer(m2, loc, reader, tx);
}

/// A write to a location the reader recorded, by a transaction below the
/// reader and newer than the recorded origin, makes validation fail.
pub proof fn lemma_intervening_write_invalidates(
    reads: Map<LocationKey, ReadOrigin>,
    m: MvState,
    reader: TxIndex,
    loc: LocationKey,
    writer: TxIndex,
    cell: MvCell,
)
    requires
        reads.contains_key(loc),
        writer < reader,
        match reads[loc] {
            ReadOrigin::MvHashMap { tx_index, .. } => tx_index < writer,
            _ => true,
        },
    ensures
        !reads_valid(reads, m.insert((loc, writer), cell), reader),
{
    let m2 = m.insert((loc, writer), cell);
    assert(has_writer_below(m2, loc, reader)) by {
        assert(m2.contains_key((loc, writer)));
    }
    lemma_read_found(m2, loc, reader);
    lemma_max_writer_exists(m2, loc, reader);
    let j = choose|j: TxIndex| is_max_writer(m2, loc, reader, j);
    lemma_read_is_max_writer(m2, loc, reader, j);
    assert(m2.contains_key((loc, writer)) && writer < reader);
    assert(writer <= j);
    assert(!read_still_valid(spec_read(m2, loc, reader), reads[loc]));
}

/// Re-executing the recorded writer with another incarnation makes
/// validation fail.
pub proof fn lemma_reexecution_invalidates(
    reads: Map<LocationKey, ReadOrigin>,
    m: MvState,
    reader: TxIndex,
    loc: LocationKey,
    writer: TxIndex,
    old_inc: Incarnation,
    new_inc: Incarnation,
    value: WriteValue,
)
    requires
        reads.contains_key(loc),
        reads[loc] == (ReadOrigin::MvHashMap { tx_index: writer, incarnation: old_inc }),
        old_inc != new_inc,
        reads_valid(reads, m, reader),
    ensures
        !reads_valid(
            reads,
            m.insert((loc, writer), MvCell { incarnation: new_inc, value, estimate: false }),
            reader,
        ),
{
    let m2 = m.insert((loc, writer), MvCell { incarnation: new_inc, value, estimate: false });
    assert(read_still_valid(spec_read(m, loc, reader), reads[loc]));
    lemma_read_found(m, loc, reader);
    let cur = spec_read(m, loc, reader);
    assert(cur matches MvReadResult::Value(_, j, _) && j == writer);
    assert(is_max_writer(m, loc, reader, writer));
    assert(is_max_writer(m2, loc, reader, writer)) by {
        assert forall|k: TxIndex| #[trigger] m2.contains_key((loc, k)) && k < reader implies k
            <= writer by {
            if k != writer {
                assert(m.contains_key((loc, k)));
            }
        }
    }
    lemma_read_is_max_writer(m2, loc, reader, writer);
    assert(!read_still_valid(spec_read(m2, loc, reader), reads[loc]));
}

/// All reads performed by one transaction, keyed by location.
pub struct ReadSet {
    reads: SortedMap<LocationKey, ReadOrigin>,
}

impl ReadSet {
    pub closed spec fn wf(&self) -> bool {
        self.reads.wf()
    }

    pub closed spec fn view(&self) -> Map<LocationKey, ReadOrigin> {
        self.reads@
    }

    /// The recorded reads in increasing location order.
    pub closed spec fn entries(&self) -> Seq<(LocationKey, ReadOrigin)> {
        self.reads.entries()
    }

    /// The entries list the recorded reads in strictly increasing order.
    pub proof fn lemma_entries(&self)
        requires
            self.wf(),
        ensures
            strictly_sorted(self.entries()),
            self@ == entries_map(self.entries()),
            self@.dom().finite(),
            self@.len() == self.entries().len(),
    {
        self.reads.lemma_wf();
    }

    /// An empty read set.
    pub fn new() -> (r: ReadSet)
        ensures
            r.wf(),
            r@ == Map::<LocationKey, ReadOrigin>::empty(),
    {
        ReadSet { reads: SortedMap::new() }
    }

    /// Records that `location` was read from `origin` (a later record of the
    /// same location replaces an earlier one).
    pub fn record(&mut self, location: LocationKey, origin: ReadOrigin)
        requires
            old(self).wf(),
        ensures
            final(self).wf(),
            final(self)@ == old(self)@.insert(location, origin),
    {
        self.reads.insert(location, origin);
    }

    /// Whether `location` was read.
    pub fn contains_key(&self, location: &LocationKey) -> (b: bool)
        requires
            self.wf(),
        ensures
            b == self@.contains_key(*location),
    {
        self.reads.contains_key(location)
    }

    /// Re-reads every recorded location as transaction `tx_index` and
    /// reports whether every read is still valid.
    pub fn validate(&self, mv_state: &MVHashMap, tx_index: TxIndex) -> (valid: bool)
        requires
            self.wf(),
            mv_state.wf(),
        ensures
            valid == reads_valid(self@, mv_state@, tx_index),
    {
        proof {
            self.reads.lemma_wf();
        }
        let n = self.reads.len();
        let mut i: usize = 0;
        while i < n
            invariant
                self.wf(),
                mv_state.wf(),
                n == self.entries().len(),
                i <= n,
                forall|j: int|
                    0 <= j < i ==> read_still_valid(
                        spec_read(mv_state@, (#[trigger] self.entries()[j]).0, tx_index),
                        self.entries()[j].1,
                    ),
            decreases n - i,
        {
            let entry = self.reads.entry_at(i);
            let current = mv_state.read(&entry.0, tx_index);
            let still_valid = match (current, entry.1) {
                (MvReadResult::NotFound, ReadOrigin::Storage) => true,
                (MvReadResult::NotFound, ReadOrigin::NotFound) => true,
                (
                    MvReadResult::Value(_, current_tx, current_inc),
                    ReadOrigin::MvHashMap { tx_index: orig_tx, incarnation: orig_inc },
                ) => current_tx == orig_tx && current_inc == orig_inc,
                (MvReadResult::Estimate(_), _) => false,
                (MvReadResult::Value(_, _, _), ReadOrigin::Storage) => false,
                (MvReadResult::Value(_, _, _), ReadOrigin::NotFound) => false,
                (MvReadResult::NotFound, ReadOrigin::MvHashMap { .. }) => false,
            };
            if !still_valid {
                proof {
                    self.reads.lemma_wf();
                    let loc = self.entries()[i as int].0;
                    assert(self@.contains_key(loc) && self@[loc] == self.entries()[i as int].1);
                }
                return false;
            }
            i = i + 1;
        }
        proof {
            self.reads.lemma_wf();
            assert forall|loc: LocationKey| #[trigger] self@.contains_key(loc) implies read_still_valid(
                spec_read(mv_state@, loc, tx_index),
                self@[loc],
            ) by {
                let j = choose|j: int| 0 <= j < self.entries().len() && self.entries()[j].0 == loc;
                assert(read_still_valid(
                    spec_read(mv_state@, self.entries()[j].0, tx_index),
                    self.entries()[j].1,
                ));
            }
        }
        true
    }

    /// Number of recorded reads.
    pub fn len(&self) -> (n: usize)
        requires
            self.wf(),
        ensures
            n == self@.len(),
    {
        self.reads.len()
    }

    /// Whether no read was recorded.
    pub fn is_empty(&self) -> (b: bool)
        requires
            self.wf(),
        ensures
            b == (self@.len() == 0),
    {
        self.reads.is_empty()
    }

    /// The recorded reads in increasing location order.
    pub fn iter(&self) -> (v: Vec<(LocationKey, ReadOrigin)>)
        requires
            self.wf(),
        ensures
            v@ == self.entries(),
    {
        let n = self.reads.len();
        let mut v: Vec<(LocationKey, ReadOrigin)> = Vec::new();
        let mut i: usize = 0;
        while i < n
            invariant
                self.wf(),
                n == self.entries().len(),
                i <= n,
                v@ == self.entries().take(i as int),
            decreases n - i,
        {
            let e = *self.reads.entry_at(i);
            v.push(e);
            assert(self.entries().take(i + 1) =~= self.entries().take(i as int).push(e));
            i = i + 1;
        }
        assert(self.entries().take(n as int) =~= self.entries());
        v
    }
}

impl Default for ReadSet {
    fn default() -> (r: Self)
        ensures
            r.wf(),
            r@ == Map::<LocationKey, ReadOrigin>::empty(),
    {
        ReadSet::new()
    }
}

/// All writes performed by one transaction, keyed by location.
pub struct WriteSet {
    writes: SortedMap<LocationKey, WriteValue>,
}

proof fn lemma_prefix_map_push<V>(s: Seq<(LocationKey, V)>, i: int)
    requires
        strictly_sorted(s),
        0 <= i < s.len(),
    ensures
        entries_map(s.take(i + 1)) == entries_map(s.take(i)).insert(s[i].0, s[i].1),
{
    let a = s.take(i);
    let b = s.take(i + 1);
    assert(strictly_sorted(a));
    assert(strictly_sorted(b));
    crate::sorted_map::lemma_entries_map(a);
    crate::sorted_map::lemma_entries_map(b);
    let target = entries_map(a).insert(s[i].0, s[i].1);
    assert forall|k: LocationKey| #[trigger] entries_map(b).contains_key(k) <==> target.contains_key(
        k,
    ) by {
        if entries_map(b).contains_key(k) {
            let j = choose|j: int| 0 <= j < b.len() && b[j].0 == k;
            if j < i {
                assert(a[j].0 == k);
            }
        }
        if entries_map(a).contains_key(k) {
            let j = choose|j: int| 0 <= j < a.len() && a[j].0 == k;
            assert(b[j].0 == k);
        }
        if k == s[i].0 {
            assert(b[i].0 == k);
        }
    }
    assert forall|k: LocationKey| #[trigger] entries_map(b).contains_key(k) implies entries_map(b)[k]
        == target[k] by {
        let j = choose|j: int| 0 <= j < b.len() && b[j].0 == k;
        if j < i {
            assert(a[j].0 == k);
            assert(s[j].0.key_lt(s[i].0));
            LocationKey::lemma_key_lt_irreflexive(k);
        }
    }
    assert(entries_map(b) =~= target);
}

impl WriteSet {
    pub closed spec fn wf(&self) -> bool {
        self.writes.wf()
    }

    pub closed spec fn view(&self) -> Map<LocationKey, WriteValue> {
        self.writes@
    }

    /// The recorded writes in increasing location order.
    pub closed spec fn entries(&self) -> Seq<(LocationKey, WriteValue)> {
        self.writes.entries()
    }

    /// The entries list the recorded writes in strictly increasing order.
    pub proof fn lemma_entries(&self)
        requires
            self.wf(),
        ensures
            strictly_sorted(self.entries()),
            self@ == entries_map(self.entries()),
            self@.dom().finite(),
            self@.len() == self.entries().len(),
    {
        self.writes.lemma_wf();
    }

    /// An empty write set.
    pub fn new() -> (w: WriteSet)
        ensures
            w.wf(),
            w@ == Map::<LocationKey, WriteValue>::empty(),
    {
        WriteSet { writes: SortedMap::new() }
    }

    /// Records a write of `value` to `location` (a later write to the same
    /// location replaces an earlier one).
    pub fn record(&mut self, location: LocationKey, value: WriteValue)
        requires
            old(self).wf(),
        ensures
            final(self).wf(),
            final(self)@ == old(self)@.insert(location, value),
    {
        self.writes.insert(location, value);
    }

    /// Whether `location` was written.
    pub fn contains_key(&self, location: &LocationKey) -> (b: bool)
        requires
            self.wf(),
        ensures
            b == self@.contains_key(*location),
    {
        self.writes.contains_key(location)
    }

    /// Publishes every recorded write to the multi-version state as the
    /// write of transaction `tx_index` in incarnation `incarnation`.
    pub fn apply_to(&self, mv_state: &mut MVHashMap, tx_index: TxIndex, incarnation: Incarnation)
        requires
            self.wf(),
            old(mv_state).wf(),
        ensures
            final(mv_state).wf(),
            final(mv_state)@ == spec_apply(old(mv_state)@, self@, tx_index, incarnation),
    {
        let ghost m0 = mv_state@;
        let ghost s = self.entries();
        proof {
            self.writes.lemma_wf();
            assert(s.take(0) =~= Seq::<(LocationKey, WriteValue)>::empty());
            assert(spec_apply(m0, entries_map(s.take(0)), tx_index, incarnation) =~= m0);
        }
        let n = self.writes.len();
        let mut i: usize = 0;
        while i < n
            invariant
                self.wf(),
                s == self.entries(),
                strictly_sorted(s),
                n == s.len(),
                i <= n,
                mv_state.wf(),
                mv_state@ == spec_apply(m0, entries_map(s.take(i as int)), tx_index, incarnation),
            decreases n - i,
        {
            let e = self.writes.entry_at(i);
            let ghost before = mv_state@;
            mv_state.write(e.0, tx_index, incarnation, e.1);
            proof {
                lemma_prefix_map_push(s, i as int);
                let w0 = entries_map(s.take(i as int));
                let w1 = entries_map(s.take(i + 1));
                assert(w1 == w0.insert(e.0, e.1));
                assert(mv_state@ =~= spec_apply(m0, w1, tx_index, incarnation));
            }
            i = i + 1;
        }
        proof {
            assert(s.take(n as int) =~= s);
        }
    }

    /// Number of recorded writes.
    pub fn len(&self) -> (n: usize)
        requires
            self.wf(),
        ensures
            n == self@.len(),
    {
        self.writes.len()
    }

    /// Whether no write was recorded.
    pub fn is_empty(&self) -> (b: bool)
        requires
            self.wf(),
        ensures
            b == (self@.len() == 0),
    {
        self.writes.is_empty()
    }

    /// The recorded writes in increasing location order.
    pub fn iter(&self) -> (v: Vec<(LocationKey, WriteValue)>)
        requires
            self.wf(),
        ensures
            v@ == self.entries(),
    {
        let n = self.writes.len();
        let mut v: Vec<(LocationKey, WriteValue)> = Vec::new();
        let mut i: usize = 0;
        while i < n
            invariant
                self.wf(),
                n == self.entries().len(),
                i <= n,
                v@ == self.entries().take(i as int),
            decreases n - i,
        {
            let e = *self.writes.entry_at(i);
            v.push(e);
            assert(self.entries().take(i + 1) =~= self.entries().take(i as int).push(e));
            i = i + 1;
        }
        assert(self.entries().take(n as int) =~= self.entries());
        v
    }
}

impl Default for WriteSet {
    fn default() -> (w: Self)
        ensures
            w.wf(),
            w@ == Map::<LocationKey, WriteValue>::empty(),
    {
        WriteSet::new()
    }
}

} // verus!
