//! The multi-version state: for every location, the values written by each
//! transaction of the block, with ESTIMATE markers for transactions that are
//! being re-executed.
//!
//! A read by transaction `N` sees the write of the highest transaction index
//! below `N`; if that write is marked ESTIMATE, the read reports the writer
//! so the scheduler can suspend the reader.

use vstd::prelude::*;

use crate::mv_types::{Incarnation, LocationKey, MvReadResult, TxIndex, WriteValue};

verus! {

/// What one transaction wrote to one location.
#[derive(Clone, Copy, PartialEq, Eq, Structural, Debug)]
pub struct MvCell {
    pub incarnation: Incarnation,
    pub value: WriteValue,
    pub estimate: bool,
}

#[derive(Clone, Copy, Debug)]
struct MvEntry {
    location: LocationKey,
    tx_index: TxIndex,
    cell: MvCell,
}

// ── Laws ────────────────────────────────────────────────────────────────────

/// A read by a later transaction sees a write of `tx`, with its incarnation,
/// when no transaction between them wrote the location.
pub proof fn lemma_read_after_write(
    m: MvState,
    loc: LocationKey,
    tx: TxIndex,
    incarnation: Incarnation,
    value: WriteValue,
    reader: TxIndex,
)
    requires
        tx < reader,
        forall|k: TxIndex| tx < k < reader ==> !m.contains_key((loc, k)),
    ensures
        spec_read(
            m.insert((loc, tx), MvCell { incarnation, value, estimate: false }),
            loc,
            reader,
        ) == MvReadResult::Value(value, tx, incarnation),
{
    let m2 = m.insert((loc, tx), MvCell { incarnation, value, estimate: false });
    assert(is_max_writer(m2, loc, reader, tx)) by {
        assert forall|k: TxIndex| #[trigger] m2.contains_key((loc, k)) && k < reader implies k <= tx by {
            if k > tx {
                assert(m.contains_key((loc, k)));
            }
        }
    }
    lemma_read_is_max_writer(m2, loc, reader, tx);
}

/// A write of another location, or of a transaction that is not below the
/// reader, does not change what the reader sees.
pub proof fn lemma_unrelated_write_invisible(
    m: MvState,
    loc: LocationKey,
    written: LocationKey,
    tx: TxIndex,
    cell: MvCell,
    reader: TxIndex,
)
    requires
        written != loc || tx >= reader,
    ensures
        spec_read(m.insert((written, tx), cell), loc, reader) == spec_read(m, loc, reader),
{
    let m2 = m.insert((written, tx), cell);
    assert forall|k: TxIndex| k < reader implies (#[trigger] m2.contains_key((loc, k)) <==> m.contains_key(
        (loc, k),
    )) && (m.contains_key((loc, k)) ==> m2[(loc, k)] == m[(loc, k)]) by {
        assert((loc, k) != (written, tx));
    }
    lemma_read_found(m, loc, reader);
    lemma_read_found(m2, loc, reader);
    if has_writer_below(m, loc, reader) {
        let w = choose|j: TxIndex| #[trigger] m.contains_key((loc, j)) && j < reader;
        assert(m2.contains_key((loc, w)));
        lemma_max_writer_exists(m, loc, reader);
        let j = choose|j: TxIndex| is_max_writer(m, loc, reader, j);
        assert(is_max_writer(m2, loc, reader, j)) by {
            assert forall|k: TxIndex| #[trigger] m2.contains_key((loc, k)) && k < reader implies k
                <= j by {
                assert(m.contains_key((loc, k)));
            }
        }
        lemma_read_is_max_writer(m, loc, reader, j);
        lemma_read_is_max_writer(m2, loc, reader, j);
    } else {
        assert(!has_writer_below(m2, loc, reader)) by {
            if has_writer_below(m2, loc, reader) {
                let w = choose|j: TxIndex| #[trigger] m2.contains_key((loc, j)) && j < reader;
                assert(m.contains_key((loc, w)));
            }
        }
    }
}

/// Once the writes of `tx` are marked ESTIMATE, a reader whose latest
/// earlier writer is `tx` is told to wait for `tx`.
pub proof fn lemma_estimate_blocks_reader(m: MvState, loc: LocationKey, tx: TxIndex, reader: TxIndex)
    requires
        is_max_writer(m, loc, reader, tx),
    ensures
        spec_read(spec_mark_estimate(m, tx), loc, reader) == MvReadResult::Estimate(tx),
{
    let m2 = spec_mark_estimate(m, tx);
    assert(is_max_writer(m2, loc, reader, tx)) by {
        assert forall|k: TxIndex| #[trigger] m2.contains_key((loc, k)) && k < reader implies k <= tx by {
            assert(m.contains_key((loc, k)));
        }
    }
    lemma_read_is_max_writer(m2, loc, reader, tx);
}

/// Once the writes of `tx` are removed, no read returns a value or an
/// ESTIMATE of `tx`.
pub proof fn lemma_cleared_writer_invisible(m: MvState, loc: LocationKey, tx: TxIndex, reader: TxIndex)
    ensures
        !(spec_read(spec_clear(m, tx), loc, reader) matches MvReadResult::Value(_, j, _) && j == tx),
        spec_read(spec_clear(m, tx), loc, reader) != MvReadResult::Estimate(tx),
{
    lemma_read_found(spec_clear(m, tx), loc, reader);
}

/// Multi-version map from `(location, writer)` to the written value.
pub struct MVHashMap {
    entries: Vec<MvEntry>,
}

/// The abstract contents: which transaction wrote what where.
pub type MvState = Map<(LocationKey, TxIndex), MvCell>;

/// `j` is the highest transaction below `tx` that wrote `loc`.
pub open spec fn is_max_writer(m: MvState, loc: LocationKey, tx: TxIndex, j: TxIndex) -> bool {
    &&& m.contains_key((loc, j))
    &&& j < tx
    &&& forall|k: TxIndex| #[trigger] m.contains_key((loc, k)) && k < tx ==> k <= j
}

/// Some transaction below `tx` wrote `loc`.
pub open spec fn has_writer_below(m: MvState, loc: LocationKey, tx: TxIndex) -> bool {
    exists|j: TxIndex| #[trigger] m.contains_key((loc, j)) && j < tx
}

/// What a read of `loc` by transaction `tx` returns.
pub open spec fn spec_read(m: MvState, loc: LocationKey, tx: TxIndex) -> MvReadResult {
    if exists|j: TxIndex| is_max_writer(m, loc, tx, j) {
        let j = choose|j: TxIndex| is_max_writer(m, loc, tx, j);
        let c = m[(loc, j)];
        if c.estimate {
            MvReadResult::Estimate(j)
        } else {
            MvReadResult::Value(c.value, j, c.incarnation)
        }
    } else {
        MvReadResult::NotFound
    }
}

/// The state after every write of `tx` is marked ESTIMATE.
pub open spec fn spec_mark_estimate(m: MvState, tx: TxIndex) -> MvState {
    Map::new(
        |k: (LocationKey, TxIndex)| m.contains_key(k),
        |k: (LocationKey, TxIndex)|
            if k.1 == tx {
                MvCell { estimate: true, ..m[k] }
            } else {
                m[k]
            },
    )
}

/// The state after every write of `tx` is removed.
pub open spec fn spec_clear(m: MvState, tx: TxIndex) -> MvState {
    Map::new(|k: (LocationKey, TxIndex)| m.contains_key(k) && k.1 != tx, |k: (LocationKey, TxIndex)| m[k])
}

proof fn lemma_max_writer_unique(m: MvState, loc: LocationKey, tx: TxIndex, a: TxIndex, b: TxIndex)
    requires
        is_max_writer(m, loc, tx, a),
        is_max_writer(m, loc, tx, b),
    ensures
        a == b,
{
    assert(a <= b);
    assert(b <= a);
}

/// A read sees the highest earlier writer, if there is one.
pub proof fn lemma_read_is_max_writer(m: MvState, loc: LocationKey, tx: TxIndex, j: TxIndex)
    requires
        is_max_writer(m, loc, tx, j),
    ensures
        spec_read(m, loc, tx) == (if m[(loc, j)].estimate {
            MvReadResult::Estimate(j)
        } else {
            MvReadResult::Value(m[(loc, j)].value, j, m[(loc, j)].incarnation)
        }),
{
    let c = choose|c: TxIndex| is_max_writer(m, loc, tx, c);
    lemma_max_writer_unique(m, loc, tx, c, j);
}

/// If some earlier transaction wrote `loc`, a highest one exists.
pub proof fn lemma_max_writer_exists(m: MvState, loc: LocationKey, tx: TxIndex)
    requires
        has_writer_below(m, loc, tx),
    ensures
        exists|j: TxIndex| is_max_writer(m, loc, tx, j),
    decreases tx,
{
    let w = choose|j: TxIndex| #[trigger] m.contains_key((loc, j)) && j < tx;
    let t = (tx - 1) as TxIndex;
    if m.contains_key((loc, t)) {
        assert(is_max_writer(m, loc, tx, t));
    } else {
        assert(has_writer_below(m, loc, t)) by {
            assert(m.contains_key((loc, w)) && w < t);
        }
        lemma_max_writer_exists(m, loc, t);
        let j = choose|j: TxIndex| is_max_writer(m, loc, t, j);
        assert(is_max_writer(m, loc, tx, j)) by {
            assert forall|k: TxIndex| #[trigger] m.contains_key((loc, k)) && k < tx implies k <= j by {
                if k == t {
                } else {
                    assert(k < t);
                }
            }
        }
    }
}

/// A read returns a value or an ESTIMATE exactly when an earlier
/// transaction wrote the location, and then it names that writer.
pub proof fn lemma_read_found(m: MvState, loc: LocationKey, tx: TxIndex)
    ensures
        spec_read(m, loc, tx) is NotFound <==> !has_writer_below(m, loc, tx),
        spec_read(m, loc, tx) matches MvReadResult::Value(_, j, _) ==> is_max_writer(m, loc, tx, j),
        spec_read(m, loc, tx) matches MvReadResult::Estimate(j) ==> is_max_writer(m, loc, tx, j),
{
    if has_writer_below(m, loc, tx) {
        lemma_max_writer_exists(m, loc, tx);
    }
}

/// Two states hold the same writes of every transaction below `tx`.
pub open spec fn agree_below(m1: MvState, m2: MvState, tx: TxIndex) -> bool {
    forall|k: (LocationKey, TxIndex)|
        k.1 < tx ==> (#[trigger] m1.contains_key(k) == m2.contains_key(k) && (m1.contains_key(k) ==> m1[k]
            == m2[k]))
}

/// A read by `tx` sees only the writes of transactions below it.
pub proof fn lemma_read_agree(m1: MvState, m2: MvState, loc: LocationKey, tx: TxIndex)
    requires
        agree_below(m1, m2, tx),
    ensures
        spec_read(m1, loc, tx) == spec_read(m2, loc, tx),
{
    assert forall|j: TxIndex| is_max_writer(m1, loc, tx, j) <==> is_max_writer(m2, loc, tx, j) by {
        assert(m1.contains_key((loc, j)) == m2.contains_key((loc, j)) || j >= tx);
        if is_max_writer(m1, loc, tx, j) {
            assert forall|k: TxIndex| #[trigger] m2.contains_key((loc, k)) && k < tx implies k <= j by {
                assert(m1.contains_key((loc, k)));
            }
        }
        if is_max_writer(m2, loc, tx, j) {
            assert forall|k: TxIndex| #[trigger] m1.contains_key((loc, k)) && k < tx implies k <= j by {
                assert(m2.contains_key((loc, k)));
            }
        }
    }
    if exists|j: TxIndex| is_max_writer(m1, loc, tx, j) {
        let j1 = choose|j: TxIndex| is_max_writer(m1, loc, tx, j);
        let j2 = choose|j: TxIndex| is_max_writer(m2, loc, tx, j);
        assert(is_max_writer(m2, loc, tx, j1));
        lemma_max_writer_unique(m2, loc, tx, j1, j2);
        assert(m1[(loc, j1)] == m2[(loc, j1)]);
    }
}

spec fn entry_key(e: MvEntry) -> (LocationKey, TxIndex) {
    (e.location, e.tx_index)
}

spec fn entries_view(s: Seq<MvEntry>) -> MvState {
    Map::new(
        |k: (LocationKey, TxIndex)| exists|i: int| 0 <= i < s.len() && entry_key(s[i]) == k,
        |k: (LocationKey, TxIndex)| s[choose|i: int| 0 <= i < s.len() && entry_key(s[i]) == k].cell,
    )
}

spec fn keys_unique(s: Seq<MvEntry>) -> bool {
    forall|i: int, j: int|
        0 <= i < s.len() && 0 <= j < s.len() && i != j ==> entry_key(#[trigger] s[i]) != entry_key(
            #[trigger] s[j],
        )
}

proof fn lemma_entries_view(s: Seq<MvEntry>)
    requires
        keys_unique(s),
    ensures
        forall|i: int|
            0 <= i < s.len() ==> #[trigger] entries_view(s).contains_key(entry_key(s[i]))
                && entries_view(s)[entry_key(s[i])] == s[i].cell,
{
    assert forall|i: int| 0 <= i < s.len() implies #[trigger] entries_view(s).contains_key(
        entry_key(s[i]),
    ) && entries_view(s)[entry_key(s[i])] == s[i].cell by {
        let c = choose|c: int| 0 <= c < s.len() && entry_key(s[c]) == entry_key(s[i]);
        if c != i {
            assert(entry_key(s[c]) != entry_key(s[i]));
        }
    }
}

spec fn old_back_witness(back: Seq<int>, j: int, a: int) -> bool {
    back[j] == a
}

impl MVHashMap {
    pub closed spec fn wf(&self) -> bool {
        keys_unique(self.entries@)
    }

    pub closed spec fn view(&self) -> MvState {
        entries_view(self.entries@)
    }

    /// An empty multi-version state.
    pub fn new() -> (m: MVHashMap)
        ensures
            m.wf(),
            m@ == MvState::empty(),
    {
        let m = MVHashMap { entries: Vec::new() };
        assert(m@ =~= MvState::empty());
        m
    }

    /// Records that transaction `tx_index` (incarnation `incarnation`) wrote
    /// `value` to `location`, replacing that transaction's earlier write.
    pub fn write(
        &mut self,
        location: LocationKey,
        tx_index: TxIndex,
        incarnation: Incarnation,
        value: WriteValue,
    )
        requires
            old(self).wf(),
        ensures
            final(self).wf(),
            final(self)@ == old(self)@.insert(
                (location, tx_index),
                MvCell { incarnation, value, estimate: false },
            ),
    {
        let ghost s0 = self.entries@;
        let cell = MvCell { incarnation, value, estimate: false };
        let e = MvEntry { location, tx_index, cell };
        let n = self.entries.len();
        let mut i: usize = 0;
        while i < n
            invariant
                n == self.entries@.len(),
                self.entries@ == s0,
                old(self).entries@ == s0,
                keys_unique(s0),
                e == (MvEntry { location, tx_index, cell }),
                cell == (MvCell { incarnation, value, estimate: false }),
                i <= n,
                forall|j: int| 0 <= j < i ==> entry_key(#[trigger] s0[j]) != (location, tx_index),
            decreases n - i,
        {
            if self.entries[i].location == location && self.entries[i].tx_index == tx_index {
                assert(entry_key(s0[i as int]) == (location, tx_index));
                self.entries.set(i, e);
                proof {
                    let s = self.entries@;
                    assert(s == s0.update(i as int, e));
                    assert(keys_unique(s)) by {
                        assert forall|a: int, b: int|
                            0 <= a < s.len() && 0 <= b < s.len() && a != b implies entry_key(
                            #[trigger] s[a],
                        ) != entry_key(#[trigger] s[b]) by {
                            assert(entry_key(s[a]) == entry_key(s0[a]));
                            assert(entry_key(s[b]) == entry_key(s0[b]));
                        }
                    }
                    lemma_entries_view(s0);
                    lemma_entries_view(s);
                    assert(self@ =~= old(self)@.insert((location, tx_index), cell)) by {
                        assert forall|k: (LocationKey, TxIndex)| #[trigger] self@.contains_key(k)
                            <==> old(self)@.insert((location, tx_index), cell).contains_key(k) by {
                            if self@.contains_key(k) {
                                let c = choose|c: int| 0 <= c < s.len() && entry_key(s[c]) == k;
                                assert(entry_key(s0[c]) == k);
                            }
                            if old(self)@.contains_key(k) {
                                let c = choose|c: int| 0 <= c < s0.len() && entry_key(s0[c]) == k;
                                assert(entry_key(s[c]) == k);
                            }
                        }
                        assert forall|k: (LocationKey, TxIndex)| #[trigger] self@.contains_key(k)
                            implies self@[k] == old(self)@.insert((location, tx_index), cell)[k] by {
                            let c = choose|c: int| 0 <= c < s.len() && entry_key(s[c]) == k;
                            if c != i {
                                assert(entry_key(s0[c]) == k);
                                assert(s[c] == s0[c]);
                            }
                        }
                    }
                }
                return;
            }
            i = i + 1;
        }
        self.entries.push(e);
        proof {
            let s = self.entries@;
            assert(s == s0.push(e));
            assert(keys_unique(s)) by {
                assert forall|a: int, b: int|
                    0 <= a < s.len() && 0 <= b < s.len() && a != b implies entry_key(
                    #[trigger] s[a],
                ) != entry_key(#[trigger] s[b]) by {
                    if a < s0.len() && b < s0.len() {
                        assert(s[a] == s0[a]);
                        assert(s[b] == s0[b]);
                    } else if a < s0.len() {
                        assert(s[a] == s0[a]);
                    } else {
                        assert(s[b] == s0[b]);
                    }
                }
            }
            lemma_entries_view(s0);
            lemma_entries_view(s);
            assert(self@ =~= old(self)@.insert((location, tx_index), cell)) by {
                assert forall|k: (LocationKey, TxIndex)| #[trigger] self@.contains_key(k) <==> old(
                    self,
                )@.insert((location, tx_index), cell).contains_key(k) by {
                    if self@.contains_key(k) {
                        let c = choose|c: int| 0 <= c < s.len() && entry_key(s[c]) == k;
                        if c < s0.len() {
                            assert(entry_key(s0[c]) == k);
                        }
                    }
                    if old(self)@.contains_key(k) {
                        let c = choose|c: int| 0 <= c < s0.len() && entry_key(s0[c]) == k;
                        assert(entry_key(s[c]) == k);
                    }
                    if k == (location, tx_index) {
                        assert(entry_key(s[s0.len() as int]) == k);
                    }
                }
                assert forall|k: (LocationKey, TxIndex)| #[trigger] self@.contains_key(k) implies self@[k]
                    == old(self)@.insert((location, tx_index), cell)[k] by {
                    let c = choose|c: int| 0 <= c < s.len() && entry_key(s[c]) == k;
                    if c < s0.len() {
                        assert(entry_key(s0[c]) == k);
                        assert(s[c] == s0[c]);
                    }
                }
            }
        }
    }

    /// Reads `location` as seen by transaction `tx_index`: the write of the
    /// highest lower transaction, an ESTIMATE marker, or nothing.
    pub fn read(&self, location: &LocationKey, tx_index: TxIndex) -> (r: MvReadResult)
        requires
            self.wf(),
        ensures
            r == spec_read(self@, *location, tx_index),
    {
        let ghost s = self.entries@;
        proof {
            lemma_entries_view(s);
        }
        let n = self.entries.len();
        let mut best: Option<usize> = None;
        let mut i: usize = 0;
        while i < n
            invariant
                n == s.len(),
                s == self.entries@,
                i <= n,
                best matches Some(b) ==> b < i && s[b as int].location == *location
                    && s[b as int].tx_index < tx_index,
                best matches Some(b) ==> forall|j: int|
                    0 <= j < i && (#[trigger] s[j]).location == *location && s[j].tx_index
                        < tx_index ==> s[j].tx_index <= s[b as int].tx_index,
                best is None ==> forall|j: int|
                    0 <= j < i ==> !((#[trigger] s[j]).location == *location && s[j].tx_index
                        < tx_index),
            decreases n - i,
        {
            let e = self.entries[i];
            if e.location == *location && e.tx_index < tx_index {
                match best {
                    Some(b) => {
                        if e.tx_index > self.entries[b].tx_index {
                            best = Some(i);
                        }
                    },
                    None => {
                        best = Some(i);
                    },
                }
            }
            i = i + 1;
        }
        match best {
            Some(b) => {
                let e = self.entries[b];
                proof {
                    let m = self@;
                    let j = e.tx_index;
                    assert(m.contains_key((*location, j)));
                    assert forall|k: TxIndex| #[trigger] m.contains_key((*location, k)) && k
                        < tx_index implies k <= j by {
                        let c = choose|c: int| 0 <= c < s.len() && entry_key(s[c]) == (*location, k);
                        assert(s[c].location == *location);
                    }
                    assert(is_max_writer(m, *location, tx_index, j));
                    lemma_read_is_max_writer(m, *location, tx_index, j);
                }
                if e.cell.estimate {
                    MvReadResult::Estimate(e.tx_index)
                } else {
                    MvReadResult::Value(e.cell.value, e.tx_index, e.cell.incarnation)
                }
            },
            None => {
                proof {
                    let m = self@;
                    assert(!has_writer_below(m, *location, tx_index)) by {
                        if has_writer_below(m, *location, tx_index) {
                            let k = choose|k: TxIndex| #[trigger] m.contains_key((*location, k)) && k
                                < tx_index;
                            let c = choose|c: int|
                                0 <= c < s.len() && entry_key(s[c]) == (*location, k);
                            assert(s[c].location == *location);
                        }
                    }
                    lemma_read_found(m, *location, tx_index);
                }
                MvReadResult::NotFound
            },
        }
    }

    /// Marks every write of transaction `tx_index` as ESTIMATE.
    pub fn mark_estimate(&mut self, tx_index: TxIndex)
        requires
            old(self).wf(),
        ensures
            final(self).wf(),
            final(self)@ == spec_mark_estimate(old(self)@, tx_index),
    {
        let ghost s0 = self.entries@;
        let n = self.entries.len();
        let mut i: usize = 0;
        while i < n
            invariant
                n == s0.len(),
                self.entries@.len() == n,
                i <= n,
                forall|j: int|
                    0 <= j < n ==> entry_key(#[trigger] self.entries@[j]) == entry_key(s0[j]),
                forall|j: int|
                    0 <= j < i ==> (#[trigger] self.entries@[j]).cell == (if s0[j].tx_index
                        == tx_index {
                        MvCell { estimate: true, ..s0[j].cell }
                    } else {
                        s0[j].cell
                    }),
                forall|j: int| i <= j < n ==> #[trigger] self.entries@[j] == s0[j],
            decreases n - i,
        {
            let mut e = self.entries[i];
            if e.tx_index == tx_index {
                e.cell.estimate = true;
                self.entries.set(i, e);
            }
            i = i + 1;
        }
        proof {
            let s = self.entries@;
            assert(keys_unique(s)) by {
                assert forall|a: int, b: int|
                    0 <= a < s.len() && 0 <= b < s.len() && a != b implies entry_key(
                    #[trigger] s[a],
                ) != entry_key(#[trigger] s[b]) by {
                    assert(entry_key(s[a]) == entry_key(s0[a]));
                    assert(entry_key(s[b]) == entry_key(s0[b]));
                }
            }
            lemma_entries_view(s0);
            lemma_entries_view(s);
            let target = spec_mark_estimate(old(self)@, tx_index);
            assert(self@ =~= target) by {
                assert forall|k: (LocationKey, TxIndex)| #[trigger] self@.contains_key(k)
                    <==> target.contains_key(k) by {
                    if self@.contains_key(k) {
                        let c = choose|c: int| 0 <= c < s.len() && entry_key(s[c]) == k;
                        assert(entry_key(s0[c]) == k);
                    }
                    if old(self)@.contains_key(k) {
                        let c = choose|c: int| 0 <= c < s0.len() && entry_key(s0[c]) == k;
                        assert(entry_key(s[c]) == k);
                    }
                }
                assert forall|k: (LocationKey, TxIndex)| #[trigger] self@.contains_key(k) implies self@[k]
                    == target[k] by {
                    let c = choose|c: int| 0 <= c < s.len() && entry_key(s[c]) == k;
                    assert(entry_key(s0[c]) == k);
                }
            }
        }
    }

    /// Removes every write of transaction `tx_index`.
    pub fn clear(&mut self, tx_index: TxIndex)
        requires
            old(self).wf(),
        ensures
            final(self).wf(),
            final(self)@ == spec_clear(old(self)@, tx_index),
    {
        let ghost s0 = self.entries@;
        let mut kept: Vec<MvEntry> = Vec::new();
        let ghost mut back: Seq<int> = Seq::empty();
        let n = self.entries.len();
        let mut i: usize = 0;
        while i < n
            invariant
                n == s0.len(),
                self.entries@ == s0,
                i <= n,
                back.len() == i,
                forall|j: int|
                    0 <= j < i ==> (#[trigger] back[j] == -1 <==> s0[j].tx_index == tx_index),
                forall|j: int|
                    0 <= j < i && s0[j].tx_index != tx_index ==> 0 <= #[trigger] back[j] < kept@.len()
                        && kept@[back[j]] == s0[j],
                forall|a: int|
                    0 <= a < kept@.len() ==> (#[trigger] kept@[a]).tx_index != tx_index
                        && exists|j: int| 0 <= j < i && #[trigger] old_back_witness(back, j, a),
                keys_unique(kept@),
                keys_unique(s0),
            decreases n - i,
        {
            let e = self.entries[i];
            if e.tx_index != tx_index {
                let ghost k0 = kept@;
                kept.push(e);
                proof {
                    let a_new = k0.len() as int;
                    let b0 = back;
                    back = back.push(a_new);
                    assert(kept@[a_new] == s0[i as int]);
                    assert forall|a: int| 0 <= a < kept@.len() implies (#[trigger] kept@[a]).tx_index
                        != tx_index && exists|j: int| 0 <= j < i + 1 && #[trigger] old_back_witness(back, j, a) by {
                        if a < k0.len() {
                            assert(kept@[a] == k0[a]);
                            let j = choose|j: int| 0 <= j < i && old_back_witness(b0, j, a);
                            assert(back[j] == b0[j]);
                            assert(0 <= j < i + 1 && old_back_witness(back, j, a));
                        } else {
                            assert(old_back_witness(back, i as int, a));
                        }
                    }
                    assert(keys_unique(kept@)) by {
                        assert forall|a: int, b: int|
                            0 <= a < kept@.len() && 0 <= b < kept@.len() && a != b implies entry_key(
                            #[trigger] kept@[a],
                        ) != entry_key(#[trigger] kept@[b]) by {
                            if a < k0.len() && b < k0.len() {
                                assert(kept@[a] == k0[a]);
                                assert(kept@[b] == k0[b]);
                            } else {
                                let x = if a < k0.len() { a } else { b };
                                assert(kept@[x] == k0[x]);
                                let jx = choose|j: int| 0 <= j < i && old_back_witness(b0, j, x);
                                assert(k0[x] == s0[jx]);
                                assert(jx != i);
                            }
                        }
                    }
                }
            } else {
                proof {
                    let b0 = back;
                    back = back.push(-1);
                    assert forall|a: int| 0 <= a < kept@.len() implies (#[trigger] kept@[a]).tx_index
                        != tx_index && exists|j: int| 0 <= j < i + 1 && #[trigger] old_back_witness(back, j, a) by {
                        let j = choose|j: int| 0 <= j < i && old_back_witness(b0, j, a);
                        assert(back[j] == b0[j]);
                        assert(0 <= j < i + 1 && old_back_witness(back, j, a));
                    }
                }
            }
            i = i + 1;
        }
        self.entries = kept;
        proof {
            let s = self.entries@;
            lemma_entries_view(s0);
            lemma_entries_view(s);
            let target = spec_clear(old(self)@, tx_index);
            assert(self@ =~= target) by {
                assert forall|k: (LocationKey, TxIndex)| #[trigger] self@.contains_key(k)
                    <==> target.contains_key(k) by {
                    if self@.contains_key(k) {
                        let c = choose|c: int| 0 <= c < s.len() && entry_key(s[c]) == k;
                        let j = choose|j: int| 0 <= j < n && old_back_witness(back, j, c);
                        assert(s[c] == s0[j]);
                        assert(entry_key(s0[j]) == k);
                    }
                    if target.contains_key(k) {
                        let c = choose|c: int| 0 <= c < s0.len() && entry_key(s0[c]) == k;
                        let a = back[c];
                        assert(s[a] == s0[c]);
                        assert(entry_key(s[a]) == k);
                    }
                }
                assert forall|k: (LocationKey, TxIndex)| #[trigger] self@.contains_key(k) implies self@[k]
                    == target[k] by {
                    let c = choose|c: int| 0 <= c < s.len() && entry_key(s[c]) == k;
                    let j = choose|j: int| 0 <= j < n && old_back_witness(back, j, c);
                    assert(s[c] == s0[j]);
                    assert(entry_key(s0[j]) == k);
                }
            }
        }
    }
}

} // verus!
