//! Turning the results of a parallel execution into musical game events.
//!
//! Each successful transaction plays a pentatonic note in its lane; the
//! first new conflict of a transaction plays a dissonant note; every
//! re-executed transaction plays an ascending arpeggio and resolves back to
//! its pentatonic note; the block ends with a C-E-G chord.
//!
//! Times are kept in whole milliseconds from the start of the simulation:
//! events are 20 ms apart, a conflict sounds 5 ms after the commit before
//! it, arpeggio notes are 10 ms apart and the final chord is spread by 2 ms.
//!
//! On the wire an event is 14 bytes: type, lane, transaction index (two
//! bytes, big-endian), note, slot, then the eight big-endian bytes of the
//! timestamp's IEEE-754 bit pattern.

use vstd::prelude::*;

use crate::primitives::OrderedKey;
use crate::primitives::KeyOrder;
use crate::sorted_map::SortedMap;

verus! {

// ── Notes ───────────────────────────────────────────────────────────────────

/// Base MIDI note of each lane: C4, E4, G4, A4.
pub open spec fn lane_base_note(lane: int) -> u8 {
    if lane == 0 {
        60
    } else if lane == 1 {
        64
    } else if lane == 2 {
        67
    } else {
        69
    }
}

/// Pentatonic offsets +0, +2, +4, +7, +9, cycling with the position.
pub open spec fn pentatonic_offset(position: int) -> u8 {
    let p = position % 5;
    if p == 0 {
        0
    } else if p == 1 {
        2
    } else if p == 2 {
        4
    } else if p == 3 {
        7
    } else {
        9
    }
}

/// The note of a transaction: the base note of lane `tx_index % 4` plus the
/// pentatonic offset of position `tx_index / 4`.
pub open spec fn spec_pentatonic_note(tx_index: u16) -> u8 {
    (lane_base_note((tx_index % 4) as int) + pentatonic_offset((tx_index / 4) as int)) as u8
}

fn lane_base(lane: u16) -> (n: u8)
    requires
        lane < 4,
    ensures
        n == lane_base_note(lane as int),
{
    if lane == 0 {
        60
    } else if lane == 1 {
        64
    } else if lane == 2 {
        67
    } else {
        69
    }
}

/// The pentatonic note of a transaction.
pub fn pentatonic_note(tx_index: u16) -> (n: u8)
    ensures
        n == spec_pentatonic_note(tx_index),
{
    let lane = tx_index % 4;
    let position = tx_index / 4;
    let base = lane_base(lane);
    let p = position % 5;
    let offset: u8 = if p == 0 {
        0
    } else if p == 1 {
        2
    } else if p == 2 {
        4
    } else if p == 3 {
        7
    } else {
        9
    };
    base + offset
}

/// The conflict note: one semitone above the lane's base note.
pub fn conflict_note(tx_index: u16) -> (n: u8)
    ensures
        n == lane_base_note((tx_index % 4) as int) + 1,
{
    lane_base(tx_index % 4) + 1
}

/// The re-execution arpeggio: the lane's base note, +4 and +7 semitones.
pub fn re_execution_arpeggio(tx_index: u16) -> (r: (u8, u8, u8))
    ensures
        r.0 == lane_base_note((tx_index % 4) as int),
        r.1 == lane_base_note((tx_index % 4) as int) + 4,
        r.2 == lane_base_note((tx_index % 4) as int) + 7,
{
    let base = lane_base(tx_index % 4);
    (base, base + 4, base + 7)
}

// ── Events ──────────────────────────────────────────────────────────────────

/// Kind of a game event (wire tags 1 to 5).
#[derive(Debug, Clone, Copy, PartialEq, Eq, Structural)]
pub enum GameEventType {
    TxCommit,
    Conflict,
    ReExecution,
    ReExecutionResolved,
    BlockComplete,
}

impl GameEventType {
    /// The wire tag of the kind.
    pub open spec fn tag(self) -> u8 {
        match self {
            GameEventType::TxCommit => 1,
            GameEventType::Conflict => 2,
            GameEventType::ReExecution => 3,
            GameEventType::ReExecutionResolved => 4,
            GameEventType::BlockComplete => 5,
        }
    }

    /// The kind with wire tag `byte`, if any.
    pub open spec fn spec_from_u8(byte: u8) -> Option<GameEventType> {
        if byte == 1 {
            Some(GameEventType::TxCommit)
        } else if byte == 2 {
            Some(GameEventType::Conflict)
        } else if byte == 3 {
            Some(GameEventType::ReExecution)
        } else if byte == 4 {
            Some(GameEventType::ReExecutionResolved)
        } else if byte == 5 {
            Some(GameEventType::BlockComplete)
        } else {
            None
        }
    }

    /// The kind with wire tag `byte`; `None` for unknown tags.
    pub fn from_u8(byte: u8) -> (r: Option<GameEventType>)
        ensures
            r == Self::spec_from_u8(byte),
    {
        match byte {
            1 => Some(GameEventType::TxCommit),
            2 => Some(GameEventType::Conflict),
            3 => Some(GameEventType::ReExecution),
            4 => Some(GameEventType::ReExecutionResolved),
            5 => Some(GameEventType::BlockComplete),
            _ => None,
        }
    }

    /// The wire tag of the kind.
    pub fn to_u8(&self) -> (b: u8)
        ensures
            b == self.tag(),
    {
        match self {
            GameEventType::TxCommit => 1,
            GameEventType::Conflict => 2,
            GameEventType::ReExecution => 3,
            GameEventType::ReExecutionResolved => 4,
            GameEventType::BlockComplete => 5,
        }
    }
}

/// Size of an event on the wire.
pub const GAME_EVENT_BYTES: usize = 14;

/// A game event as sent to the frontend; `timestamp_bits` is the IEEE-754
/// bit pattern of the timestamp in seconds.
#[derive(Debug, Clone, Copy, PartialEq, Eq, Structural)]
pub struct GameEvent {
    pub event_type: GameEventType,
    pub lane: u8,
    pub tx_index: u16,
    pub note: u8,
    pub slot: u8,
    pub timestamp_bits: u64,
}

/// Byte `k` (0 = most significant) of a 64-bit word.
pub open spec fn u64_byte(x: u64, k: int) -> u8 {
    ((x >> ((8 * (7 - k)) as u64)) & 0xffu64) as u8
}

/// The 64-bit word with big-endian bytes `b[0..8]`.
pub open spec fn u64_from_bytes(b: Seq<u8>) -> u64 {
    ((b[0] as u64) << 56u64) | ((b[1] as u64) << 48u64) | ((b[2] as u64) << 40u64) | ((
    b[3] as u64) << 32u64) | ((b[4] as u64) << 24u64) | ((b[5] as u64) << 16u64) | ((b[6] as u64)
        << 8u64) | (b[7] as u64)
}

/// The 14 wire bytes of an event.
pub open spec fn spec_encode(e: GameEvent) -> Seq<u8> {
    seq![
        e.event_type.tag(),
        e.lane,
        (e.tx_index / 256) as u8,
        (e.tx_index % 256) as u8,
        e.note,
        e.slot,
        u64_byte(e.timestamp_bits, 0),
        u64_byte(e.timestamp_bits, 1),
        u64_byte(e.timestamp_bits, 2),
        u64_byte(e.timestamp_bits, 3),
        u64_byte(e.timestamp_bits, 4),
        u64_byte(e.timestamp_bits, 5),
        u64_byte(e.timestamp_bits, 6),
        u64_byte(e.timestamp_bits, 7),
    ]
}

/// The event that wire bytes `b` carry: `None` when fewer than 14 bytes or an
/// unknown type tag.
pub open spec fn spec_decode(b: Seq<u8>) -> Option<GameEvent> {
    if b.len() < 14 {
        None
    } else {
        match GameEventType::spec_from_u8(b[0]) {
            None => None,
            Some(t) => Some(
                GameEvent {
                    event_type: t,
                    lane: b[1],
                    tx_index: (b[2] * 256 + b[3]) as u16,
                    note: b[4],
                    slot: b[5],
                    timestamp_bits: u64_from_bytes(b.subrange(6, 14)),
                },
            ),
        }
    }
}

proof fn lemma_u64_bytes_round_trip(x: u64)
    by (bit_vector)
    ensures
        ((((x >> 56u64) & 0xffu64) as u8 as u64) << 56u64) | ((((x >> 48u64) & 0xffu64) as u8
            as u64) << 48u64) | ((((x >> 40u64) & 0xffu64) as u8 as u64) << 40u64) | ((((x
            >> 32u64) & 0xffu64) as u8 as u64) << 32u64) | ((((x >> 24u64) & 0xffu64) as u8
            as u64) << 24u64) | ((((x >> 16u64) & 0xffu64) as u8 as u64) << 16u64) | ((((x
            >> 8u64) & 0xffu64) as u8 as u64) << 8u64) | (((x >> 0u64) & 0xffu64) as u8 as u64)
            == x,
{
}

/// Decoding the wire bytes of an event gives the event back.
pub proof fn lemma_event_round_trip(e: GameEvent)
    ensures
        spec_decode(spec_encode(e)) == Some(e),
{
    let b = spec_encode(e);
    lemma_u64_bytes_round_trip(e.timestamp_bits);
    assert(b.subrange(6, 14) =~= seq![
        u64_byte(e.timestamp_bits, 0),
        u64_byte(e.timestamp_bits, 1),
        u64_byte(e.timestamp_bits, 2),
        u64_byte(e.timestamp_bits, 3),
        u64_byte(e.timestamp_bits, 4),
        u64_byte(e.timestamp_bits, 5),
        u64_byte(e.timestamp_bits, 6),
        u64_byte(e.timestamp_bits, 7),
    ]);
    assert(u64_from_bytes(b.subrange(6, 14)) == e.timestamp_bits);
    assert(GameEventType::spec_from_u8(e.event_type.tag()) == Some(e.event_type));
    assert(b[2] * 256 + b[3] == e.tx_index);
}

impl GameEvent {
    /// The 14 wire bytes of the event.
    pub fn to_bytes(&self) -> (buf: [u8; 14])
        ensures
            buf@ == spec_encode(*self),
    {
        let t = self.timestamp_bits;
        let buf: [u8; 14] = [
            self.event_type.to_u8(),
            self.lane,
            (self.tx_index / 256) as u8,
            (self.tx_index % 256) as u8,
            self.note,
            self.slot,
            ((t >> 56u64) & 0xffu64) as u8,
            ((t >> 48u64) & 0xffu64) as u8,
            ((t >> 40u64) & 0xffu64) as u8,
            ((t >> 32u64) & 0xffu64) as u8,
            ((t >> 24u64) & 0xffu64) as u8,
            ((t >> 16u64) & 0xffu64) as u8,
            ((t >> 8u64) & 0xffu64) as u8,
            (t & 0xffu64) as u8,
        ];
        proof {
            assert((t >> 0u64) == t) by (bit_vector);
            assert(buf@ =~= spec_encode(*self));
        }
        buf
    }

    /// The event carried by `buf`: `None` when `buf` has fewer than 14 bytes
    /// or an unknown type tag.
    pub fn from_bytes(buf: &[u8]) -> (r: Option<GameEvent>)
        ensures
            r == spec_decode(buf@),
    {
        if buf.len() < GAME_EVENT_BYTES {
            return None;
        }
        let event_type = match GameEventType::from_u8(buf[0]) {
            Some(t) => t,
            None => {
                return None;
            },
        };
        let tx_index: u16 = (buf[2] as u16) * 256 + (buf[3] as u16);
        let timestamp_bits: u64 = ((buf[6] as u64) << 56u64) | ((buf[7] as u64) << 48u64) | ((
        buf[8] as u64) << 40u64) | ((buf[9] as u64) << 32u64) | ((buf[10] as u64) << 24u64) | ((
        buf[11] as u64) << 16u64) | ((buf[12] as u64) << 8u64) | (buf[13] as u64);
        assert(buf@.subrange(6, 14)[0] == buf@[6]);
        assert(timestamp_bits == u64_from_bytes(buf@.subrange(6, 14)));
        Some(
            GameEvent {
                event_type,
                lane: buf[1],
                tx_index,
                note: buf[4],
                slot: buf[5],
                timestamp_bits,
            },
        )
    }
}

// ── Mapping execution results to events ─────────────────────────────────────

/// A game event with its time in milliseconds from the start of the simulation.
#[derive(Debug, Clone, Copy, PartialEq, Eq, Structural)]
pub struct ScheduledEvent {
    pub event_type: GameEventType,
    pub lane: u8,
    pub tx_index: u16,
    pub note: u8,
    pub slot: u8,
    pub time_ms: i64,
}

/// A conflict between two transactions, as the mapper takes it.
#[derive(Debug, Clone, Copy, PartialEq, Eq, Structural)]
pub struct ConflictInput {
    pub tx_a: usize,
    pub tx_b: usize,
    /// Slot identifier shown with the conflict.
    pub slot_byte: u8,
}

/// The outcome of one transaction, as the mapper takes it.
#[derive(Debug, Clone, Copy, PartialEq, Eq, Structural)]
pub struct TxResult {
    pub success: bool,
    pub gas_used: u64,
}

/// An unordered pair of transactions, smaller index first.
#[derive(Debug, Clone, Copy, PartialEq, Eq, Structural)]
pub struct TxPair {
    pub lo: u64,
    pub hi: u64,
}

impl OrderedKey for TxPair {
    open spec fn key_lt(self, other: Self) -> bool {
        self.lo < other.lo || (self.lo == other.lo && self.hi < other.hi)
    }

    proof fn lemma_key_lt_irreflexive(x: Self) {
    }

    proof fn lemma_key_lt_transitive(x: Self, y: Self, z: Self) {
    }

    proof fn lemma_key_lt_total(x: Self, y: Self) {
    }

    fn compare(&self, other: &Self) -> (c: KeyOrder) {
        if self.lo < other.lo {
            KeyOrder::Less
        } else if self.lo > other.lo {
            KeyOrder::Greater
        } else if self.hi < other.hi {
            KeyOrder::Less
        } else if self.hi > other.hi {
            KeyOrder::Greater
        } else {
            KeyOrder::Equal
        }
    }
}

/// The pair of a conflict.
pub open spec fn pair_of(c: ConflictInput) -> TxPair {
    if c.tx_a <= c.tx_b {
        TxPair { lo: c.tx_a as u64, hi: c.tx_b as u64 }
    } else {
        TxPair { lo: c.tx_b as u64, hi: c.tx_a as u64 }
    }
}

/// The 16-bit transaction index of position `i` (positions wrap at 2^16).
pub open spec fn tx16(i: int) -> u16 {
    (i % 65536) as u16
}

pub open spec fn commit_event(i: int, t: int) -> ScheduledEvent {
    ScheduledEvent {
        event_type: GameEventType::TxCommit,
        lane: (tx16(i) % 4) as u8,
        tx_index: tx16(i),
        note: spec_pentatonic_note(tx16(i)),
        slot: 0,
        time_ms: t as i64,
    }
}

pub open spec fn conflict_event(i: int, slot: u8, t: int) -> ScheduledEvent {
    ScheduledEvent {
        event_type: GameEventType::Conflict,
        lane: (tx16(i) % 4) as u8,
        tx_index: tx16(i),
        note: (lane_base_note((tx16(i) % 4) as int) + 1) as u8,
        slot,
        time_ms: t as i64,
    }
}

/// The mapper's progress: events so far, the current time and the conflict
/// pairs already seen.
pub struct MapState {
    pub events: Seq<ScheduledEvent>,
    pub t: int,
    pub emitted: Set<TxPair>,
}

/// When a conflict sounds at time `t`: 15 ms earlier, but never before the
/// start of the block.
pub open spec fn conflict_time(t: int) -> int {
    if t >= 15 {
        t - 15
    } else {
        0
    }
}

/// Transaction `i` meets conflict `c`: the pair is marked as seen; if it was
/// new and `i` has not sounded a conflict yet, a conflict event sounds 15 ms
/// before the current time (at 0 at the earliest) and time moves on by 20 ms.
pub open spec fn conflict_step(s: MapState, done: bool, i: int, c: ConflictInput) -> (MapState, bool) {
    let p = pair_of(c);
    let fresh = !s.emitted.contains(p);
    let s2 = MapState { emitted: s.emitted.insert(p), ..s };
    if fresh && !done {
        (
            MapState {
                events: s2.events.push(conflict_event(i, c.slot_byte, conflict_time(s2.t))),
                t: s2.t + 20,
                ..s2
            },
            true,
        )
    } else {
        (s2, done)
    }
}

/// Transaction `i` meets the conflicts of `cs` that involve it, in order
/// (a conflict of `i` with itself twice).
pub open spec fn scan_steps(s: MapState, done: bool, i: int, cs: Seq<ConflictInput>) -> (MapState, bool)
    decreases cs.len(),
{
    if cs.len() == 0 {
        (s, done)
    } else {
        let (s1, d1) = scan_steps(s, done, i, cs.drop_last());
        let c = cs.last();
        let (s2, d2) = if c.tx_a == i {
            conflict_step(s1, d1, i, c)
        } else {
            (s1, d1)
        };
        if c.tx_b == i {
            conflict_step(s2, d2, i, c)
        } else {
            (s2, d2)
        }
    }
}

/// The first phase over the first `k` transactions: a commit for each
/// successful one (then 20 ms), then its conflicts.
pub open spec fn tx_phase(txs: Seq<TxResult>, cs: Seq<ConflictInput>, k: int) -> MapState
    decreases k,
{
    if k <= 0 {
        MapState { events: Seq::empty(), t: 0, emitted: Set::empty() }
    } else {
        let s = tx_phase(txs, cs, k - 1);
        let s1 = if txs[k - 1].success {
            MapState { events: s.events.push(commit_event(k - 1, s.t)), t: s.t + 20, ..s }
        } else {
            s
        };
        scan_steps(s1, false, k - 1, cs).0
    }
}

pub open spec fn arpeggio_events(i: int, t: int) -> Seq<ScheduledEvent> {
    let lane = (tx16(i) % 4) as u8;
    let base = lane_base_note((tx16(i) % 4) as int);
    seq![
        ScheduledEvent { event_type: GameEventType::ReExecution, lane, tx_index: tx16(i), note: base, slot: 0, time_ms: t as i64 },
        ScheduledEvent { event_type: GameEventType::ReExecution, lane, tx_index: tx16(i), note: (base + 4) as u8, slot: 0, time_ms: (t + 10) as i64 },
        ScheduledEvent { event_type: GameEventType::ReExecution, lane, tx_index: tx16(i), note: (base + 7) as u8, slot: 0, time_ms: (t + 20) as i64 },
        ScheduledEvent { event_type: GameEventType::ReExecutionResolved, lane, tx_index: tx16(i), note: spec_pentatonic_note(tx16(i)), slot: 0, time_ms: (t + 30) as i64 },
    ]
}

/// The second phase over the first `k` incarnation counts: every re-executed
/// transaction plays its arpeggio and resolves 30 ms later; time moves on by
/// 50 ms.
pub open spec fn reexec_phase(s: MapState, incs: Seq<u32>, k: int) -> MapState
    decreases k,
{
    if k <= 0 {
        s
    } else {
        let s0 = reexec_phase(s, incs, k - 1);
        if incs[k - 1] > 0 {
            MapState { events: s0.events + arpeggio_events(k - 1, s0.t), t: s0.t + 50, ..s0 }
        } else {
            s0
        }
    }
}

pub open spec fn chord_events(t: int) -> Seq<ScheduledEvent> {
    seq![
        ScheduledEvent { event_type: GameEventType::BlockComplete, lane: 0, tx_index: 0, note: 60, slot: 0, time_ms: t as i64 },
        ScheduledEvent { event_type: GameEventType::BlockComplete, lane: 1, tx_index: 0, note: 64, slot: 0, time_ms: (t + 2) as i64 },
        ScheduledEvent { event_type: GameEventType::BlockComplete, lane: 2, tx_index: 0, note: 67, slot: 0, time_ms: (t + 4) as i64 },
    ]
}

/// All events of a block: commits and conflicts, re-executions, final chord.
pub open spec fn spec_map_to_events(
    txs: Seq<TxResult>,
    incs: Seq<u32>,
    cs: Seq<ConflictInput>,
) -> Seq<ScheduledEvent> {
    let s = reexec_phase(tx_phase(txs, cs, txs.len() as int), incs, incs.len() as int);
    s.events + chord_events(s.t)
}

proof fn lemma_scan_time(s: MapState, done: bool, i: int, cs: Seq<ConflictInput>)
    ensures
        done ==> scan_steps(s, done, i, cs).1,
        scan_steps(s, done, i, cs).0.t == s.t + (if scan_steps(s, done, i, cs).1 && !done {
            20int
        } else {
            0int
        }),
    decreases cs.len(),
{
    if cs.len() > 0 {
        lemma_scan_time(s, done, i, cs.drop_last());
    }
}

/// The mapper's progress is well-ordered: the current time is not negative;
/// events sorted by time, none negative, none after the time a conflict
/// would sound now, none a block-complete note, each in the lane of its
/// transaction.
pub open spec fn well_ordered(s: MapState) -> bool {
    &&& s.t >= 0
    &&& forall|a: int, b: int|
        0 <= a < b < s.events.len() ==> (#[trigger] s.events[a]).time_ms <= (#[trigger] s.events[b]).time_ms
    &&& forall|a: int| 0 <= a < s.events.len() ==> (#[trigger] s.events[a]).time_ms <= conflict_time(s.t)
    &&& forall|a: int| 0 <= a < s.events.len() ==> (#[trigger] s.events[a]).time_ms >= 0
    &&& forall|a: int|
        0 <= a < s.events.len() ==> (#[trigger] s.events[a]).event_type != GameEventType::BlockComplete
    &&& forall|a: int| 0 <= a < s.events.len() ==> (#[trigger] s.events[a]).lane == s.events[a].tx_index % 4
}

/// A time that every event time derived from it fits in an `i64`.
pub open spec fn time_in_range(t: int) -> bool {
    0 <= t <= 0x7fff_ffff_ffff_ff00
}

/// The schedule of `n` transactions and `m` incarnation counts fits the
/// millisecond clock: at most 40 ms per transaction and 50 ms per
/// re-execution, ending in range of an `i64`.
pub open spec fn schedule_fits(n: int, m: int) -> bool {
    40 * n + 50 * m <= 0x7fff_ffff_ffff_ff00
}

proof fn lemma_conflict_step_ordered(s: MapState, done: bool, i: int, c: ConflictInput)
    requires
        well_ordered(s),
        time_in_range(s.t + 20),
    ensures
        well_ordered(conflict_step(s, done, i, c).0),
{
    let r = conflict_step(s, done, i, c).0;
    if r.events.len() > s.events.len() {
        let e = conflict_event(i, c.slot_byte, conflict_time(s.t));
        assert(r.events == s.events.push(e));
        assert(e.time_ms == conflict_time(s.t));
        assert forall|a: int, b: int| 0 <= a < b < r.events.len() implies (#[trigger] r.events[a]).time_ms
            <= (#[trigger] r.events[b]).time_ms by {
            if b == s.events.len() {
                assert(r.events[a] == s.events[a]);
            } else {
                assert(r.events[a] == s.events[a] && r.events[b] == s.events[b]);
            }
        }
        assert forall|a: int| 0 <= a < r.events.len() implies (#[trigger] r.events[a]).time_ms <= conflict_time(
            r.t,
        ) && r.events[a].time_ms >= 0 by {
            if a < s.events.len() {
                assert(r.events[a] == s.events[a]);
            }
        }
        assert forall|a: int| 0 <= a < r.events.len() implies (#[trigger] r.events[a]).event_type
            != GameEventType::BlockComplete by {
            if a < s.events.len() {
                assert(r.events[a] == s.events[a]);
            }
        }
        assert forall|a: int| 0 <= a < r.events.len() implies (#[trigger] r.events[a]).lane
            == r.events[a].tx_index % 4 by {
            if a < s.events.len() {
                assert(r.events[a] == s.events[a]);
            }
        }
    }
}

proof fn lemma_scan_ordered(s: MapState, done: bool, i: int, cs: Seq<ConflictInput>)
    requires
        well_ordered(s),
        time_in_range(s.t + 20),
    ensures
        well_ordered(scan_steps(s, done, i, cs).0),
    decreases cs.len(),
{
    if cs.len() > 0 {
        lemma_scan_ordered(s, done, i, cs.drop_last());
        lemma_scan_time(s, done, i, cs.drop_last());
        let (s1, d1) = scan_steps(s, done, i, cs.drop_last());
        let c = cs.last();
        if c.tx_a == i {
            if !d1 {
                assert(s1.t == s.t);
                lemma_conflict_step_ordered(s1, d1, i, c);
            } else {
                assert(conflict_step(s1, d1, i, c).0.events == s1.events);
                assert(conflict_step(s1, d1, i, c).0.t == s1.t);
            }
        }
        let (s2, d2) = if c.tx_a == i {
            conflict_step(s1, d1, i, c)
        } else {
            (s1, d1)
        };
        assert(well_ordered(s2));
        assert(d2 || s2.t == s.t);
        if c.tx_b == i {
            if !d2 {
                lemma_conflict_step_ordered(s2, d2, i, c);
            } else {
                assert(conflict_step(s2, d2, i, c).0.events == s2.events);
                assert(conflict_step(s2, d2, i, c).0.t == s2.t);
            }
        }
    }
}

proof fn lemma_tx_phase_ordered(txs: Seq<TxResult>, cs: Seq<ConflictInput>, k: int)
    requires
        0 <= k,
        40 * k <= 0x7fff_ffff_ffff_ff00,
    ensures
        well_ordered(tx_phase(txs, cs, k)),
        0 <= tx_phase(txs, cs, k).t <= 40 * k,
    decreases k,
{
    if k > 0 {
        lemma_tx_phase_ordered(txs, cs, k - 1);
        let s = tx_phase(txs, cs, k - 1);
        let s1 = if txs[k - 1].success {
            MapState { events: s.events.push(commit_event(k - 1, s.t)), t: s.t + 20, ..s }
        } else {
            s
        };
        if txs[k - 1].success {
            let e = commit_event(k - 1, s.t);
            assert(e.time_ms == s.t);
            assert forall|a: int, b: int| 0 <= a < b < s1.events.len() implies (#[trigger] s1.events[a]).time_ms
                <= (#[trigger] s1.events[b]).time_ms by {
                if b == s.events.len() {
                    assert(s1.events[a] == s.events[a]);
                } else {
                    assert(s1.events[a] == s.events[a] && s1.events[b] == s.events[b]);
                }
            }
            assert forall|a: int| 0 <= a < s1.events.len() implies (#[trigger] s1.events[a]).time_ms <= conflict_time(
                s1.t,
            ) && s1.events[a].time_ms >= 0 by {
                if a < s.events.len() {
                    assert(s1.events[a] == s.events[a]);
                }
            }
            assert forall|a: int| 0 <= a < s1.events.len() implies (#[trigger] s1.events[a]).event_type
                != GameEventType::BlockComplete by {
                if a < s.events.len() {
                    assert(s1.events[a] == s.events[a]);
                }
            }
            assert forall|a: int| 0 <= a < s1.events.len() implies (#[trigger] s1.events[a]).lane
                == s1.events[a].tx_index % 4 by {
                if a < s.events.len() {
                    assert(s1.events[a] == s.events[a]);
                }
            }
        }
        lemma_scan_ordered(s1, false, k - 1, cs);
        lemma_scan_time(s1, false, k - 1, cs);
    }
}

proof fn lemma_reexec_ordered(s: MapState, incs: Seq<u32>, k: int)
    requires
        well_ordered(s),
        0 <= k <= incs.len(),
        time_in_range(s.t + 50 * k),
        s.t >= 0,
    ensures
        well_ordered(reexec_phase(s, incs, k)),
        s.t <= reexec_phase(s, incs, k).t <= s.t + 50 * k,
    decreases k,
{
    if k > 0 {
        lemma_reexec_ordered(s, incs, k - 1);
        let s0 = reexec_phase(s, incs, k - 1);
        if incs[k - 1] > 0 {
            let r = reexec_phase(s, incs, k);
            let arp = arpeggio_events(k - 1, s0.t);
            assert(r.events == s0.events + arp);
            assert(r.t == s0.t + 50);
            let n0 = s0.events.len();
            assert(arp[0].time_ms == s0.t);
            assert(arp[1].time_ms == s0.t + 10);
            assert(arp[2].time_ms == s0.t + 20);
            assert(arp[3].time_ms == s0.t + 30);
            assert forall|a: int| 0 <= a < r.events.len() implies (#[trigger] r.events[a]).time_ms
                == (if a < n0 {
                s0.events[a].time_ms as int
            } else {
                s0.t + 10 * (a - n0)
            }) by {
                if a >= n0 {
                    assert(r.events[a] == arp[a - n0]);
                } else {
                    assert(r.events[a] == s0.events[a]);
                }
            }
            assert forall|a: int, b: int| 0 <= a < b < r.events.len() implies (#[trigger] r.events[a]).time_ms
                <= (#[trigger] r.events[b]).time_ms by {
                if a < n0 && b < n0 {
                    assert(r.events[a] == s0.events[a] && r.events[b] == s0.events[b]);
                }
            }
            assert forall|a: int| 0 <= a < r.events.len() implies (#[trigger] r.events[a]).event_type
                != GameEventType::BlockComplete && r.events[a].lane == r.events[a].tx_index % 4 by {
                if a >= n0 {
                    assert(r.events[a] == arp[a - n0]);
                } else {
                    assert(r.events[a] == s0.events[a]);
                }
            }
        }
    }
}

/// The game events of a block come in time order, none before the start of
/// the block; the block ends with the C-E-G chord, which is the only place a
/// block-complete note sounds; every other event plays in the lane of its
/// transaction.
pub proof fn lemma_events_time_ordered(txs: Seq<TxResult>, incs: Seq<u32>, cs: Seq<ConflictInput>)
    requires
        schedule_fits(txs.len() as int, incs.len() as int),
    ensures
        ({
            let e = spec_map_to_events(txs, incs, cs);
            &&& forall|a: int, b: int|
                0 <= a < b < e.len() ==> (#[trigger] e[a]).time_ms <= (#[trigger] e[b]).time_ms
            &&& forall|a: int| 0 <= a < e.len() ==> (#[trigger] e[a]).time_ms >= 0
            &&& e.len() >= 3
            &&& e[e.len() - 3].event_type == GameEventType::BlockComplete && e[e.len() - 3].note == 60
            &&& e[e.len() - 2].event_type == GameEventType::BlockComplete && e[e.len() - 2].note == 64
            &&& e[e.len() - 1].event_type == GameEventType::BlockComplete && e[e.len() - 1].note == 67
            &&& forall|a: int|
                0 <= a < e.len() - 3 ==> (#[trigger] e[a]).event_type != GameEventType::BlockComplete
                    && e[a].lane == e[a].tx_index % 4
        }),
{
    let n = txs.len() as int;
    lemma_tx_phase_ordered(txs, cs, n);
    let p1 = tx_phase(txs, cs, n);
    lemma_reexec_ordered(p1, incs, incs.len() as int);
    let s = reexec_phase(p1, incs, incs.len() as int);
    let e = spec_map_to_events(txs, incs, cs);
    let ch = chord_events(s.t);
    assert(e == s.events + ch);
    let m = s.events.len();
    assert(ch[0].time_ms == s.t);
    assert(ch[1].time_ms == s.t + 2);
    assert(ch[2].time_ms == s.t + 4);
    assert forall|a: int| 0 <= a < e.len() implies (#[trigger] e[a]).time_ms == (if a < m {
        s.events[a].time_ms as int
    } else {
        s.t + 2 * (a - m)
    }) by {
        if a < m {
            assert(e[a] == s.events[a]);
        } else {
            assert(e[a] == ch[a - m]);
        }
    }
    assert forall|a: int, b: int| 0 <= a < b < e.len() implies (#[trigger] e[a]).time_ms
        <= (#[trigger] e[b]).time_ms by {
        if a < m && b < m {
            assert(e[a] == s.events[a] && e[b] == s.events[b]);
        }
    }
    assert forall|a: int| 0 <= a < e.len() implies (#[trigger] e[a]).time_ms >= 0 by {
        if a < m {
            assert(e[a] == s.events[a]);
        }
    }
    assert forall|a: int| 0 <= a < e.len() - 3 implies (#[trigger] e[a]).event_type
        != GameEventType::BlockComplete && e[a].lane == e[a].tx_index % 4 by {
        assert(e[a] == s.events[a]);
    }
    assert(e[e.len() - 3] == ch[0]);
    assert(e[e.len() - 2] == ch[1]);
    assert(e[e.len() - 1] == ch[2]);
}

/// How many of the events are of kind `k`.
pub open spec fn count_kind(e: Seq<ScheduledEvent>, k: GameEventType) -> int
    decreases e.len(),
{
    if e.len() == 0 {
        0
    } else {
        count_kind(e.drop_last(), k) + if e.last().event_type == k {
            1int
        } else {
            0int
        }
    }
}

/// How many transactions succeeded.
pub open spec fn success_count(txs: Seq<TxResult>) -> int
    decreases txs.len(),
{
    if txs.len() == 0 {
        0
    } else {
        success_count(txs.drop_last()) + if txs.last().success {
            1int
        } else {
            0int
        }
    }
}

/// How many transactions were re-executed (a positive incarnation).
pub open spec fn reexecuted(incs: Seq<u32>) -> int
    decreases incs.len(),
{
    if incs.len() == 0 {
        0
    } else {
        reexecuted(incs.drop_last()) + if incs.last() > 0 {
            1int
        } else {
            0int
        }
    }
}

proof fn lemma_count_append(a: Seq<ScheduledEvent>, b: Seq<ScheduledEvent>, k: GameEventType)
    ensures
        count_kind(a + b, k) == count_kind(a, k) + count_kind(b, k),
    decreases b.len(),
{
    if b.len() == 0 {
        assert(a + b =~= a);
    } else {
        lemma_count_append(a, b.drop_last(), k);
        assert((a + b).drop_last() =~= a + b.drop_last());
    }
}

proof fn lemma_conflict_step_counts(s: MapState, done: bool, i: int, c: ConflictInput, k: GameEventType)
    ensures
        k != GameEventType::Conflict ==> count_kind(conflict_step(s, done, i, c).0.events, k) == count_kind(
            s.events,
            k,
        ),
        count_kind(conflict_step(s, done, i, c).0.events, GameEventType::Conflict) <= count_kind(
            s.events,
            GameEventType::Conflict,
        ) + if done {
            0int
        } else {
            1int
        },
        conflict_step(s, done, i, c).1 == (done || conflict_step(s, done, i, c).0.events.len() > s.events.len()),
{
    let r = conflict_step(s, done, i, c).0;
    if r.events.len() > s.events.len() {
        assert(r.events.drop_last() =~= s.events);
    } else {
        assert(r.events == s.events);
    }
}

proof fn lemma_scan_counts(s: MapState, done: bool, i: int, cs: Seq<ConflictInput>, k: GameEventType)
    ensures
        k != GameEventType::Conflict ==> count_kind(scan_steps(s, done, i, cs).0.events, k) == count_kind(
            s.events,
            k,
        ),
        count_kind(scan_steps(s, done, i, cs).0.events, GameEventType::Conflict) + (if done {
            1int
        } else {
            0int
        }) <= count_kind(s.events, GameEventType::Conflict) + if scan_steps(s, done, i, cs).1 {
            1int
        } else {
            0int
        },
        done ==> scan_steps(s, done, i, cs).1,
    decreases cs.len(),
{
    if cs.len() > 0 {
        lemma_scan_counts(s, done, i, cs.drop_last(), k);
        let (s1, d1) = scan_steps(s, done, i, cs.drop_last());
        let c = cs.last();
        lemma_conflict_step_counts(s1, d1, i, c, k);
        lemma_conflict_step_counts(s1, d1, i, c, GameEventType::Conflict);
        let (s2, d2) = if c.tx_a == i {
            conflict_step(s1, d1, i, c)
        } else {
            (s1, d1)
        };
        lemma_conflict_step_counts(s2, d2, i, c, k);
        lemma_conflict_step_counts(s2, d2, i, c, GameEventType::Conflict);
    }
}

proof fn lemma_tx_phase_counts(txs: Seq<TxResult>, cs: Seq<ConflictInput>, k: int)
    requires
        0 <= k <= txs.len(),
    ensures
        count_kind(tx_phase(txs, cs, k).events, GameEventType::TxCommit) == success_count(txs.take(k)),
        count_kind(tx_phase(txs, cs, k).events, GameEventType::ReExecution) == 0,
        count_kind(tx_phase(txs, cs, k).events, GameEventType::ReExecutionResolved) == 0,
        count_kind(tx_phase(txs, cs, k).events, GameEventType::Conflict) <= k,
    decreases k,
{
    if k > 0 {
        lemma_tx_phase_counts(txs, cs, k - 1);
        let s = tx_phase(txs, cs, k - 1);
        let s1 = if txs[k - 1].success {
            MapState { events: s.events.push(commit_event(k - 1, s.t)), t: s.t + 20, ..s }
        } else {
            s
        };
        if txs[k - 1].success {
            assert(s1.events.drop_last() =~= s.events);
        }
        lemma_scan_counts(s1, false, k - 1, cs, GameEventType::TxCommit);
        lemma_scan_counts(s1, false, k - 1, cs, GameEventType::ReExecution);
        lemma_scan_counts(s1, false, k - 1, cs, GameEventType::ReExecutionResolved);
        lemma_scan_counts(s1, false, k - 1, cs, GameEventType::Conflict);
        assert(txs.take(k).drop_last() =~= txs.take(k - 1));
    } else {
        assert(txs.take(0) =~= Seq::<TxResult>::empty());
    }
}

proof fn lemma_reexec_counts(s: MapState, incs: Seq<u32>, k: int, kind: GameEventType)
    requires
        0 <= k <= incs.len(),
    ensures
        count_kind(reexec_phase(s, incs, k).events, kind) == count_kind(s.events, kind) + (if kind
            == GameEventType::ReExecution {
            3 * reexecuted(incs.take(k))
        } else if kind == GameEventType::ReExecutionResolved {
            reexecuted(incs.take(k))
        } else {
            0
        }),
    decreases k,
{
    if k > 0 {
        lemma_reexec_counts(s, incs, k - 1, kind);
        let s0 = reexec_phase(s, incs, k - 1);
        if incs[k - 1] > 0 {
            let arp = arpeggio_events(k - 1, s0.t);
            lemma_count_append(s0.events, arp, kind);
            assert(arp.drop_last().drop_last().drop_last().drop_last() =~= Seq::<ScheduledEvent>::empty());
            reveal_with_fuel(count_kind, 5);
        }
        assert(incs.take(k).drop_last() =~= incs.take(k - 1));
    } else {
        assert(incs.take(0) =~= Seq::<u32>::empty());
    }
}

/// Conflict `c` of the block pairs transaction `i` with itself or with a
/// later transaction, and `tx_index` is the 16-bit index of `i`.
pub open spec fn pairs_with_later(cs: Seq<ConflictInput>, c: ConflictInput, i: int, tx_index: u16) -> bool {
    &&& cs.contains(c)
    &&& tx_index == tx16(i)
    &&& ((c.tx_a == i && c.tx_b >= i) || (c.tx_b == i && c.tx_a >= i))
}

spec fn conflicts_witnessed(ev: Seq<ScheduledEvent>, cs: Seq<ConflictInput>, bound: int) -> bool {
    forall|x: int|
        0 <= x < ev.len() && (#[trigger] ev[x]).event_type == GameEventType::Conflict ==> exists|i: int, c: ConflictInput|
            0 <= i < bound && #[trigger] pairs_with_later(cs, c, i, ev[x].tx_index)
}

spec fn pairs_marked(emitted: Set<TxPair>, cs: Seq<ConflictInput>, bound: int) -> bool {
    forall|c: ConflictInput| cs.contains(c) && (c.tx_a < bound || c.tx_b < bound) ==> #[trigger] emitted.contains(pair_of(c))
}

proof fn lemma_witnessed_mono(ev: Seq<ScheduledEvent>, cs: Seq<ConflictInput>, b1: int, b2: int)
    requires
        conflicts_witnessed(ev, cs, b1),
        b1 <= b2,
    ensures
        conflicts_witnessed(ev, cs, b2),
{
    assert forall|x: int| 0 <= x < ev.len() && (#[trigger] ev[x]).event_type == GameEventType::Conflict implies exists|
        i: int,
        c: ConflictInput,
    | 0 <= i < b2 && #[trigger] pairs_with_later(cs, c, i, ev[x].tx_index) by {
        let (i, c) = choose|i: int, c: ConflictInput| 0 <= i < b1 && #[trigger] pairs_with_later(cs, c, i, ev[x].tx_index);
        assert(pairs_with_later(cs, c, i, ev[x].tx_index));
    }
}

proof fn lemma_step_marks(s: MapState, done: bool, i: int, c: ConflictInput, cs: Seq<ConflictInput>)
    requires
        cs.contains(c),
        c.tx_a == i || c.tx_b == i,
        pairs_marked(s.emitted, cs, i),
        conflicts_witnessed(s.events, cs, i + 1),
    ensures
        s.emitted.subset_of(conflict_step(s, done, i, c).0.emitted),
        conflict_step(s, done, i, c).0.emitted.contains(pair_of(c)),
        conflicts_witnessed(conflict_step(s, done, i, c).0.events, cs, i + 1),
{
    let r = conflict_step(s, done, i, c).0;
    let p = pair_of(c);
    if !s.emitted.contains(p) && !done {
        assert(!(c.tx_a < i || c.tx_b < i));
        let e = conflict_event(i, c.slot_byte, conflict_time(s.t));
        assert(r.events == s.events.push(e));
        assert(pairs_with_later(cs, c, i, e.tx_index));
        assert forall|x: int| 0 <= x < r.events.len() && (#[trigger] r.events[x]).event_type
            == GameEventType::Conflict implies exists|j: int, d: ConflictInput|
            0 <= j < i + 1 && #[trigger] pairs_with_later(cs, d, j, r.events[x].tx_index) by {
            if x < s.events.len() {
                assert(r.events[x] == s.events[x]);
                let (j, d) = choose|j: int, d: ConflictInput| 0 <= j < i + 1 && #[trigger] pairs_with_later(cs, d, j, s.events[x].tx_index);
                assert(pairs_with_later(cs, d, j, r.events[x].tx_index));
            } else {
                assert(r.events[x] == e);
            }
        }
    }
}

proof fn lemma_scan_marks(s: MapState, done: bool, i: int, cs2: Seq<ConflictInput>, cs: Seq<ConflictInput>)
    requires
        forall|x: int| 0 <= x < cs2.len() ==> cs.contains(#[trigger] cs2[x]),
        pairs_marked(s.emitted, cs, i),
        conflicts_witnessed(s.events, cs, i + 1),
    ensures
        s.emitted.subset_of(scan_steps(s, done, i, cs2).0.emitted),
        forall|x: int|
            0 <= x < cs2.len() && ((#[trigger] cs2[x]).tx_a == i || cs2[x].tx_b == i) ==> scan_steps(
                s,
                done,
                i,
                cs2,
            ).0.emitted.contains(pair_of(cs2[x])),
        conflicts_witnessed(scan_steps(s, done, i, cs2).0.events, cs, i + 1),
    decreases cs2.len(),
{
    if cs2.len() > 0 {
        let init = cs2.drop_last();
        assert forall|x: int| 0 <= x < init.len() implies cs.contains(#[trigger] init[x]) by {
            assert(init[x] == cs2[x]);
        }
        lemma_scan_marks(s, done, i, init, cs);
        let (s1, d1) = scan_steps(s, done, i, init);
        let c = cs2.last();
        assert(cs.contains(c)) by {
            assert(c == cs2[cs2.len() - 1]);
        }
        assert(pairs_marked(s1.emitted, cs, i)) by {
            assert forall|d: ConflictInput| cs.contains(d) && (d.tx_a < i || d.tx_b < i) implies #[trigger] s1.emitted.contains(
                pair_of(d),
            ) by {
                assert(s.emitted.contains(pair_of(d)));
            }
        }
        let (s2, d2) = if c.tx_a == i {
            conflict_step(s1, d1, i, c)
        } else {
            (s1, d1)
        };
        if c.tx_a == i {
            lemma_step_marks(s1, d1, i, c, cs);
        }
        assert(pairs_marked(s2.emitted, cs, i)) by {
            assert forall|d: ConflictInput| cs.contains(d) && (d.tx_a < i || d.tx_b < i) implies #[trigger] s2.emitted.contains(
                pair_of(d),
            ) by {
                assert(s1.emitted.contains(pair_of(d)));
            }
        }
        let r = scan_steps(s, done, i, cs2).0;
        if c.tx_b == i {
            lemma_step_marks(s2, d2, i, c, cs);
        }
        assert forall|x: int| 0 <= x < cs2.len() && ((#[trigger] cs2[x]).tx_a == i || cs2[x].tx_b == i) implies r.emitted.contains(
            pair_of(cs2[x]),
        ) by {
            if x < init.len() {
                assert(init[x] == cs2[x]);
                assert(s1.emitted.contains(pair_of(init[x])));
            }
        }
    }
}

proof fn lemma_tx_phase_marks(txs: Seq<TxResult>, cs: Seq<ConflictInput>, k: int)
    requires
        0 <= k <= txs.len(),
    ensures
        pairs_marked(tx_phase(txs, cs, k).emitted, cs, k),
        conflicts_witnessed(tx_phase(txs, cs, k).events, cs, k),
    decreases k,
{
    if k > 0 {
        lemma_tx_phase_marks(txs, cs, k - 1);
        let s = tx_phase(txs, cs, k - 1);
        let s1 = if txs[k - 1].success {
            MapState { events: s.events.push(commit_event(k - 1, s.t)), t: s.t + 20, ..s }
        } else {
            s
        };
        assert(conflicts_witnessed(s1.events, cs, k)) by {
            lemma_witnessed_mono(s.events, cs, k - 1, k);
            assert forall|x: int| 0 <= x < s1.events.len() && (#[trigger] s1.events[x]).event_type
                == GameEventType::Conflict implies exists|j: int, d: ConflictInput|
                0 <= j < k && #[trigger] pairs_with_later(cs, d, j, s1.events[x].tx_index) by {
                assert(x < s.events.len());
                assert(s1.events[x] == s.events[x]);
                let (j, d) = choose|j: int, d: ConflictInput| 0 <= j < k && #[trigger] pairs_with_later(cs, d, j, s.events[x].tx_index);
                assert(pairs_with_later(cs, d, j, s1.events[x].tx_index));
            }
        }
        assert forall|x: int| 0 <= x < cs.len() implies cs.contains(#[trigger] cs[x]) by {}
        lemma_scan_marks(s1, false, k - 1, cs, cs);
        let r = tx_phase(txs, cs, k);
        assert forall|c: ConflictInput| cs.contains(c) && (c.tx_a < k || c.tx_b < k) implies #[trigger] r.emitted.contains(
            pair_of(c),
        ) by {
            if c.tx_a < k - 1 || c.tx_b < k - 1 {
                assert(s1.emitted.contains(pair_of(c)));
            } else {
                let x = choose|x: int| 0 <= x < cs.len() && cs[x] == c;
                assert(cs[x].tx_a == k - 1 || cs[x].tx_b == k - 1);
            }
        }
    }
}

proof fn lemma_reexec_keeps_witnesses(s: MapState, incs: Seq<u32>, k: int, cs: Seq<ConflictInput>, bound: int)
    requires
        conflicts_witnessed(s.events, cs, bound),
        0 <= k <= incs.len(),
    ensures
        conflicts_witnessed(reexec_phase(s, incs, k).events, cs, bound),
    decreases k,
{
    if k > 0 {
        lemma_reexec_keeps_witnesses(s, incs, k - 1, cs, bound);
        let s0 = reexec_phase(s, incs, k - 1);
        if incs[k - 1] > 0 {
            let r = reexec_phase(s, incs, k);
            let arp = arpeggio_events(k - 1, s0.t);
            assert(r.events == s0.events + arp);
            assert forall|x: int| 0 <= x < r.events.len() && (#[trigger] r.events[x]).event_type
                == GameEventType::Conflict implies exists|j: int, d: ConflictInput|
                0 <= j < bound && #[trigger] pairs_with_later(cs, d, j, r.events[x].tx_index) by {
                if x < s0.events.len() {
                    assert(r.events[x] == s0.events[x]);
                    let (j, d) = choose|j: int, d: ConflictInput| 0 <= j < bound && #[trigger] pairs_with_later(cs, d, j, s0.events[x].tx_index);
                    assert(pairs_with_later(cs, d, j, r.events[x].tx_index));
                } else {
                    assert(r.events[x] == arp[x - s0.events.len()]);
                }
            }
        }
    }
}

/// A conflict pair sounds at most once, for the lower transaction that meets
/// it: each pair a transaction meets is marked as met, sounding or not, so
/// every conflict note of a transaction comes from a conflict pairing it with
/// itself or with a later transaction, never with an earlier one.
pub proof fn lemma_conflicts_sound_for_lower(txs: Seq<TxResult>, incs: Seq<u32>, cs: Seq<ConflictInput>)
    ensures
        ({
            let e = spec_map_to_events(txs, incs, cs);
            forall|x: int|
                0 <= x < e.len() && (#[trigger] e[x]).event_type == GameEventType::Conflict ==> exists|
                    i: int,
                    c: ConflictInput,
                | 0 <= i < txs.len() && #[trigger] pairs_with_later(cs, c, i, e[x].tx_index)
        }),
{
    let n = txs.len() as int;
    lemma_tx_phase_marks(txs, cs, n);
    let p1 = tx_phase(txs, cs, n);
    lemma_reexec_keeps_witnesses(p1, incs, incs.len() as int, cs, n);
    let s = reexec_phase(p1, incs, incs.len() as int);
    let e = spec_map_to_events(txs, incs, cs);
    let ch = chord_events(s.t);
    assert(e == s.events + ch);
    assert forall|x: int| 0 <= x < e.len() && (#[trigger] e[x]).event_type == GameEventType::Conflict implies exists|
        i: int,
        c: ConflictInput,
    | 0 <= i < n && #[trigger] pairs_with_later(cs, c, i, e[x].tx_index) by {
        if x < s.events.len() {
            assert(e[x] == s.events[x]);
            let (i, c) = choose|i: int, c: ConflictInput| 0 <= i < n && #[trigger] pairs_with_later(cs, c, i, s.events[x].tx_index);
            assert(pairs_with_later(cs, c, i, e[x].tx_index));
        } else {
            assert(e[x] == ch[x - s.events.len()]);
        }
    }
}

/// The game events of a block hold one commit note per successful
/// transaction, a three-note arpeggio and one resolving note per re-executed
/// transaction, the three notes of the final chord, and at most one
/// conflict note per transaction.
pub proof fn lemma_event_counts(txs: Seq<TxResult>, incs: Seq<u32>, cs: Seq<ConflictInput>)
    ensures
        ({
            let e = spec_map_to_events(txs, incs, cs);
            &&& count_kind(e, GameEventType::TxCommit) == success_count(txs)
            &&& count_kind(e, GameEventType::ReExecution) == 3 * reexecuted(incs)
            &&& count_kind(e, GameEventType::ReExecutionResolved) == reexecuted(incs)
            &&& count_kind(e, GameEventType::BlockComplete) == 3
            &&& count_kind(e, GameEventType::Conflict) <= txs.len()
        }),
{
    let n = txs.len() as int;
    let m = incs.len() as int;
    let p1 = tx_phase(txs, cs, n);
    lemma_tx_phase_counts(txs, cs, n);
    assert(txs.take(n) =~= txs);
    assert(incs.take(m) =~= incs);
    let s = reexec_phase(p1, incs, m);
    let ch = chord_events(s.t);
    lemma_reexec_counts(p1, incs, m, GameEventType::TxCommit);
    lemma_reexec_counts(p1, incs, m, GameEventType::ReExecution);
    lemma_reexec_counts(p1, incs, m, GameEventType::ReExecutionResolved);
    lemma_reexec_counts(p1, incs, m, GameEventType::Conflict);
    lemma_reexec_counts(p1, incs, m, GameEventType::BlockComplete);
    lemma_tx_phase_ordered_blockless(txs, cs, n);
    lemma_count_append(s.events, ch, GameEventType::TxCommit);
    lemma_count_append(s.events, ch, GameEventType::ReExecution);
    lemma_count_append(s.events, ch, GameEventType::ReExecutionResolved);
    lemma_count_append(s.events, ch, GameEventType::Conflict);
    lemma_count_append(s.events, ch, GameEventType::BlockComplete);
    assert(ch.drop_last().drop_last().drop_last() =~= Seq::<ScheduledEvent>::empty());
    reveal_with_fuel(count_kind, 4);
}

proof fn lemma_no_block_complete(e: Seq<ScheduledEvent>)
    requires
        forall|a: int| 0 <= a < e.len() ==> (#[trigger] e[a]).event_type != GameEventType::BlockComplete,
    ensures
        count_kind(e, GameEventType::BlockComplete) == 0,
    decreases e.len(),
{
    if e.len() > 0 {
        assert forall|a: int| 0 <= a < e.drop_last().len() implies (#[trigger] e.drop_last()[a]).event_type
            != GameEventType::BlockComplete by {
            assert(e.drop_last()[a] == e[a]);
        }
        lemma_no_block_complete(e.drop_last());
    }
}

proof fn lemma_tx_phase_ordered_blockless(txs: Seq<TxResult>, cs: Seq<ConflictInput>, n: int)
    requires
        n == txs.len(),
    ensures
        count_kind(tx_phase(txs, cs, n).events, GameEventType::BlockComplete) == 0,
{
    lemma_tx_phase_blockless(txs, cs, n);
    lemma_no_block_complete(tx_phase(txs, cs, n).events);
}

proof fn lemma_tx_phase_blockless(txs: Seq<TxResult>, cs: Seq<ConflictInput>, k: int)
    ensures
        forall|a: int|
            0 <= a < tx_phase(txs, cs, k).events.len() ==> (#[trigger] tx_phase(txs, cs, k).events[a]).event_type
                != GameEventType::BlockComplete,
    decreases k,
{
    if k > 0 {
        lemma_tx_phase_blockless(txs, cs, k - 1);
        let s = tx_phase(txs, cs, k - 1);
        let s1 = if txs[k - 1].success {
            MapState { events: s.events.push(commit_event(k - 1, s.t)), t: s.t + 20, ..s }
        } else {
            s
        };
        assert forall|a: int| 0 <= a < s1.events.len() implies (#[trigger] s1.events[a]).event_type
            != GameEventType::BlockComplete by {
            if a < s.events.len() {
                assert(s1.events[a] == s.events[a]);
            }
        }
        lemma_scan_blockless(s1, false, k - 1, cs);
    }
}

proof fn lemma_scan_blockless(s: MapState, done: bool, i: int, cs: Seq<ConflictInput>)
    requires
        forall|a: int| 0 <= a < s.events.len() ==> (#[trigger] s.events[a]).event_type != GameEventType::BlockComplete,
    ensures
        forall|a: int|
            0 <= a < scan_steps(s, done, i, cs).0.events.len() ==> (#[trigger] scan_steps(
                s,
                done,
                i,
                cs,
            ).0.events[a]).event_type != GameEventType::BlockComplete,
    decreases cs.len(),
{
    if cs.len() > 0 {
        lemma_scan_blockless(s, done, i, cs.drop_last());
        let (s1, d1) = scan_steps(s, done, i, cs.drop_last());
        let c = cs.last();
        lemma_step_blockless(s1, d1, i, c);
        let (s2, d2) = if c.tx_a == i {
            conflict_step(s1, d1, i, c)
        } else {
            (s1, d1)
        };
        lemma_step_blockless(s2, d2, i, c);
    }
}

proof fn lemma_step_blockless(s: MapState, done: bool, i: int, c: ConflictInput)
    requires
        forall|a: int| 0 <= a < s.events.len() ==> (#[trigger] s.events[a]).event_type != GameEventType::BlockComplete,
    ensures
        forall|a: int|
            0 <= a < conflict_step(s, done, i, c).0.events.len() ==> (#[trigger] conflict_step(
                s,
                done,
                i,
                c,
            ).0.events[a]).event_type != GameEventType::BlockComplete,
{
    let r = conflict_step(s, done, i, c).0;
    assert forall|a: int| 0 <= a < r.events.len() implies (#[trigger] r.events[a]).event_type
        != GameEventType::BlockComplete by {
        if a < s.events.len() {
            assert(r.events[a] == s.events[a]);
        }
    }
}

/// Records that transaction `i` meets conflict `c` (see `conflict_step`).
fn conflict_step_exec(
    events: &mut Vec<ScheduledEvent>,
    t: &mut i64,
    emitted: &mut SortedMap<TxPair, ()>,
    done: &mut bool,
    i: usize,
    c: &ConflictInput,
)
    requires
        old(emitted).wf(),
        0 <= *old(t) <= 0x7fff_ffff_ffff_ff00 - 20,
    ensures
        final(emitted).wf(),
        ({
            let (s, d) = conflict_step(
                MapState { events: old(events)@, t: *old(t) as int, emitted: old(emitted)@.dom() },
                *old(done),
                i as int,
                *c,
            );
            &&& final(events)@ == s.events
            &&& *final(t) as int == s.t
            &&& final(emitted)@.dom() == s.emitted
            &&& *final(done) == d
        }),
{
    let p = if c.tx_a <= c.tx_b {
        TxPair { lo: c.tx_a as u64, hi: c.tx_b as u64 }
    } else {
        TxPair { lo: c.tx_b as u64, hi: c.tx_a as u64 }
    };
    let fresh = !emitted.contains_key(&p);
    emitted.insert(p, ());
    assert(emitted@.dom() =~= old(emitted)@.dom().insert(p));
    if fresh && !*done {
        *done = true;
        let tx_index = (i % 65536) as u16;
        let lane = tx_index % 4;
        events.push(
            ScheduledEvent {
                event_type: GameEventType::Conflict,
                lane: lane as u8,
                tx_index,
                note: conflict_note(tx_index),
                slot: c.slot_byte,
                time_ms: if *t >= 15 {
                    *t - 15
                } else {
                    0
                },
            },
        );
        *t = *t + 20;
    }
}

/// Maps execution results to musical game events; holds no state.
pub struct GameEventMapper;

impl GameEventMapper {
    /// Maps the results of a parallel execution to the ordered game events of
    /// the block (see `spec_map_to_events`).
    pub fn map_to_events(
        tx_results: &[TxResult],
        incarnations: &[u32],
        conflicts: &[ConflictInput],
    ) -> (events: Vec<ScheduledEvent>)
        requires
            schedule_fits(tx_results@.len() as int, incarnations@.len() as int),
        ensures
            events@ == spec_map_to_events(tx_results@, incarnations@, conflicts@),
            forall|i: int| 0 <= i < events@.len() ==> (#[trigger] events@[i]).time_ms >= 0,
    {
        let ghost txs = tx_results@;
        let ghost cs = conflicts@;
        let ghost incs = incarnations@;
        let n = tx_results.len();
        let m = conflicts.len();
        let mut events: Vec<ScheduledEvent> = Vec::new();
        let mut t: i64 = 0;
        let mut emitted: SortedMap<TxPair, ()> = SortedMap::new();
        let mut i: usize = 0;
        assert(emitted@.dom() =~= Set::<TxPair>::empty());
        while i < n
            invariant
                i <= n,
                n == txs.len(),
                m == cs.len(),
                txs == tx_results@,
                cs == conflicts@,
                schedule_fits(n as int, incs.len() as int),
                emitted.wf(),
                0 <= t <= 40 * i,
                (MapState { events: events@, t: t as int, emitted: emitted@.dom() }) == tx_phase(txs, cs, i as int),
            decreases n - i,
        {
            let ghost s = tx_phase(txs, cs, i as int);
            let tx_index = (i % 65536) as u16;
            if tx_results[i].success {
                events.push(
                    ScheduledEvent {
                        event_type: GameEventType::TxCommit,
                        lane: (tx_index % 4) as u8,
                        tx_index,
                        note: pentatonic_note(tx_index),
                        slot: 0,
                        time_ms: t,
                    },
                );
                t = t + 20;
            }
            let ghost s1 = MapState { events: events@, t: t as int, emitted: emitted@.dom() };
            assert(s1 == (if txs[i as int].success {
                MapState { events: s.events.push(commit_event(i as int, s.t)), t: s.t + 20, ..s }
            } else {
                s
            }));
            let mut done = false;
            let mut k: usize = 0;
            while k < m
                invariant
                    i < n,
                    k <= m,
                    n == txs.len(),
                    m == cs.len(),
                    cs == conflicts@,
                    emitted.wf(),
                    schedule_fits(n as int, incs.len() as int),
                    0 <= s1.t <= 40 * i + 20,
                    t as int == s1.t + (if done {
                        20int
                    } else {
                        0int
                    }),
                    (MapState { events: events@, t: t as int, emitted: emitted@.dom() }, done) == scan_steps(
                        s1,
                        false,
                        i as int,
                        cs.take(k as int),
                    ),
                decreases m - k,
            {
                let c = &conflicts[k];
                proof {
                    lemma_scan_time(s1, false, i as int, cs.take(k as int));
                    assert(cs.take(k + 1).drop_last() =~= cs.take(k as int));
                    assert(cs.take(k + 1).last() == cs[k as int]);
                }
                let ghost before = (MapState { events: events@, t: t as int, emitted: emitted@.dom() }, done);
                if c.tx_a == i {
                    conflict_step_exec(&mut events, &mut t, &mut emitted, &mut done, i, c);
                }
                let ghost mid = (MapState { events: events@, t: t as int, emitted: emitted@.dom() }, done);
                assert(mid == (if c.tx_a == i {
                    conflict_step(before.0, before.1, i as int, *c)
                } else {
                    before
                }));
                proof {
                    if c.tx_a == i {
                        if !before.1 && mid.1 {
                            assert(mid.0.t == before.0.t + 20);
                        }
                    }
                }
                if c.tx_b == i {
                    proof {
                        if c.tx_a == i && !before.1 && mid.1 {
                            assert(t as int == s1.t + 20);
                        }
                    }
                    conflict_step_exec(&mut events, &mut t, &mut emitted, &mut done, i, c);
                }
                k = k + 1;
            }
            proof {
                lemma_scan_time(s1, false, i as int, cs);
                assert(cs.take(m as int) =~= cs);
            }
            i = i + 1;
        }
        let ni = incarnations.len();
        let mut j: usize = 0;
        let ghost p1 = tx_phase(txs, cs, n as int);
        while j < ni
            invariant
                j <= ni,
                ni == incs.len(),
                incs == incarnations@,
                schedule_fits(n as int, ni as int),
                0 <= t <= 40 * n + 50 * j,
                (MapState { events: events@, t: t as int, emitted: emitted@.dom() }) == reexec_phase(p1, incs, j as int),
            decreases ni - j,
        {
            if incarnations[j] > 0 {
                let tx_index = (j % 65536) as u16;
                let lane = (tx_index % 4) as u8;
                let (n1, n2, n3) = re_execution_arpeggio(tx_index);
                let ghost before = events@;
                events.push(ScheduledEvent { event_type: GameEventType::ReExecution, lane, tx_index, note: n1, slot: 0, time_ms: t });
                events.push(ScheduledEvent { event_type: GameEventType::ReExecution, lane, tx_index, note: n2, slot: 0, time_ms: t + 10 });
                events.push(ScheduledEvent { event_type: GameEventType::ReExecution, lane, tx_index, note: n3, slot: 0, time_ms: t + 20 });
                events.push(ScheduledEvent { event_type: GameEventType::ReExecutionResolved, lane, tx_index, note: pentatonic_note(tx_index), slot: 0, time_ms: t + 30 });
                assert(events@ =~= before + arpeggio_events(j as int, t as int));
                t = t + 50;
            }
            j = j + 1;
        }
        let ghost before = events@;
        events.push(ScheduledEvent { event_type: GameEventType::BlockComplete, lane: 0, tx_index: 0, note: 60, slot: 0, time_ms: t });
        events.push(ScheduledEvent { event_type: GameEventType::BlockComplete, lane: 1, tx_index: 0, note: 64, slot: 0, time_ms: t + 2 });
        events.push(ScheduledEvent { event_type: GameEventType::BlockComplete, lane: 2, tx_index: 0, note: 67, slot: 0, time_ms: t + 4 });
        assert(events@ =~= before + chord_events(t as int));
        proof {
            lemma_events_time_ordered(txs, incs, cs);
        }
        events
    }
}

} // verus!
