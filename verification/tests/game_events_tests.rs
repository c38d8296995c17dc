use monad_core::game_events::{
    GameEventMapper,
    conflict_note, pentatonic_note, re_execution_arpeggio, ConflictInput,
    GameEvent, GameEventType, ScheduledEvent, TxResult, GAME_EVENT_BYTES,
};

const LANE_BASE_NOTES: [u8; 4] = [60, 64, 67, 69];

fn of_type(events: &[ScheduledEvent], t: GameEventType) -> Vec<ScheduledEvent> {
    events.iter().filter(|e| e.event_type == t).cloned().collect()
}

fn ok(gas_used: u64) -> TxResult {
    TxResult { success: true, gas_used }
}

// --- Note computation tests ---

#[test]
fn test_pentatonic_note_lane_base_notes() {
    assert_eq!(pentatonic_note(0), 60);
    assert_eq!(pentatonic_note(1), 64);
    assert_eq!(pentatonic_note(2), 67);
    assert_eq!(pentatonic_note(3), 69);
}

#[test]
fn test_pentatonic_note_position_modulation() {
    assert_eq!(pentatonic_note(4), 62);
    assert_eq!(pentatonic_note(5), 66);
    assert_eq!(pentatonic_note(8), 64);
    assert_eq!(pentatonic_note(12), 67);
    assert_eq!(pentatonic_note(16), 69);
}

#[test]
fn test_pentatonic_note_cycling() {
    assert_eq!(pentatonic_note(20), 60);
}

#[test]
fn test_conflict_note_semitone_above() {
    assert_eq!(conflict_note(0), 61);
    assert_eq!(conflict_note(1), 65);
    assert_eq!(conflict_note(2), 68);
    assert_eq!(conflict_note(3), 70);
}

#[test]
fn test_re_execution_arpeggio() {
    let (n1, n2, n3) = re_execution_arpeggio(0);
    assert_eq!(n1, 60);
    assert_eq!(n2, 64);
    assert_eq!(n3, 67);

    let (n1, n2, n3) = re_execution_arpeggio(1);
    assert_eq!(n1, 64);
    assert_eq!(n2, 68);
    assert_eq!(n3, 71);
}

#[test]
fn pentatonic_note_of_largest_index() {
    // 65535 = 4 * 16383 + 3: lane 3 (A4), position 16383 % 5 = 3 (+7).
    assert_eq!(pentatonic_note(65535), 76);
    assert_eq!(conflict_note(65535), 70);
}

// --- Mapper tests ---

#[test]
fn test_map_no_conflicts_counter_contract() {
    let tx_results = vec![ok(100_000), ok(50_000), ok(50_000)];
    let incarnations = vec![0u32, 0, 0];
    let conflicts: Vec<ConflictInput> = vec![];

    let events = GameEventMapper::map_to_events(&tx_results, &incarnations, &conflicts);

    let tx_commits = of_type(&events, GameEventType::TxCommit);
    assert_eq!(tx_commits.len(), 3, "3 successful txs -> 3 TxCommit events");
    let block_completes = of_type(&events, GameEventType::BlockComplete);
    assert_eq!(block_completes.len(), 3, "block complete is C-E-G chord (3 notes)");
    assert!(events.iter().all(|e| e.event_type != GameEventType::Conflict));
    assert!(events.iter().all(|e| e.event_type != GameEventType::ReExecution));

    assert_eq!(tx_commits[0].note, 60);
    assert_eq!(tx_commits[1].note, 64);
    assert_eq!(tx_commits[2].note, 67);

    assert_eq!(block_completes[0].note, 60);
    assert_eq!(block_completes[1].note, 64);
    assert_eq!(block_completes[2].note, 67);
}

#[test]
fn test_map_with_conflicts() {
    let tx_results = vec![ok(50_000), ok(50_000)];
    let incarnations = vec![0u32, 0];
    let conflicts = vec![ConflictInput { tx_a: 0, tx_b: 1, slot_byte: 7 }];

    let events = GameEventMapper::map_to_events(&tx_results, &incarnations, &conflicts);

    let conflict_events = of_type(&events, GameEventType::Conflict);
    assert_eq!(conflict_events.len(), 1, "one conflict pair -> one conflict event");
    assert_eq!(conflict_events[0].slot, 7, "slot byte should be preserved");
    let lane = conflict_events[0].lane as usize;
    assert_eq!(conflict_events[0].note, LANE_BASE_NOTES[lane] + 1);
}

#[test]
fn test_map_with_re_execution() {
    let tx_results = vec![ok(50_000), ok(60_000)];
    let incarnations = vec![0u32, 2];
    let conflicts: Vec<ConflictInput> = vec![];

    let events = GameEventMapper::map_to_events(&tx_results, &incarnations, &conflicts);

    let re_exec_events = of_type(&events, GameEventType::ReExecution);
    assert_eq!(re_exec_events.len(), 3, "re-execution produces 3-note arpeggio");
    let resolved_events = of_type(&events, GameEventType::ReExecutionResolved);
    assert_eq!(resolved_events.len(), 1, "one resolved event per re-executed tx");

    let base = LANE_BASE_NOTES[1];
    assert_eq!(re_exec_events[0].note, base);
    assert_eq!(re_exec_events[1].note, base + 4);
    assert_eq!(re_exec_events[2].note, base + 7);
    assert_eq!(resolved_events[0].note, pentatonic_note(1));
}

#[test]
fn test_map_mixed_sender_contract() {
    let tx_results = vec![
        ok(100_000),
        ok(50_000),
        ok(50_000),
        ok(50_000),
        TxResult { success: false, gas_used: 30_000 },
    ];
    let incarnations = vec![0u32, 0, 1, 0, 0];
    let conflicts = vec![ConflictInput { tx_a: 1, tx_b: 2, slot_byte: 0 }];

    let events = GameEventMapper::map_to_events(&tx_results, &incarnations, &conflicts);

    assert_eq!(of_type(&events, GameEventType::TxCommit).len(), 4);
    assert_eq!(of_type(&events, GameEventType::Conflict).len(), 1);
    assert_eq!(of_type(&events, GameEventType::ReExecution).len(), 3);
    assert_eq!(of_type(&events, GameEventType::ReExecutionResolved).len(), 1);
    assert_eq!(of_type(&events, GameEventType::BlockComplete).len(), 3);
}

#[test]
fn test_map_empty_block() {
    let events = GameEventMapper::map_to_events(&[], &[], &[]);
    assert_eq!(events.len(), 3);
    assert!(events.iter().all(|e| e.event_type == GameEventType::BlockComplete));
}

#[test]
fn test_timestamps_are_monotonically_ordered() {
    let tx_results = vec![ok(50_000), ok(50_000), ok(50_000)];
    let incarnations = vec![0u32, 1, 0];
    let conflicts = vec![ConflictInput { tx_a: 0, tx_b: 1, slot_byte: 0 }];

    let events = GameEventMapper::map_to_events(&tx_results, &incarnations, &conflicts);

    for event in &events {
        assert!(event.time_ms >= 0, "timestamp should be non-negative");
    }
    let max_non_bc = events
        .iter()
        .filter(|e| e.event_type != GameEventType::BlockComplete)
        .map(|e| e.time_ms)
        .fold(0, i64::max);
    let min_bc = events
        .iter()
        .filter(|e| e.event_type == GameEventType::BlockComplete)
        .map(|e| e.time_ms)
        .fold(i64::MAX, i64::min);
    assert!(min_bc >= max_non_bc, "BlockComplete events should come after all other events");
}

#[test]
fn test_lane_assignment() {
    let tx_results: Vec<TxResult> = (0..8).map(|_| ok(50_000)).collect();
    let incarnations = vec![0u32; 8];
    let conflicts: Vec<ConflictInput> = vec![];

    let events = GameEventMapper::map_to_events(&tx_results, &incarnations, &conflicts);
    for commit in of_type(&events, GameEventType::TxCommit) {
        assert_eq!(commit.lane, (commit.tx_index % 4) as u8, "lane should be tx_index % 4");
    }
}

#[test]
fn test_conflict_dedup() {
    let tx_results = vec![ok(50_000), ok(50_000)];
    let incarnations = vec![0u32, 0];
    let conflicts = vec![ConflictInput { tx_a: 0, tx_b: 1, slot_byte: 3 }];

    let events = GameEventMapper::map_to_events(&tx_results, &incarnations, &conflicts);
    assert_eq!(of_type(&events, GameEventType::Conflict).len(), 1);
}

#[test]
fn test_multiple_conflicts_same_tx() {
    let tx_results = vec![ok(50_000), ok(50_000), ok(50_000)];
    let incarnations = vec![0u32, 0, 0];
    let conflicts = vec![
        ConflictInput { tx_a: 0, tx_b: 1, slot_byte: 1 },
        ConflictInput { tx_a: 1, tx_b: 2, slot_byte: 2 },
    ];

    let events = GameEventMapper::map_to_events(&tx_results, &incarnations, &conflicts);
    assert_eq!(of_type(&events, GameEventType::Conflict).len(), 2);
}

#[test]
fn mapper_exact_schedule_for_two_conflicting_txs() {
    let tx_results = vec![ok(1), ok(1)];
    let incarnations = vec![0u32, 1];
    let conflicts = vec![ConflictInput { tx_a: 1, tx_b: 0, slot_byte: 9 }];

    let events = GameEventMapper::map_to_events(&tx_results, &incarnations, &conflicts);
    let summary: Vec<(GameEventType, u16, u8, i64)> =
        events.iter().map(|e| (e.event_type, e.tx_index, e.note, e.time_ms)).collect();
    assert_eq!(
        summary,
        vec![
            (GameEventType::TxCommit, 0, 60, 0),
            (GameEventType::Conflict, 0, 61, 5),
            (GameEventType::TxCommit, 1, 64, 40),
            (GameEventType::ReExecution, 1, 64, 60),
            (GameEventType::ReExecution, 1, 68, 70),
            (GameEventType::ReExecution, 1, 71, 80),
            (GameEventType::ReExecutionResolved, 1, 64, 90),
            (GameEventType::BlockComplete, 0, 60, 110),
            (GameEventType::BlockComplete, 0, 64, 112),
            (GameEventType::BlockComplete, 0, 67, 114),
        ]
    );
}

// --- Binary serialization tests ---

fn event(event_type: GameEventType, lane: u8, tx_index: u16, note: u8, slot: u8, ts: f64) -> GameEvent {
    GameEvent { event_type, lane, tx_index, note, slot, timestamp_bits: ts.to_bits() }
}

#[test]
fn test_binary_round_trip_all_event_types() {
    let types = [
        GameEventType::TxCommit,
        GameEventType::Conflict,
        GameEventType::ReExecution,
        GameEventType::ReExecutionResolved,
        GameEventType::BlockComplete,
    ];
    for (i, &etype) in types.iter().enumerate() {
        let e = event(
            etype,
            (i as u8) % 4,
            (i as u16) * 100 + 7,
            60 + i as u8,
            i as u8,
            0.020 * (i as f64),
        );
        let bytes = e.to_bytes();
        assert_eq!(bytes.len(), GAME_EVENT_BYTES);
        let decoded = GameEvent::from_bytes(&bytes).expect("round-trip decode failed");
        assert_eq!(decoded, e, "round-trip mismatch for {:?}", etype);
    }
}

#[test]
fn test_binary_byte_level_js_compatibility() {
    let e = event(GameEventType::Conflict, 3, 258, 65, 7, 0.040);
    let bytes = e.to_bytes();
    assert_eq!(bytes[0], 2, "type byte");
    assert_eq!(bytes[1], 3, "lane byte");
    assert_eq!(bytes[2], 0x01, "tx_index high byte");
    assert_eq!(bytes[3], 0x02, "tx_index low byte");
    assert_eq!(bytes[4], 65, "note byte");
    assert_eq!(bytes[5], 7, "slot byte");
    let ts_bytes = (0.040_f64).to_be_bytes();
    assert_eq!(&bytes[6..14], &ts_bytes, "timestamp big-endian f64");
}

#[test]
fn test_binary_edge_cases() {
    let max_tx = event(GameEventType::TxCommit, 0, u16::MAX, 127, 255, 0.0);
    let bytes = max_tx.to_bytes();
    let decoded = GameEvent::from_bytes(&bytes).unwrap();
    assert_eq!(decoded.tx_index, 65535);
    assert_eq!(decoded.note, 127);
    assert_eq!(decoded.slot, 255);
    assert_eq!(f64::from_bits(decoded.timestamp_bits), 0.0);
    assert_eq!(bytes[2], 0xFF);
    assert_eq!(bytes[3], 0xFF);

    let large_ts = event(GameEventType::BlockComplete, 2, 0, 67, 0, 999_999.999_999);
    let decoded2 = GameEvent::from_bytes(&large_ts.to_bytes()).unwrap();
    assert_eq!(f64::from_bits(decoded2.timestamp_bits), 999_999.999_999);
}

#[test]
fn test_binary_invalid_type_byte() {
    let mut bytes = [0u8; GAME_EVENT_BYTES];
    bytes[0] = 0;
    assert!(GameEvent::from_bytes(&bytes).is_none(), "type 0 should fail");
    bytes[0] = 6;
    assert!(GameEvent::from_bytes(&bytes).is_none(), "type 6 should fail");
    bytes[0] = 255;
    assert!(GameEvent::from_bytes(&bytes).is_none(), "type 255 should fail");
}

#[test]
fn test_binary_buffer_too_short() {
    let short_buf = [1u8; 13];
    assert!(GameEvent::from_bytes(&short_buf).is_none(), "13 bytes should fail");
    assert!(GameEvent::from_bytes(&[]).is_none(), "empty buffer should fail");
}

#[test]
fn test_binary_game_event_bytes_constant() {
    assert_eq!(GAME_EVENT_BYTES, 14, "wire format is exactly 14 bytes");
}

#[test]
fn test_binary_from_u8_all_variants() {
    assert_eq!(GameEventType::from_u8(1), Some(GameEventType::TxCommit));
    assert_eq!(GameEventType::from_u8(2), Some(GameEventType::Conflict));
    assert_eq!(GameEventType::from_u8(3), Some(GameEventType::ReExecution));
    assert_eq!(GameEventType::from_u8(4), Some(GameEventType::ReExecutionResolved));
    assert_eq!(GameEventType::from_u8(5), Some(GameEventType::BlockComplete));
    assert_eq!(GameEventType::from_u8(0), None);
    assert_eq!(GameEventType::from_u8(6), None);
}

#[test]
fn binary_decode_ignores_trailing_bytes() {
    let e = event(GameEventType::ReExecution, 1, 9, 64, 0, 1.5);
    let mut longer = e.to_bytes().to_vec();
    longer.push(0xAA);
    assert_eq!(GameEvent::from_bytes(&longer), Some(e));
}

#[test]
fn conflict_of_a_failed_first_tx_sounds_at_zero() {
    let tx_results = vec![TxResult { success: false, gas_used: 0 }, ok(1)];
    let incarnations = vec![0u32, 0];
    let conflicts = vec![ConflictInput { tx_a: 0, tx_b: 1, slot_byte: 0 }];

    let events = GameEventMapper::map_to_events(&tx_results, &incarnations, &conflicts);
    let conflict = of_type(&events, GameEventType::Conflict);
    assert_eq!(conflict.len(), 1);
    assert_eq!(conflict[0].time_ms, 0);
    assert!(events.iter().all(|e| e.time_ms >= 0));
}
