use ddr_chart_tools::model::{Beat, Style, Difficulty, PanelSet, ShockSide, Note, NoteKind, Chart};
use ddr_chart_tools::ssq::SsqError;
use ddr_chart_tools::ssq::chunk::ChunkHeader;
use ddr_chart_tools::ssq::mines::{parse_chunk, write_chunk, ENTRY_SIZE, MINE_CHUNK_TYPE};

/// Build a MINE_DATA chunk header with the given `param2` and
/// `param3`. `length` is computed from `param3`.
fn mine_header(param2: u16, param3: u16) -> ChunkHeader {
    ChunkHeader {
        length: ChunkHeader::HEADER_SIZE + (ENTRY_SIZE as u32) * u32::from(param3),
        ty: MINE_CHUNK_TYPE,
        param2,
        param3,
        param4: 0,
    }
}

/// Serialize one 8-byte mine entry.
fn entry_bytes(beat_count: i32, panels: u8, flags: u8, reserved: u16) -> [u8; 8] {
    let mut out = [0u8; 8];
    out[0..4].copy_from_slice(&(beat_count as u32).to_le_bytes());
    out[4] = panels;
    out[5] = flags;
    out[6..8].copy_from_slice(&reserved.to_le_bytes());
    out
}

/// Build a chunk body from a list of well-formed entries.
fn body_from_entries(entries: &[(i32, u8, u8, u16)]) -> Vec<u8> {
    let mut body = Vec::with_capacity(entries.len() * ENTRY_SIZE);
    for (beat, panels, flags, reserved) in entries {
        body.extend_from_slice(&entry_bytes(*beat, *panels, *flags, *reserved));
    }
    body
}

/// Build a chart with the given style/difficulty and a list of
/// `NoteKind::Mine` notes at the specified `(beat_tick, panels)`.
fn mine_chart(style: Style, difficulty: Difficulty, mines: &[(i32, u8)]) -> Chart {
    let notes = mines
        .iter()
        .map(|(tick, panels)| Note {
            beat: Beat::from_measure_ticks(i64::from(*tick)).unwrap(),
            kind: NoteKind::Mine,
            panels: PanelSet::from_bits(style, *panels),
        })
        .collect();
    Chart {
        style,
        difficulty,
        notes,
    }
}

#[test]
fn parse_chunk_valid_single_basic_header_parses() {
    // param2 = 0x0114 (Single Basic), one valid mine entry.
    let header = mine_header(0x0114, 1);
    let body = body_from_entries(&[(2048, 0x04, 0, 0)]);
    let (param2, notes) = parse_chunk(&header, &body, 100).unwrap();
    assert_eq!(param2, 0x0114);
    assert_eq!(notes.len(), 1);
    assert_eq!(notes[0].kind, NoteKind::Mine);
    assert_eq!(notes[0].panels.bits(), 0x04);
    assert_eq!(notes[0].beat, Beat::from_measure_ticks(2048).unwrap());
}

#[test]
fn parse_chunk_param2_zero_is_orphan_and_skipped() {
    let header = mine_header(0, 1);
    let body = body_from_entries(&[(0, 0x01, 0, 0)]);
    assert!(parse_chunk(&header, &body, 100).is_none());
}

#[test]
fn parse_chunk_invalid_slot_0x05_is_skipped() {
    // 0x0514: style=0x14 (Single), slot=0x05 (not a valid slot).
    let header = mine_header(0x0514, 1);
    let body = body_from_entries(&[(0, 0x01, 0, 0)]);
    assert!(parse_chunk(&header, &body, 200).is_none());
}

#[test]
fn parse_chunk_invalid_style_byte_is_skipped() {
    // 0x01AB: slot=0x01 (valid), style=0xAB (garbage).
    let header = mine_header(0x01AB, 1);
    let body = body_from_entries(&[(0, 0x01, 0, 0)]);
    assert!(parse_chunk(&header, &body, 300).is_none());
}

#[test]
fn parse_chunk_length_mismatch_is_skipped() {
    // Declare param3=2 but give the header a length that says 1 entry.
    let mut header = mine_header(0x0114, 2);
    header.length = ChunkHeader::HEADER_SIZE + ENTRY_SIZE as u32; // room for 1 entry
    let body = body_from_entries(&[(0, 0x01, 0, 0), (1024, 0x02, 0, 0)]);
    assert!(parse_chunk(&header, &body, 400).is_none());
}

#[test]
fn parse_chunk_entry_panels_zero_is_skipped() {
    let header = mine_header(0x0114, 1);
    let body = body_from_entries(&[(0, 0x00, 0, 0)]);
    let (_, notes) = parse_chunk(&header, &body, 500).unwrap();
    assert!(notes.is_empty(), "0x00 panels should be skipped");
}

#[test]
fn parse_chunk_entry_shock_mask_0xff_on_single_recovers_bothsides() {
    let header = mine_header(0x0114, 1);
    let body = body_from_entries(&[(2048, 0xFF, 0, 0)]);
    let (_, notes) = parse_chunk(&header, &body, 600).unwrap();
    assert_eq!(notes.len(), 1);
    match &notes[0].kind {
        NoteKind::Shock {
            side: ShockSide::BothSides,
        } => {}
        other => panic!("expected BothSides Shock, got {other:?}"),
    }
}

#[test]
fn parse_chunk_entry_shock_mask_0xff_on_double_recovers_bothsides() {
    let header = mine_header(0x0118, 1);
    let body = body_from_entries(&[(2048, 0xFF, 0, 0)]);
    let (_, notes) = parse_chunk(&header, &body, 700).unwrap();
    assert_eq!(notes.len(), 1);
    match &notes[0].kind {
        NoteKind::Shock {
            side: ShockSide::BothSides,
        } => {}
        other => panic!("expected BothSides Shock, got {other:?}"),
    }
}

#[test]
fn parse_chunk_entry_shock_mask_0x0f_on_single_recovers_bothsides() {
    let header = mine_header(0x0114, 1);
    let body = body_from_entries(&[(2048, 0x0F, 0, 0)]);
    let (_, notes) = parse_chunk(&header, &body, 800).unwrap();
    assert_eq!(notes.len(), 1);
    match &notes[0].kind {
        NoteKind::Shock {
            side: ShockSide::BothSides,
        } => {}
        other => panic!("expected BothSides Shock on Single, got {other:?}"),
    }
}

#[test]
fn parse_chunk_entry_shock_mask_0x0f_on_double_recovers_p1only() {
    let header = mine_header(0x0118, 1);
    let body = body_from_entries(&[(2048, 0x0F, 0, 0)]);
    let (_, notes) = parse_chunk(&header, &body, 900).unwrap();
    assert_eq!(notes.len(), 1);
    match &notes[0].kind {
        NoteKind::Shock {
            side: ShockSide::P1Only,
        } => {}
        other => panic!("expected P1Only Shock on Double, got {other:?}"),
    }
}

#[test]
fn parse_chunk_entry_shock_mask_0xf0_on_double_recovers_p2only() {
    let header = mine_header(0x0118, 1);
    let body = body_from_entries(&[(2048, 0xF0, 0, 0)]);
    let (_, notes) = parse_chunk(&header, &body, 1000).unwrap();
    assert_eq!(notes.len(), 1);
    match &notes[0].kind {
        NoteKind::Shock {
            side: ShockSide::P2Only,
        } => {}
        other => panic!("expected P2Only Shock on Double, got {other:?}"),
    }
}

#[test]
fn parse_chunk_entry_single_with_high_nibble_bit_is_skipped() {
    // 0x11 on Single: P1 Left (0x01) plus a stray high-nibble bit.
    let header = mine_header(0x0114, 1);
    let body = body_from_entries(&[(0, 0x11, 0, 0)]);
    let (_, notes) = parse_chunk(&header, &body, 1100).unwrap();
    assert!(notes.is_empty(), "Single with high-nibble bit must skip");
}

#[test]
fn parse_chunk_entry_negative_beat_count_is_skipped() {
    let header = mine_header(0x0114, 1);
    let body = body_from_entries(&[(-1, 0x01, 0, 0)]);
    let (_, notes) = parse_chunk(&header, &body, 1200).unwrap();
    assert!(notes.is_empty(), "negative beat_count must skip");
}

#[test]
fn parse_chunk_entry_nonzero_flags_is_skipped() {
    let header = mine_header(0x0114, 1);
    let body = body_from_entries(&[(0, 0x01, 0x01, 0)]);
    let (_, notes) = parse_chunk(&header, &body, 1300).unwrap();
    assert!(notes.is_empty(), "non-zero flags must skip in v1");
}

#[test]
fn parse_chunk_entry_nonzero_reserved_is_skipped() {
    let header = mine_header(0x0114, 1);
    let body = body_from_entries(&[(0, 0x01, 0, 0x0001)]);
    let (_, notes) = parse_chunk(&header, &body, 1400).unwrap();
    assert!(notes.is_empty(), "non-zero reserved must skip in v1");
}

#[test]
fn parse_chunk_multi_bit_panels_on_single_produces_mine() {
    // 0x09 = L + R on Single (bit 0 + bit 3). Valid multi-panel mine.
    let header = mine_header(0x0114, 1);
    let body = body_from_entries(&[(4096, 0x09, 0, 0)]);
    let (_, notes) = parse_chunk(&header, &body, 1500).unwrap();
    assert_eq!(notes.len(), 1);
    assert_eq!(notes[0].kind, NoteKind::Mine);
    assert_eq!(notes[0].panels.bits(), 0x09);
}

// ---------- write_chunk: round-trip shape ----------

#[test]
fn write_chunk_empty_chart_emits_nothing() {
    let chart = mine_chart(Style::Single, Difficulty::Basic, &[]);
    let mut out = Vec::new();
    write_chunk(&chart, &mut out).unwrap();
    assert!(out.is_empty(), "a chart with no mines must emit no bytes");
}

#[test]
fn write_chunk_single_mine_emits_20_byte_chunk() {
    // One mine on Single Basic at beat 2048 (= 2 beats) on P1 Down.
    let chart = mine_chart(Style::Single, Difficulty::Basic, &[(2048, 0x02)]);
    let mut out = Vec::new();
    write_chunk(&chart, &mut out).unwrap();

    // 12 header + 8 entry = 20 bytes.
    assert_eq!(out.len(), 20);
    // length u32
    assert_eq!(u32::from_le_bytes(out[0..4].try_into().unwrap()), 20);
    // type u16
    assert_eq!(u16::from_le_bytes(out[4..6].try_into().unwrap()), 20);
    // param2 u16 = difficulty_code(Single, Basic) = 0x0114
    assert_eq!(u16::from_le_bytes(out[6..8].try_into().unwrap()), 0x0114);
    // param3 u16 = entry count
    assert_eq!(u16::from_le_bytes(out[8..10].try_into().unwrap()), 1);
    // param4 u16 = 0
    assert_eq!(u16::from_le_bytes(out[10..12].try_into().unwrap()), 0);
    // entry: beat_count (i32), panels (u8), flags (u8), reserved (u16)
    assert_eq!(i32::from_le_bytes(out[12..16].try_into().unwrap()), 2048);
    assert_eq!(out[16], 0x02);
    assert_eq!(out[17], 0); // flags
    assert_eq!(u16::from_le_bytes(out[18..20].try_into().unwrap()), 0);
}

#[test]
fn write_chunk_same_beat_different_panels_or_merges() {
    let chart = mine_chart(
        Style::Single,
        Difficulty::Basic,
        &[(1024, 0x01), (1024, 0x02)],
    );
    let mut out = Vec::new();
    write_chunk(&chart, &mut out).unwrap();

    // Expect one entry only.
    assert_eq!(u16::from_le_bytes(out[8..10].try_into().unwrap()), 1);
    assert_eq!(out.len(), 20);
    assert_eq!(out[16], 0x03, "ORed panels 0x01 | 0x02");
}

#[test]
fn write_chunk_reverse_beat_order_emits_sorted_ascending() {
    let chart = mine_chart(
        Style::Single,
        Difficulty::Basic,
        &[(4096, 0x04), (1024, 0x02)],
    );
    let mut out = Vec::new();
    write_chunk(&chart, &mut out).unwrap();

    // Two entries: 12 header + 16 body = 28 bytes.
    assert_eq!(out.len(), 28);
    assert_eq!(u16::from_le_bytes(out[8..10].try_into().unwrap()), 2);
    // First entry's beat_count should be 1024.
    assert_eq!(i32::from_le_bytes(out[12..16].try_into().unwrap()), 1024);
    // Second entry's beat_count should be 4096.
    assert_eq!(i32::from_le_bytes(out[20..24].try_into().unwrap()), 4096);
}

#[test]
fn write_chunk_duplicate_same_beat_same_panel_dedups() {
    // Two identical mines at the same beat — OR is idempotent,
    // one output entry.
    let chart = mine_chart(
        Style::Single,
        Difficulty::Basic,
        &[(1024, 0x04), (1024, 0x04)],
    );
    let mut out = Vec::new();
    write_chunk(&chart, &mut out).unwrap();
    assert_eq!(u16::from_le_bytes(out[8..10].try_into().unwrap()), 1);
    assert_eq!(out[16], 0x04);
}

#[test]
fn write_chunk_double_expert_uses_0x0318_param2() {
    let chart = mine_chart(Style::Double, Difficulty::Expert, &[(0, 0x11)]);
    let mut out = Vec::new();
    write_chunk(&chart, &mut out).unwrap();
    assert_eq!(u16::from_le_bytes(out[6..8].try_into().unwrap()), 0x0318);
}

#[test]
fn write_chunk_rejects_0x0f_panels() {
    let chart = Chart {
        style: Style::Single,
        difficulty: Difficulty::Basic,
        notes: vec![Note {
            beat: Beat::from_measure_ticks(1024).unwrap(),
            kind: NoteKind::Mine,
            panels: PanelSet::from_bits(Style::Single, 0x0F),
        }],
    };
    let mut out = Vec::new();
    let err = write_chunk(&chart, &mut out).unwrap_err();
    assert!(matches!(err, SsqError::InvalidMinePanels { panels: 0x0F }));
}

#[test]
fn write_chunk_rejects_0xff_panels_on_double() {
    let chart = Chart {
        style: Style::Double,
        difficulty: Difficulty::Expert,
        notes: vec![Note {
            beat: Beat::from_measure_ticks(0).unwrap(),
            kind: NoteKind::Mine,
            panels: PanelSet::from_bits(Style::Double, 0xFF),
        }],
    };
    let mut out = Vec::new();
    let err = write_chunk(&chart, &mut out).unwrap_err();
    assert!(matches!(err, SsqError::InvalidMinePanels { panels: 0xFF }));
}

#[test]
fn write_chunk_rejects_0xf0_panels_on_double() {
    let chart = Chart {
        style: Style::Double,
        difficulty: Difficulty::Expert,
        notes: vec![Note {
            beat: Beat::from_measure_ticks(0).unwrap(),
            kind: NoteKind::Mine,
            panels: PanelSet::from_bits(Style::Double, 0xF0),
        }],
    };
    let mut out = Vec::new();
    let err = write_chunk(&chart, &mut out).unwrap_err();
    assert!(matches!(err, SsqError::InvalidMinePanels { panels: 0xF0 }));
}

// ---------- round-trip: write → parse ----------

#[test]
fn round_trip_mixed_single_and_multi_panel_mines_preserves_notes() {
    // Build a chart with mines on varied beats + panel shapes.
    // Write → then parse back → expect the entries to match
    // (modulo the writer's sort-ascending-by-beat normalization).
    let chart = mine_chart(
        Style::Single,
        Difficulty::Challenge,
        &[
            (0, 0x01),    // single mine, beat 0, L
            (1024, 0x09), // multi-bit, beat 1, L+R
            (3072, 0x04), // single mine, beat 3, U
            (2048, 0x02), // out-of-order insertion → writer normalizes
        ],
    );
    let mut bytes = Vec::new();
    write_chunk(&chart, &mut bytes).unwrap();

    // Re-parse the bytes we just wrote.
    // Strip the 12-byte header to get the body.
    let header = ChunkHeader {
        length: u32::from_le_bytes(bytes[0..4].try_into().unwrap()),
        ty: u16::from_le_bytes(bytes[4..6].try_into().unwrap()),
        param2: u16::from_le_bytes(bytes[6..8].try_into().unwrap()),
        param3: u16::from_le_bytes(bytes[8..10].try_into().unwrap()),
        param4: u16::from_le_bytes(bytes[10..12].try_into().unwrap()),
    };
    let body = &bytes[12..];
    let (param2, notes) = parse_chunk(&header, body, 0).unwrap();

    // param2 should be Single Challenge = 0x0614.
    assert_eq!(param2, 0x0614);
    // All four input mines preserved; re-parsed in ascending-beat order.
    assert_eq!(notes.len(), 4);
    let ticks: Vec<i32> = notes
        .iter()
        .map(|n| {
            let r = n.beat.as_rational();
            ((r.num() * 1024) / r.den() as i64) as i32
        })
        .collect();
    assert_eq!(ticks, vec![0, 1024, 2048, 3072]);
    // Panel masks match the sorted input.
    let masks: Vec<u8> = notes.iter().map(|n| n.panels.bits()).collect();
    assert_eq!(masks, vec![0x01, 0x09, 0x02, 0x04]);
    for n in &notes {
        assert_eq!(n.kind, NoteKind::Mine);
    }
}
