use ddr_chart_tools::model::{Rational, Beat, Bpm, Style, Difficulty, ShockSide, NoteKind};
use ddr_chart_tools::ssq::SsqError;
use ddr_chart_tools::ssq::chunk::{read_header, ChunkHeader};
use ddr_chart_tools::ssq::events::{parse_events_chunk, SsqEvent};
use ddr_chart_tools::ssq::steps::{decode_difficulty_code, parse_steps_chunk};
use ddr_chart_tools::ssq::tempo::parse_tempo_chunk;
use ddr_chart_tools::util::io::LeReader;

fn build_events_chunk(
    param2: u16,
    ticks: &[i32],
    codes: &[(u8, u8)],
) -> (ChunkHeader, Vec<u8>) {
    assert_eq!(ticks.len(), codes.len());
    let n = ticks.len() as u16;
    let header = ChunkHeader {
        length: 12 + 6 * u32::from(n),
        ty: 2,
        param2,
        param3: n,
        param4: 0,
    };
    let mut body = Vec::new();
    for t in ticks {
        body.extend_from_slice(&(*t as u32).to_le_bytes());
    }
    for (c, a) in codes {
        body.push(*c);
        body.push(*a);
    }
    (header, body)
}

#[test]
fn parses_canonical_event_sequence() {
    let ticks = [0, 0, 4096, 4096, 315_392, 319_488];
    let codes = [(1, 4), (2, 1), (2, 2), (2, 5), (2, 3), (2, 4)];
    let (h, body) = build_events_chunk(1, &ticks, &codes);
    let events = parse_events_chunk(&h, &body, 0).unwrap();
    assert_eq!(events.len(), 6);
    assert_eq!(
        events[0],
        SsqEvent {
            tick: 0,
            code: 1,
            arg: 4
        }
    );
    assert_eq!(
        events[5],
        SsqEvent {
            tick: 319_488,
            code: 2,
            arg: 4,
        }
    );
}

#[test]
fn preserves_non_canonical_code1_events() {
    let ticks = [0, 12345];
    let codes = [(1, 4), (1, 17)];
    let (h, body) = build_events_chunk(1, &ticks, &codes);
    let events = parse_events_chunk(&h, &body, 0).unwrap();
    assert_eq!(events[1].code, 1);
    assert_eq!(events[1].arg, 17);
    assert_eq!(events[1].tick, 12345);
}

#[test]
fn zero_entries_returns_empty_vec() {
    let h = ChunkHeader {
        length: 12,
        ty: 2,
        param2: 1,
        param3: 0,
        param4: 0,
    };
    assert!(parse_events_chunk(&h, &[], 0).unwrap().is_empty());
}

#[test]
fn events_body_size_mismatch_is_rejected() {
    let h = ChunkHeader {
        length: 12 + 6 * 2,
        ty: 2,
        param2: 1,
        param3: 2,
        param4: 0,
    };
    let short_body = vec![0u8; 6]; // should be 12
    let err = parse_events_chunk(&h, &short_body, 0).unwrap_err();
    assert!(matches!(err, SsqError::MalformedChunk { .. }));
}

#[test]
fn unexpected_param2_warns_but_parses() {
    // 1523/1523 real files have param2=1, but the parser shouldn't crash
    // if a file deviates.
    let (h, body) = build_events_chunk(42, &[0], &[(1, 4)]);
    let events = parse_events_chunk(&h, &body, 0).unwrap();
    assert_eq!(events.len(), 1);
}

fn header_bytes(length: u32, ty: u16, param2: u16, param3: u16, param4: u16) -> Vec<u8> {
    let mut v = Vec::with_capacity(12);
    v.extend_from_slice(&length.to_le_bytes());
    v.extend_from_slice(&ty.to_le_bytes());
    v.extend_from_slice(&param2.to_le_bytes());
    v.extend_from_slice(&param3.to_le_bytes());
    v.extend_from_slice(&param4.to_le_bytes());
    v
}

#[test]
fn reads_valid_header() {
    let bytes = header_bytes(20, 1, 1000, 2, 0);
    let mut r = LeReader::new(&bytes);
    let (off, h) = read_header(&mut r).unwrap().unwrap();
    assert_eq!(off, 0);
    assert_eq!(h.length, 20);
    assert_eq!(h.ty, 1);
    assert_eq!(h.param2, 1000);
    assert_eq!(h.body_size(), 8);
}

#[test]
fn length_zero_returns_none() {
    let bytes = [0u8; 4]; // length = 0
    let mut r = LeReader::new(&bytes);
    assert!(read_header(&mut r).unwrap().is_none());
}

#[test]
fn empty_buffer_returns_none() {
    let bytes: [u8; 0] = [];
    let mut r = LeReader::new(&bytes);
    assert!(read_header(&mut r).unwrap().is_none());
}

#[test]
fn ffff_param2_is_read_normally() {
    let bytes = header_bytes(12, 3, 0xFFFF, 5, 0);
    let mut r = LeReader::new(&bytes);
    let (_, h) = read_header(&mut r).unwrap().unwrap();
    assert_eq!(h.ty, 3);
    assert_eq!(h.param2, 0xFFFF);
    assert_eq!(h.param3, 5);
}

#[test]
fn length_below_header_size_is_malformed() {
    let bytes = header_bytes(8, 1, 1000, 0, 0);
    let mut r = LeReader::new(&bytes);
    let err = read_header(&mut r).unwrap_err();
    assert!(matches!(err, SsqError::MalformedChunk { .. }));
}

#[test]
fn non_dword_aligned_length_is_malformed() {
    let bytes = header_bytes(13, 1, 1000, 0, 0);
    let mut r = LeReader::new(&bytes);
    let err = read_header(&mut r).unwrap_err();
    assert!(matches!(err, SsqError::MalformedChunk { .. }));
}

fn build_tempo_chunk(
    tps: u16,
    time_offsets: &[i32],
    tempo_data: &[i32],
) -> (ChunkHeader, Vec<u8>) {
    assert_eq!(time_offsets.len(), tempo_data.len());
    let n = time_offsets.len() as u16;
    let header = ChunkHeader {
        length: 12 + 8 * u32::from(n),
        ty: 1,
        param2: tps,
        param3: n,
        param4: 0,
    };
    let mut body = Vec::new();
    for t in time_offsets {
        body.extend_from_slice(&(*t as u32).to_le_bytes());
    }
    for t in tempo_data {
        body.extend_from_slice(&(*t as u32).to_le_bytes());
    }
    (header, body)
}

#[test]
fn parses_modern_tempo_chunk_single_segment() {
    // TPS=1000, 2 entries, no stops: 1 segment of 120 BPM.
    // delta_measure = 4096 (one whole note)
    // delta_seconds = 2 * 1000 = 2000 seconds-ticks
    // BPM = 240 * 1000 * 4096 / (4096 * 2000) = 240000/2000 = 120
    let (h, body) = build_tempo_chunk(1000, &[0, 4096], &[0, 2000]);
    let result = parse_tempo_chunk(&h, &body, 0).unwrap();
    assert_eq!(result.tps, 1000);
    assert_eq!(result.stops, vec![]);
    assert_eq!(result.tempo_segments.len(), 1);
    assert_eq!(
        result.tempo_segments[0].bpm,
        Bpm::from_rational(Rational::from_integer(120))
    );
    assert_eq!(result.audio_sync_offset_seconds, Rational::zero());
}

#[test]
fn parses_tps_150_tempo_chunk_with_stop() {
    let (h, body) = build_tempo_chunk(150, &[0, 4096, 73728, 73728], &[0, 94, 1689, 1829]);
    let result = parse_tempo_chunk(&h, &body, 0).unwrap();
    assert_eq!(result.tps, 150);
    assert_eq!(result.stops.len(), 1);
    assert_eq!(
        result.stops[0].duration_seconds,
        Rational::new(140, 150).unwrap()
    );
    assert_eq!(result.tempo_segments.len(), 2);
}

#[test]
fn audio_sync_offset_scales_by_tps() {
    // TPS=1000, tempo_data[0] = 22 → offset = 22/1000 s
    let (h, body) = build_tempo_chunk(1000, &[0, 4096], &[22, 2022]);
    let result = parse_tempo_chunk(&h, &body, 0).unwrap();
    assert_eq!(
        result.audio_sync_offset_seconds,
        Rational::new(22, 1000).unwrap()
    );
}

#[test]
fn zero_tps_is_rejected() {
    let (h, body) = build_tempo_chunk(0, &[0, 4096], &[0, 2000]);
    let err = parse_tempo_chunk(&h, &body, 42).unwrap_err();
    assert!(matches!(err, SsqError::InvalidTps { offset: 42 }));
}

#[test]
fn unusual_tps_warns_but_parses() {
    // 500 is not a known TPS — emits a warn but still parses.
    let (h, body) = build_tempo_chunk(500, &[0, 4096], &[0, 1000]);
    let result = parse_tempo_chunk(&h, &body, 0).unwrap();
    assert_eq!(result.tps, 500);
}

#[test]
fn non_zero_first_time_offset_is_rejected() {
    let (h, body) = build_tempo_chunk(1000, &[1, 4096], &[0, 2000]);
    let err = parse_tempo_chunk(&h, &body, 0).unwrap_err();
    assert!(matches!(err, SsqError::MalformedChunk { .. }));
}

#[test]
fn zero_entry_count_is_rejected() {
    let h = ChunkHeader {
        length: 12,
        ty: 1,
        param2: 1000,
        param3: 0,
        param4: 0,
    };
    let err = parse_tempo_chunk(&h, &[], 0).unwrap_err();
    assert!(matches!(err, SsqError::MalformedChunk { .. }));
}

#[test]
fn tempo_body_size_mismatch_is_rejected() {
    let h = ChunkHeader {
        length: 12 + 8 * 2,
        ty: 1,
        param2: 1000,
        param3: 2,
        param4: 0,
    };
    let short_body = vec![0u8; 8]; // should be 16
    let err = parse_tempo_chunk(&h, &short_body, 0).unwrap_err();
    assert!(matches!(err, SsqError::MalformedChunk { .. }));
}

/// Build a step chunk header + body from ticks, step bytes, and freeze entries.
/// Caller is responsible for making freeze count match the 0x00 step bytes.
fn build_steps_chunk(
    param2: u16,
    ticks: &[i32],
    step_bytes: &[u8],
    freezes: &[(u8, u8)],
) -> (ChunkHeader, Vec<u8>) {
    assert_eq!(ticks.len(), step_bytes.len());
    let n = ticks.len();
    let mut body = Vec::new();
    for t in ticks {
        body.extend_from_slice(&(*t as u32).to_le_bytes());
    }
    body.extend_from_slice(step_bytes);
    // Pad step block to 2-byte boundary if N is odd.
    if n % 2 != 0 {
        body.push(0);
    }
    for (panels, kind) in freezes {
        body.push(*panels);
        body.push(*kind);
    }
    // Trailing pad to dword-align the chunk length.
    while (12 + body.len()) % 4 != 0 {
        body.push(0);
    }
    let header = ChunkHeader {
        length: (12 + body.len()) as u32,
        ty: 3,
        param2,
        param3: n as u16,
        param4: 0,
    };
    (header, body)
}

#[test]
fn difficulty_single_basic() {
    assert_eq!(
        decode_difficulty_code(0x0114, 0).unwrap(),
        (Style::Single, Difficulty::Basic)
    );
}

#[test]
fn difficulty_double_expert() {
    assert_eq!(
        decode_difficulty_code(0x0318, 0).unwrap(),
        (Style::Double, Difficulty::Expert)
    );
}

#[test]
fn difficulty_all_valid_codes() {
    let cases = [
        (0x0114, Style::Single, Difficulty::Basic),
        (0x0214, Style::Single, Difficulty::Difficult),
        (0x0314, Style::Single, Difficulty::Expert),
        (0x0414, Style::Single, Difficulty::Beginner),
        (0x0614, Style::Single, Difficulty::Challenge),
        (0x0118, Style::Double, Difficulty::Basic),
        (0x0218, Style::Double, Difficulty::Difficult),
        (0x0318, Style::Double, Difficulty::Expert),
        (0x0418, Style::Double, Difficulty::Beginner),
        (0x0618, Style::Double, Difficulty::Challenge),
    ];
    for (code, style, diff) in cases {
        assert_eq!(decode_difficulty_code(code, 0).unwrap(), (style, diff));
    }
}

#[test]
fn difficulty_rejects_slot_5() {
    // Slot 0x05 (between Beginner and Challenge) is NOT accepted by DDR World.
    let err = decode_difficulty_code(0x0514, 0).unwrap_err();
    assert!(matches!(
        err,
        SsqError::InvalidDifficultyCode { code: 0x0514, .. }
    ));
}

#[test]
fn difficulty_rejects_unknown_style() {
    let err = decode_difficulty_code(0x0199, 0).unwrap_err();
    assert!(matches!(err, SsqError::InvalidDifficultyCode { .. }));
}

#[test]
fn single_tap_note_decodes_panel_mask() {
    // Step byte 0x05 = Left (bit 0) + Up (bit 2) at tick 1024 (1 beat).
    let (h, body) = build_steps_chunk(0x0114, &[1024], &[0x05], &[]);
    let chart = parse_steps_chunk(&h, &body, 0).unwrap();
    assert_eq!(chart.style, Style::Single);
    assert_eq!(chart.notes.len(), 1);
    assert_eq!(chart.notes[0].kind, NoteKind::Tap);
    assert_eq!(chart.notes[0].panels.bits(), 0x05);
    assert_eq!(chart.notes[0].beat, Beat::from_measure_ticks(1024).unwrap());
}

#[test]
fn double_tap_uses_full_8_bit_mask() {
    // Double mode, step byte 0x88 = P1 Right (bit 3) + P2 Right (bit 7).
    let (h, body) = build_steps_chunk(0x0118, &[0], &[0x88], &[]);
    let chart = parse_steps_chunk(&h, &body, 0).unwrap();
    assert_eq!(chart.style, Style::Double);
    assert_eq!(chart.notes[0].panels.bits(), 0x88);
}

#[test]
fn single_tap_masks_high_nibble() {
    // In Single mode, bits 4-7 are masked off by PanelSet::from_bits.
    let (h, body) = build_steps_chunk(0x0114, &[0], &[0x15], &[]);
    let chart = parse_steps_chunk(&h, &body, 0).unwrap();
    // 0x15 & 0x0F = 0x05
    assert_eq!(chart.notes[0].panels.bits(), 0x05);
}

#[test]
fn shock_both_sides_decodes_0xff() {
    let (h, body) = build_steps_chunk(0x0618, &[100], &[0xFF], &[]);
    let chart = parse_steps_chunk(&h, &body, 0).unwrap();
    assert_eq!(
        chart.notes[0].kind,
        NoteKind::Shock {
            side: ShockSide::BothSides
        }
    );
}

#[test]
fn shock_p1_only_decodes_0x0f() {
    let (h, body) = build_steps_chunk(0x0618, &[100], &[0x0F], &[]);
    let chart = parse_steps_chunk(&h, &body, 0).unwrap();
    assert_eq!(
        chart.notes[0].kind,
        NoteKind::Shock {
            side: ShockSide::P1Only
        }
    );
}

#[test]
fn shock_p2_only_decodes_0xf0() {
    let (h, body) = build_steps_chunk(0x0618, &[100], &[0xF0], &[]);
    let chart = parse_steps_chunk(&h, &body, 0).unwrap();
    assert_eq!(
        chart.notes[0].kind,
        NoteKind::Shock {
            side: ShockSide::P2Only
        }
    );
}

#[test]
fn simple_freeze_promotes_tap_to_holdhead() {
    // Step byte 0x04 (Up) at tick 100, then 0x00 at tick 500, freeze (0x04, 0x01).
    // Expected: one HoldHead at tick 100 with length 400.
    let (h, body) = build_steps_chunk(0x0114, &[100, 500], &[0x04, 0x00], &[(0x04, 0x01)]);
    let chart = parse_steps_chunk(&h, &body, 0).unwrap();
    assert_eq!(chart.notes.len(), 1);
    assert_eq!(chart.notes[0].beat, Beat::from_measure_ticks(100).unwrap());
    let expected_length = Beat::from_rational(Rational::new(400, 1024).unwrap());
    assert_eq!(
        chart.notes[0].kind,
        NoteKind::HoldHead {
            length: expected_length
        }
    );
}

#[test]
fn freeze_with_non_1_kind_is_ignored() {
    let (h, body) = build_steps_chunk(0x0114, &[100, 500], &[0x04, 0x00], &[(0x04, 0x00)]);
    let chart = parse_steps_chunk(&h, &body, 0).unwrap();
    assert_eq!(chart.notes.len(), 1);
    assert_eq!(chart.notes[0].kind, NoteKind::Tap);
}

#[test]
fn freeze_end_with_multiple_bits_closes_heads_at_different_ticks() {
    // Left freeze opens at tick 100, Up freeze opens at tick 200,
    // both close at tick 500 via one freeze entry (0x05, 0x01).
    let (h, body) = build_steps_chunk(
        0x0114,
        &[100, 200, 500],
        &[0x01, 0x04, 0x00],
        &[(0x05, 0x01)],
    );
    let chart = parse_steps_chunk(&h, &body, 0).unwrap();
    assert_eq!(chart.notes.len(), 2);
    // First note: Left at tick 100, length 400
    assert_eq!(chart.notes[0].panels.bits(), 0x01);
    assert_eq!(
        chart.notes[0].kind,
        NoteKind::HoldHead {
            length: Beat::from_rational(Rational::new(400, 1024).unwrap())
        }
    );
    // Second note: Up at tick 200, length 300
    assert_eq!(chart.notes[1].panels.bits(), 0x04);
    assert_eq!(
        chart.notes[1].kind,
        NoteKind::HoldHead {
            length: Beat::from_rational(Rational::new(300, 1024).unwrap())
        }
    );
}

#[test]
fn freeze_end_without_matching_head_is_rejected() {
    // 0x00 step at tick 500 with freeze entry for Right (0x08), but no
    // earlier note hits Right.
    let (h, body) = build_steps_chunk(0x0114, &[100, 500], &[0x01, 0x00], &[(0x08, 0x01)]);
    let err = parse_steps_chunk(&h, &body, 0).unwrap_err();
    assert!(matches!(err, SsqError::FreezeWithoutHead { .. }));
}

#[test]
fn empty_chart_has_no_notes() {
    let (h, body) = build_steps_chunk(0x0114, &[], &[], &[]);
    let chart = parse_steps_chunk(&h, &body, 0).unwrap();
    assert!(chart.notes.is_empty());
}

#[test]
fn fizz_single_basic_shape() {
    let (h, body) = build_steps_chunk(
        0x0114,
        &[500, 1000, 2000],
        &[0x02, 0x01, 0x00],
        &[(0x01, 0x01)],
    );
    let chart = parse_steps_chunk(&h, &body, 0).unwrap();
    assert_eq!(chart.style, Style::Single);
    assert_eq!(chart.difficulty, Difficulty::Basic);
    assert_eq!(chart.notes.len(), 2);
    // First: plain Down tap at 500
    assert_eq!(chart.notes[0].kind, NoteKind::Tap);
    assert_eq!(chart.notes[0].panels.bits(), 0x02);
    // Second: Left HoldHead at 1000 with length 1000 ticks
    assert!(matches!(chart.notes[1].kind, NoteKind::HoldHead { .. }));
    assert_eq!(chart.notes[1].panels.bits(), 0x01);
}
