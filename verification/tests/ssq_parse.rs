use ddr_chart_tools::model::{
    AudioBuffer, PreviewSlice, Rational, Beat, Bpm, Style, Difficulty, PanelSet, Note, NoteKind,
    Chart, TempoSegment, Song,
};
use ddr_chart_tools::ssq::{events, parse, writer, SsqError};

fn build_ssq(chunks: &[(u16, u16, u16, Vec<u8>)]) -> Vec<u8> {
    let mut out = Vec::new();
    for (ty, param2, param3, body) in chunks {
        let body_len = body.len();
        let pad = (4 - ((12 + body_len) % 4)) % 4;
        let length = (12 + body_len + pad) as u32;
        out.extend_from_slice(&length.to_le_bytes());
        out.extend_from_slice(&ty.to_le_bytes());
        out.extend_from_slice(&param2.to_le_bytes());
        out.extend_from_slice(&param3.to_le_bytes());
        out.extend_from_slice(&0u16.to_le_bytes()); // param4
        out.extend_from_slice(body);
        out.extend_from_slice(&vec![0u8; pad]);
    }
    out.extend_from_slice(&0u32.to_le_bytes()); // terminator
    out
}

fn tempo_body(time_offsets: &[i32], tempo_data: &[i32]) -> Vec<u8> {
    let mut v = Vec::new();
    for t in time_offsets {
        v.extend_from_slice(&(*t as u32).to_le_bytes());
    }
    for t in tempo_data {
        v.extend_from_slice(&(*t as u32).to_le_bytes());
    }
    v
}

fn events_body(ticks: &[i32], codes: &[(u8, u8)]) -> Vec<u8> {
    assert_eq!(ticks.len(), codes.len());
    let mut v = Vec::new();
    for t in ticks {
        v.extend_from_slice(&(*t as u32).to_le_bytes());
    }
    for (c, a) in codes {
        v.push(*c);
        v.push(*a);
    }
    v
}

fn minimal_tempo_chunk() -> (u16, u16, u16, Vec<u8>) {
    (1, 1000, 2, tempo_body(&[0, 4096], &[0, 2000]))
}

fn minimal_events_chunk() -> (u16, u16, u16, Vec<u8>) {
    (2, 1, 1, events_body(&[0], &[(1, 4)]))
}

#[test]
fn parses_tps_1000_ssq_with_tempo_and_events() {
    let bytes = build_ssq(&[minimal_tempo_chunk(), minimal_events_chunk()]);
    let result = parse(&bytes).unwrap();
    assert_eq!(result.song.tps, 1000);
    assert_eq!(result.song.tempo_segments.len(), 1);
    assert_eq!(result.song.stops.len(), 0);
    assert_eq!(result.song.charts.len(), 0);
    assert_eq!(result.events.len(), 1);
    assert!(result.aux_chunks_dropped.is_empty());
}

#[test]
fn parses_tps_150_ssq() {
    let tempo = (1, 150, 2, tempo_body(&[0, 4096], &[0, 300]));
    let bytes = build_ssq(&[tempo, minimal_events_chunk()]);
    let result = parse(&bytes).unwrap();
    assert_eq!(result.song.tps, 150);
}

#[test]
fn missing_tempo_chunk_is_rejected() {
    let bytes = build_ssq(&[minimal_events_chunk()]);
    let err = parse(&bytes).unwrap_err();
    assert!(matches!(err, SsqError::MissingTempoChunk));
}

#[test]
fn missing_events_chunk_is_rejected() {
    let bytes = build_ssq(&[minimal_tempo_chunk()]);
    let err = parse(&bytes).unwrap_err();
    assert!(matches!(err, SsqError::MissingEventsChunk));
}

#[test]
fn duplicate_tempo_chunk_is_rejected() {
    let bytes = build_ssq(&[minimal_tempo_chunk(), minimal_tempo_chunk()]);
    let err = parse(&bytes).unwrap_err();
    assert!(matches!(err, SsqError::DuplicateTempoChunk));
}

#[test]
fn duplicate_events_chunk_is_rejected() {
    let bytes = build_ssq(&[
        minimal_tempo_chunk(),
        minimal_events_chunk(),
        minimal_events_chunk(),
    ]);
    let err = parse(&bytes).unwrap_err();
    assert!(matches!(err, SsqError::DuplicateEventsChunk));
}

#[test]
fn empty_steps_chunk_produces_empty_chart() {
    // A Single Basic step chunk with zero entries.
    let bytes = build_ssq(&[
        minimal_tempo_chunk(),
        minimal_events_chunk(),
        (3, 0x0114, 0, vec![]),
    ]);
    let result = parse(&bytes).unwrap();
    assert_eq!(result.song.charts.len(), 1);
    assert_eq!(result.song.charts[0].notes.len(), 0);
}

#[test]
fn aux_chunks_are_dropped_with_metadata() {
    // A TPS=150 file with a type-4 and type-5 aux chunk after events.
    let tempo = (1, 150, 2, tempo_body(&[0, 4096], &[0, 300]));
    let aux4 = (4, 1, 0, vec![]);
    let aux5 = (5, 0, 0, vec![]);
    let bytes = build_ssq(&[tempo, minimal_events_chunk(), aux4, aux5]);
    let result = parse(&bytes).unwrap();
    assert_eq!(result.aux_chunks_dropped.len(), 2);
    assert_eq!(result.aux_chunks_dropped[0].ty, 4);
    assert_eq!(result.aux_chunks_dropped[1].ty, 5);
}

#[test]
fn ffff_param2_chunk_is_dispatched_not_skipped() {
    // Tempo + events, then a type-3 chunk with param2=0xFFFF.
    // The parser reads it normally and tries to decode the difficulty
    // code. 0xFFFF is not valid, so parse returns an error.
    let mut bytes = build_ssq(&[minimal_tempo_chunk(), minimal_events_chunk()]);
    bytes.truncate(bytes.len() - 4); // remove terminator
    let mut bad_chunk = Vec::new();
    bad_chunk.extend_from_slice(&12u32.to_le_bytes());
    bad_chunk.extend_from_slice(&3u16.to_le_bytes());
    bad_chunk.extend_from_slice(&0xFFFFu16.to_le_bytes());
    bad_chunk.extend_from_slice(&0u16.to_le_bytes());
    bad_chunk.extend_from_slice(&0u16.to_le_bytes());
    bytes.extend_from_slice(&bad_chunk);
    bytes.extend_from_slice(&0u32.to_le_bytes()); // terminator
    assert!(parse(&bytes).is_err());
}

/// Build a complete minimal Song with the given charts, ready to
/// be fed to `writer::write`. One tempo segment at 120 BPM,
/// TPS=1000, no stops, empty audio.
fn song_with_charts(charts: Vec<Chart>) -> Song {
    Song {
        title: None,
        artist: None,
        tps: 1000,
        tempo_segments: vec![TempoSegment {
            start_beat: Beat::zero(),
            bpm: Bpm::from_rational(Rational::from_integer(120)),
        }],
        stops: Vec::new(),
        charts,
        audio: AudioBuffer {
            samples: Vec::new(),
            sample_rate: 0,
            channels: 0,
        },
        audio_sync_offset_seconds: Rational::zero(),
        preview: PreviewSlice::default_window(),
    }
}

/// Build an 8-byte mine entry (for synthetic orphan/duplicate bodies).
fn mine_entry_bytes(beat_count: i32, panels: u8) -> Vec<u8> {
    let mut v = Vec::with_capacity(8);
    v.extend_from_slice(&(beat_count as u32).to_le_bytes());
    v.push(panels);
    v.push(0); // flags
    v.extend_from_slice(&0u16.to_le_bytes()); // reserved
    v
}

/// Build a MINE_DATA chunk body from `(beat_count, panels)` tuples.
fn mine_body(entries: &[(i32, u8)]) -> Vec<u8> {
    let mut body = Vec::with_capacity(entries.len() * 8);
    for (beat, panels) in entries {
        body.extend_from_slice(&mine_entry_bytes(*beat, *panels));
    }
    body
}

/// Construct a chart with just `NoteKind::Mine` notes at the
/// given `(beat_tick, panels)` positions.
fn mine_only_chart(
    style: Style,
    difficulty: Difficulty,
    mines: &[(i32, u8)],
) -> Chart {
    let notes = mines
        .iter()
        .map(|(tick, panels)| Note {
            beat: Beat::from_measure_ticks(i64::from(*tick)).unwrap(),
            kind: NoteKind::Mine,
            panels: PanelSet::from_bits(style, *panels),
        })
        .collect();
    Chart {
        style,
        difficulty,
        notes,
    }
}

#[test]
fn ddr_to_ddr_no_mine_baseline_is_byte_identical() {

    let chart = Chart {
        style: Style::Single,
        difficulty: Difficulty::Basic,
        notes: vec![Note {
            beat: Beat::from_measure_ticks(1024).unwrap(),
            kind: NoteKind::Tap,
            panels: PanelSet::from_bits(Style::Single, 0x01),
        }],
    };
    let song = song_with_charts(vec![chart]);
    let events = vec![events::SsqEvent {
        tick: 0,
        code: 1,
        arg: 4,
    }];
    let raw_pairs = vec![(0, 0), (4096, 2000)];

    let mut bytes1 = Vec::new();
    writer::write(&song, &events, &raw_pairs, &mut bytes1).unwrap();

    let parsed = parse(&bytes1).unwrap();

    let mut bytes2 = Vec::new();
    writer::write(
        &parsed.song,
        &parsed.events,
        &parsed.raw_tempo_pairs,
        &mut bytes2,
    )
    .unwrap();

    assert_eq!(
        bytes1, bytes2,
        "no-mine round-trip must produce byte-identical output"
    );
}

#[test]
fn ddr_to_ddr_per_difficulty_mines_round_trip() {
    // Two charts with distinct mine patterns at different
    // difficulties. Write → parse → assert mines attach to
    // the correct chart by `param2`, then write again and
    // confirm byte-equality.

    let basic = mine_only_chart(
        Style::Single,
        Difficulty::Basic,
        &[(1024, 0x01), (2048, 0x04)],
    );
    let expert = mine_only_chart(
        Style::Double,
        Difficulty::Expert,
        &[(0, 0x11), (3072, 0x88)],
    );
    let song = song_with_charts(vec![basic, expert]);
    let events = vec![events::SsqEvent {
        tick: 0,
        code: 1,
        arg: 4,
    }];
    let raw_pairs = vec![(0, 0), (4096, 2000)];

    let mut bytes1 = Vec::new();
    writer::write(&song, &events, &raw_pairs, &mut bytes1).unwrap();

    let parsed = parse(&bytes1).unwrap();
    assert_eq!(parsed.song.charts.len(), 2);

    // First chart (Single Basic) received its 2 mines.
    let basic_parsed = &parsed.song.charts[0];
    assert_eq!(basic_parsed.style, Style::Single);
    assert_eq!(basic_parsed.difficulty, Difficulty::Basic);
    assert_eq!(basic_parsed.notes.len(), 2);
    for n in &basic_parsed.notes {
        assert_eq!(n.kind, NoteKind::Mine);
    }

    // Second chart (Double Expert) received its 2 mines.
    let expert_parsed = &parsed.song.charts[1];
    assert_eq!(expert_parsed.style, Style::Double);
    assert_eq!(expert_parsed.difficulty, Difficulty::Expert);
    assert_eq!(expert_parsed.notes.len(), 2);
    for n in &expert_parsed.notes {
        assert_eq!(n.kind, NoteKind::Mine);
    }

    // Write again — bytes must match the first write.
    let mut bytes2 = Vec::new();
    writer::write(
        &parsed.song,
        &parsed.events,
        &parsed.raw_tempo_pairs,
        &mut bytes2,
    )
    .unwrap();
    assert_eq!(bytes1, bytes2, "per-difficulty mine round-trip byte-equal");
}

#[test]
fn ddr_orphan_mine_chunk_is_warned_and_dropped() {

    let mine_chunk = (20, 0x0318, 1, mine_body(&[(1024, 0x04)]));
    let bytes = build_ssq(&[
        minimal_tempo_chunk(),
        minimal_events_chunk(),
        (3, 0x0114, 0, vec![]), // Single Basic, empty
        mine_chunk,
    ]);

    let result = parse(&bytes).unwrap();
    assert_eq!(result.song.charts.len(), 1);
    assert_eq!(
        result.song.charts[0].notes.len(),
        0,
        "orphan mine chunk must not attach to the unrelated chart"
    );
    // Sanity: no note of any kind sneaked through.
    for n in &result.song.charts[0].notes {
        assert_ne!(n.kind, NoteKind::Mine);
    }
}

#[test]
fn ddr_duplicate_mine_chunk_keeps_first_drops_second() {

    // First chunk: one mine at beat 1024, panel 0x01.
    let chunk_first = (20, 0x0114, 1, mine_body(&[(1024, 0x01)]));
    // Second chunk: a different mine at beat 2048, panel 0x04.
    // If the second chunk were attached, the chart would have
    // two mines; we assert it has only the first chunk's one.
    let chunk_second = (20, 0x0114, 1, mine_body(&[(2048, 0x04)]));
    let bytes = build_ssq(&[
        minimal_tempo_chunk(),
        minimal_events_chunk(),
        (3, 0x0114, 0, vec![]), // Single Basic, empty
        chunk_first,
        chunk_second,
    ]);

    let result = parse(&bytes).unwrap();
    assert_eq!(result.song.charts.len(), 1);
    let chart = &result.song.charts[0];
    // Only the first chunk's mine should be attached.
    let mine_count = chart
        .notes
        .iter()
        .filter(|n| matches!(n.kind, NoteKind::Mine))
        .count();
    assert_eq!(mine_count, 1, "duplicate chunk must be dropped");
    // And it should be the first chunk's mine: tick 1024 panel 0x01.
    let first_mine = chart
        .notes
        .iter()
        .find(|n| matches!(n.kind, NoteKind::Mine))
        .unwrap();
    assert_eq!(first_mine.panels.bits(), 0x01);
    assert_eq!(
        first_mine.beat,
        Beat::from_measure_ticks(1024).unwrap()
    );
}
