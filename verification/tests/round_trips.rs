use ddr_chart_tools::model::{
    AudioBuffer, Beat, Bpm, Chart, Difficulty, Note, NoteKind, PanelSet, PreviewSlice, Rational,
    ShockSide, Song, Stop, Style, TempoSegment,
};
use ddr_chart_tools::ssc;
use ddr_chart_tools::ssc::decimal::{decimal_to_rational, format_decimal};
use ddr_chart_tools::ssc::notes::parse_notes_body;
use ddr_chart_tools::ssq;
use ddr_chart_tools::ssq::events::SsqEvent;
use ddr_chart_tools::ssq::writer::{difficulty_code, synthesize_tempo_entries_until};
use ddr_chart_tools::ssq::steps::decode_difficulty_code;
use ddr_chart_tools::ssq_legacy::modernize::modernize;
use ddr_chart_tools::xwb;
use ddr_chart_tools::xwb::adpcm::decode::decode;
use ddr_chart_tools::xwb::adpcm::encode::encode;
use ddr_chart_tools::xwb::container::{WaveFormat, XwbBank, XwbEntry};

fn note(tick: i64, kind: NoteKind, style: Style, bits: u8) -> Note {
    Note {
        beat: Beat::from_measure_ticks(tick).unwrap(),
        kind,
        panels: PanelSet::from_bits(style, bits),
    }
}

fn hold(ticks: i64) -> NoteKind {
    NoteKind::HoldHead {
        length: Beat::from_measure_ticks(ticks).unwrap(),
    }
}

/// Taps, holds, mines and a shock for one player, and a chart for two.
fn charts() -> Vec<Chart> {
    vec![
        Chart {
            style: Style::Single,
            difficulty: Difficulty::Expert,
            notes: vec![
                note(0, NoteKind::Tap, Style::Single, 0x01),
                note(1024, hold(2048), Style::Single, 0x02),
                note(1024, NoteKind::Mine, Style::Single, 0x04),
                note(2048, NoteKind::Tap, Style::Single, 0x08),
                note(4096, NoteKind::Mine, Style::Single, 0x01),
                note(
                    8192,
                    NoteKind::Shock {
                        side: ShockSide::BothSides,
                    },
                    Style::Single,
                    0x0F,
                ),
            ],
        },
        Chart {
            style: Style::Double,
            difficulty: Difficulty::Basic,
            notes: vec![
                note(512, NoteKind::Tap, Style::Double, 0x81),
                note(1024, NoteKind::Mine, Style::Double, 0x10),
                note(5120, hold(1024), Style::Double, 0x40),
            ],
        },
    ]
}

/// The same charts in the order of a note grid: the mines of a row first, and a
/// shock without panels of its own.
fn simfile_charts() -> Vec<Chart> {
    let mut charts = charts();
    charts[0].notes.swap(1, 2);
    charts[0].notes[5].panels = PanelSet::empty();
    charts
}

fn song() -> Song {
    Song {
        title: Some("A Title".to_string()),
        artist: Some("An Artist".to_string()),
        tps: 1000,
        tempo_segments: vec![
            TempoSegment {
                start_beat: Beat::zero(),
                bpm: Bpm::from_rational(Rational::new(1505, 10).unwrap()),
            },
            TempoSegment {
                start_beat: Beat::from_measure_ticks(4096).unwrap(),
                bpm: Bpm::from_rational(Rational::from_integer(75)),
            },
        ],
        stops: vec![Stop {
            at_beat: Beat::from_measure_ticks(2048).unwrap(),
            duration_seconds: Rational::new(1, 4).unwrap(),
        }],
        charts: charts(),
        audio: AudioBuffer {
            samples: Vec::new(),
            sample_rate: 0,
            channels: 0,
        },
        audio_sync_offset_seconds: Rational::new(-53, 1000).unwrap(),
        preview: PreviewSlice {
            start_seconds: Rational::new(251, 10).unwrap(),
            length_seconds: Rational::from_integer(12),
        },
    }
}

fn same_charts(a: &[Chart], b: &[Chart]) {
    assert_eq!(a.len(), b.len());
    for (x, y) in a.iter().zip(b) {
        assert_eq!(x.style, y.style);
        assert_eq!(x.difficulty, y.difficulty);
        assert_eq!(x.notes, y.notes);
    }
}

fn events() -> Vec<SsqEvent> {
    vec![
        SsqEvent { tick: 0, code: 1, arg: 4 },
        SsqEvent { tick: 4096, code: 2, arg: 5 },
        SsqEvent { tick: 20480, code: 2, arg: 4 },
    ]
}

#[test]
fn ssq_file_gives_back_charts_events_and_tempo() {
    let pairs = vec![(0, -53), (2048, 745), (2048, 995), (4096, 1793), (20480, 14593)];
    let mut bytes = Vec::new();
    ssq::writer::write(&song(), &events(), &pairs, &mut bytes).unwrap();
    let parsed = ssq::parse(&bytes).unwrap();
    same_charts(&parsed.song.charts, &charts());
    assert_eq!(parsed.events, events());
    assert_eq!(parsed.raw_tempo_pairs, pairs);
    assert_eq!(parsed.song.tps, 1000);
    assert_eq!(
        parsed.song.audio_sync_offset_seconds,
        Rational::new(-53, 1000).unwrap()
    );
    assert!(parsed.aux_chunks_dropped.is_empty());
    // Written again, it is the same file.
    let mut again = Vec::new();
    ssq::writer::write(&parsed.song, &parsed.events, &parsed.raw_tempo_pairs, &mut again).unwrap();
    assert_eq!(again, bytes);
}

#[test]
fn ssq_file_is_words_and_ends_in_a_zero_word() {
    for count in 0..4 {
        let mut bytes = Vec::new();
        ssq::writer::write(&song(), &events()[..count.min(3)], &[(0, 0), (9, 1)], &mut bytes).unwrap();
        assert_eq!(bytes.len() % 4, 0);
        assert_eq!(bytes[bytes.len() - 4..], [0, 0, 0, 0]);
    }
}

#[test]
fn mine_chunks_are_only_written_for_charts_with_mines() {
    let mut plain = song();
    for chart in plain.charts.iter_mut() {
        chart.notes.retain(|n| n.kind != NoteKind::Mine);
    }
    let mut with = Vec::new();
    let mut without = Vec::new();
    ssq::writer::write(&song(), &events(), &[(0, 0), (9, 1)], &mut with).unwrap();
    ssq::writer::write(&plain, &events(), &[(0, 0), (9, 1)], &mut without).unwrap();
    // Two mines and one mine, in a chunk of their own for each chart.
    assert_eq!(with.len(), without.len() + (12 + 8 * 2) + (12 + 8));
}

#[test]
fn ssc_file_gives_back_the_song() {
    let mut text = String::new();
    ssc::write(&song(), &mut text).unwrap();
    let parsed = ssc::parse(&text).unwrap();
    same_charts(&parsed.charts, &simfile_charts());
    assert_eq!(parsed.title.as_deref(), Some("A Title"));
    assert_eq!(parsed.artist.as_deref(), Some("An Artist"));
    assert_eq!(parsed.tempo_segments, song().tempo_segments);
    assert_eq!(parsed.stops, song().stops);
    assert_eq!(
        parsed.audio_sync_offset_seconds,
        song().audio_sync_offset_seconds
    );
    assert_eq!(parsed.preview.start_seconds, song().preview.start_seconds);
    assert_eq!(parsed.preview.length_seconds, song().preview.length_seconds);
    assert_eq!(parsed.tps, 1000);
}

#[test]
fn stepfile_is_the_same_after_a_detour_through_ssc() {
    let pairs = vec![(0, 0), (20480, 9000)];
    let mut direct = Vec::new();
    ssq::writer::write(&song(), &events(), &pairs, &mut direct).unwrap();
    let mut text = String::new();
    ssc::write(&song(), &mut text).unwrap();
    let mut detour = Vec::new();
    ssq::writer::write(&ssc::parse(&text).unwrap(), &events(), &pairs, &mut detour).unwrap();
    assert_eq!(direct, detour);
}

#[test]
fn simfile_is_the_same_after_a_detour_through_ssq() {
    let mut bytes = Vec::new();
    ssq::writer::write(&song(), &events(), &[(0, 0), (20480, 9000)], &mut bytes).unwrap();
    let mut back = song();
    back.charts = ssq::parse(&bytes).unwrap().song.charts;
    let mut direct = String::new();
    ssc::write(&song(), &mut direct).unwrap();
    let mut detour = String::new();
    ssc::write(&back, &mut detour).unwrap();
    assert_eq!(direct, detour);
}

#[test]
fn decimals_read_back() {
    for (num, den) in [(0, 1), (-53, 1000), (251, 10), (1, 3), (123456789, 1000000)] {
        let r = Rational::new(num, den).unwrap();
        let text = format_decimal(r);
        let back = decimal_to_rational(&text).unwrap();
        if den != 3 {
            assert_eq!(back, r);
        } else {
            assert_eq!(text, "0.333333");
            assert_eq!(back, Rational::new(333_333, 1_000_000).unwrap());
        }
    }
}

#[test]
fn parsed_simfile_notes_come_in_order() {
    let notes = parse_notes_body("1000\n0M00\n0010\n0000\n,\n2000\n0000\n3000\n000M\n", Style::Single).unwrap();
    assert_eq!(notes.len(), 5);
    for pair in notes.windows(2) {
        assert!(!pair[1].beat.is_before(&pair[0].beat));
    }
}

#[test]
fn difficulty_codes_read_back() {
    for style in [Style::Single, Style::Double] {
        for difficulty in [
            Difficulty::Beginner,
            Difficulty::Basic,
            Difficulty::Difficult,
            Difficulty::Expert,
            Difficulty::Challenge,
        ] {
            let code = difficulty_code(style, difficulty);
            assert_eq!(decode_difficulty_code(code, 0).unwrap(), (style, difficulty));
        }
    }
    assert_eq!(difficulty_code(Style::Single, Difficulty::Basic), 0x0114);
}

#[test]
fn synthesized_tempo_runs_forward_from_the_sync_offset() {
    let end = Beat::from_measure_ticks(20480).unwrap();
    let pairs = synthesize_tempo_entries_until(&song(), Some(end)).unwrap();
    assert_eq!(pairs[0], (0, -53));
    assert_eq!(pairs.last().unwrap().0, 20480);
    for pair in pairs.windows(2) {
        assert!(pair[0].0 <= pair[1].0);
        assert!(pair[0].1 <= pair[1].1);
        assert_ne!(pair[0], pair[1]);
    }
    // Two beats at 150.5 BPM take 797 ms; the stop lasts 250 ms.
    assert_eq!(pairs[1], (2048, 744));
    assert_eq!(pairs[2], (2048, 994));
}

#[test]
fn modernizing_again_changes_nothing() {
    let mut bytes = Vec::new();
    ssq::writer::write(&song(), &events(), &[(0, 40), (20480, 9000)], &mut bytes).unwrap();
    let mut once = ssq::parse(&bytes).unwrap();
    once.song.tps = 150;
    once.raw_tempo_pairs = vec![(-2048, 6), (4096, 306), (8192, 606)];
    modernize(&mut once);
    assert_eq!(once.song.tps, 1000);
    assert_eq!(once.raw_tempo_pairs, vec![(0, 40), (6144, 2040), (10240, 4040)]);
    assert_eq!(
        once.song.audio_sync_offset_seconds,
        Rational::new(40, 1000).unwrap()
    );
    let mut twice = once.clone();
    modernize(&mut twice);
    assert_eq!(twice.raw_tempo_pairs, once.raw_tempo_pairs);
    assert_eq!(twice.events, once.events);
    same_charts(&twice.song.charts, &once.song.charts);
    assert_eq!(
        twice.song.audio_sync_offset_seconds,
        once.song.audio_sync_offset_seconds
    );
}

fn adpcm_format() -> WaveFormat {
    WaveFormat::from_packed(2 | (2 << 2) | (44_100 << 5) | (48 << 23))
}

#[test]
fn encoded_audio_decodes_to_whole_blocks() {
    let format = adpcm_format();
    let samples: Vec<i16> = (0..2 * 300).map(|i| ((i * 37) % 2000) as i16 - 1000).collect();
    let data = encode(&samples, &format).unwrap();
    assert_eq!(data.len(), 3 * 140);
    let decoded = decode(&data, &format).unwrap();
    assert_eq!(decoded.len(), 3 * 128 * 2);
    let silence = vec![0i16; 2 * 200];
    let quiet = decode(&encode(&silence, &format).unwrap(), &format).unwrap();
    assert!(quiet.iter().all(|&s| s == 0));
}

#[test]
fn wave_bank_reads_back_and_rewrites_identically() {
    let mut name = [0u8; 64];
    name[..4].copy_from_slice(b"muka");
    let bank = XwbBank {
        header_version: 42,
        flags: 0x0009_0001,
        name,
        entry_name_element_size: 64,
        alignment: 2048,
        compact_format: 0,
        build_time: 0x0102_0304_0506_0708,
        entries: vec![
            XwbEntry {
                flags_and_duration: 128 << 4,
                format: adpcm_format(),
                data: vec![7; 140],
                loop_start: 1,
                loop_length: 127,
                name_bytes: b"muka_s".to_vec(),
            },
            XwbEntry {
                flags_and_duration: 256 << 4,
                format: adpcm_format(),
                data: vec![9; 280],
                loop_start: 0,
                loop_length: 255,
                name_bytes: b"muka".to_vec(),
            },
        ],
    };
    let mut bytes = Vec::new();
    xwb::write(&bank, &mut bytes).unwrap();
    let back = xwb::parse(&bytes).unwrap();
    assert_eq!(back.build_time, bank.build_time);
    assert_eq!(back.name_str(), "muka");
    assert_eq!(back.entries.len(), 2);
    assert_eq!(back.entries[0].name_str(), "muka_s");
    assert_eq!(back.entries[0].data, vec![7; 140]);
    assert_eq!(back.entries[1].data, vec![9; 280]);
    assert_eq!(back.entries[1].loop_length, 255);
    let mut again = Vec::new();
    xwb::write(&back, &mut again).unwrap();
    assert_eq!(again, bytes);
}

#[test]
fn ticks_read_back() {
    for tick in [0, 1, -1, 341, 4096, i32::MAX, i32::MIN] {
        let beat = Beat::from_measure_ticks(i64::from(tick)).unwrap();
        assert_eq!(ssq::writer::beat_to_measure_ticks(beat).unwrap(), tick);
    }
}

#[test]
fn mine_entries_ascend_with_one_for_each_tick() {
    let chart = Chart {
        style: Style::Double,
        difficulty: Difficulty::Basic,
        notes: vec![
            note(2048, NoteKind::Mine, Style::Double, 0x01),
            note(0, NoteKind::Mine, Style::Double, 0x80),
            note(2048, NoteKind::Mine, Style::Double, 0x10),
        ],
    };
    let mut bytes = Vec::new();
    ssq::mines::write_chunk(&chart, &mut bytes).unwrap();
    assert_eq!(bytes.len(), 12 + 2 * 8);
    assert_eq!(bytes[12..20], [0, 0, 0, 0, 0x80, 0, 0, 0]);
    assert_eq!(bytes[20..28], [0, 8, 0, 0, 0x11, 0, 0, 0]);
    // Masks that merge into a shock's are refused.
    let mut shock = chart.clone();
    shock.notes = vec![
        note(0, NoteKind::Mine, Style::Double, 0x03),
        note(0, NoteKind::Mine, Style::Double, 0x0C),
    ];
    assert!(matches!(
        ssq::mines::write_chunk(&shock, &mut Vec::new()),
        Err(ssq::SsqError::InvalidMinePanels { panels: 0x0F })
    ));
}

#[test]
fn parsed_steps_come_in_order_on_panels_of_the_style() {
    let mut bytes = Vec::new();
    ssq::writer::write(&song(), &events(), &[(0, 0), (9, 1)], &mut bytes).unwrap();
    for chart in ssq::parse(&bytes).unwrap().song.charts {
        let mask = if chart.style == Style::Single { 0x0F } else { 0xFF };
        for pair in chart.notes.windows(2) {
            assert!(!pair[1].beat.is_before(&pair[0].beat));
        }
        assert!(chart.notes.iter().all(|n| n.panels.bits() & !mask == 0));
    }
}

#[test]
fn lossy_charts_keep_tempo_events_and_codes() {
    // Two notes on one panel at one tick become one, and the tempo is not the song's.
    let mut lossy = song();
    lossy.charts[0].notes = vec![
        note(0, NoteKind::Tap, Style::Single, 0x01),
        note(0, NoteKind::Tap, Style::Single, 0x03),
    ];
    let pairs = vec![(0, 7), (4096, 1000)];
    let mut bytes = Vec::new();
    ssq::writer::write(&lossy, &events(), &pairs, &mut bytes).unwrap();
    let parsed = ssq::parse(&bytes).unwrap();
    assert_eq!(parsed.raw_tempo_pairs, pairs);
    assert_eq!(parsed.events, events());
    assert_eq!(parsed.song.tps, 1000);
    assert!(parsed.aux_chunks_dropped.is_empty());
    assert_eq!(parsed.song.charts.len(), 2);
    assert_eq!(parsed.song.charts[0].difficulty, Difficulty::Expert);
    assert_eq!(parsed.song.charts[1].style, Style::Double);
    assert_eq!(parsed.song.charts[0].notes.len(), 1);
}
