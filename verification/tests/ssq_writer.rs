use ddr_chart_tools::model::{
    AudioBuffer, PreviewSlice, Rational, Beat, Bpm, Style, Difficulty, PanelSet, Note, NoteKind,
    Chart, TempoSegment, Stop, Song,
};
use ddr_chart_tools::ssq::events::SsqEvent;
use ddr_chart_tools::ssq::writer::{
    emit_steps_and_freezes, synthesize_tempo_entries, synthesize_tempo_entries_until,
};
use ddr_chart_tools::ssq::{parse, writer, SsqError};

fn empty_song(tps: u32) -> Song {
    Song {
        title: None,
        artist: None,
        tps,
        tempo_segments: Vec::new(),
        stops: Vec::new(),
        charts: Vec::new(),
        audio: AudioBuffer {
            samples: Vec::new(),
            sample_rate: 0,
            channels: 0,
        },
        audio_sync_offset_seconds: Rational::zero(),
        preview: PreviewSlice::default_window(),
    }
}

#[test]
fn refuses_non_modern_tps() {
    let song = empty_song(150);
    let mut out = Vec::new();
    let err = writer::write(&song, &[], &[], &mut out).unwrap_err();
    assert!(matches!(err, SsqError::CannotWriteTps { tps: 150 }));
}

#[test]
fn round_trip_minimal_ssq() {
    // Build a complete minimal SSQ: tempo + events + one empty chart.
    let mut song = empty_song(1000);
    song.tempo_segments.push(TempoSegment {
        start_beat: Beat::zero(),
        bpm: Bpm::from_rational(Rational::from_integer(120)),
    });
    song.charts.push(Chart {
        style: Style::Single,
        difficulty: Difficulty::Basic,
        notes: Vec::new(),
    });
    let events = vec![SsqEvent {
        tick: 0,
        code: 1,
        arg: 4,
    }];

    let mut bytes = Vec::new();
    writer::write(&song, &events, &[], &mut bytes).unwrap();

    let parsed = parse(&bytes).unwrap();
    assert_eq!(parsed.song.tps, 1000);
    assert_eq!(parsed.song.charts.len(), 1);
    assert_eq!(parsed.events.len(), 1);
    assert_eq!(parsed.events[0].code, 1);
}

#[test]
fn round_trip_with_tap_note() {
    let mut song = empty_song(1000);
    song.tempo_segments.push(TempoSegment {
        start_beat: Beat::zero(),
        bpm: Bpm::from_rational(Rational::from_integer(120)),
    });
    song.charts.push(Chart {
        style: Style::Single,
        difficulty: Difficulty::Basic,
        notes: vec![Note {
            beat: Beat::from_measure_ticks(1024).unwrap(),
            kind: NoteKind::Tap,
            panels: PanelSet::from_bits(Style::Single, 0x05),
        }],
    });
    let events = vec![SsqEvent {
        tick: 0,
        code: 2,
        arg: 1,
    }];

    let mut bytes = Vec::new();
    writer::write(&song, &events, &[], &mut bytes).unwrap();

    let parsed = parse(&bytes).unwrap();
    assert_eq!(parsed.song.charts.len(), 1);
    assert_eq!(parsed.song.charts[0].notes.len(), 1);
    assert_eq!(parsed.song.charts[0].notes[0].panels.bits(), 0x05);
    assert_eq!(parsed.song.charts[0].notes[0].kind, NoteKind::Tap);
}

#[test]
fn round_trip_with_hold_head() {
    let mut song = empty_song(1000);
    song.tempo_segments.push(TempoSegment {
        start_beat: Beat::zero(),
        bpm: Bpm::from_rational(Rational::from_integer(120)),
    });
    song.charts.push(Chart {
        style: Style::Single,
        difficulty: Difficulty::Expert,
        notes: vec![Note {
            beat: Beat::from_measure_ticks(1024).unwrap(),
            kind: NoteKind::HoldHead {
                length: Beat::from_measure_ticks(1024).unwrap(),
            },
            panels: PanelSet::from_bits(Style::Single, 0x04),
        }],
    });
    let events = vec![SsqEvent {
        tick: 0,
        code: 2,
        arg: 1,
    }];

    let mut bytes = Vec::new();
    writer::write(&song, &events, &[], &mut bytes).unwrap();

    let parsed = parse(&bytes).unwrap();
    let n = &parsed.song.charts[0].notes[0];
    assert_eq!(n.panels.bits(), 0x04);
    match n.kind {
        NoteKind::HoldHead { length } => {
            assert_eq!(length, Beat::from_measure_ticks(1024).unwrap());
        }
        _ => panic!("expected HoldHead, got {:?}", n.kind),
    }
}

#[test]
fn raw_tempo_pairs_roundtrip_byte_exact() {
    // When raw_pairs are provided, they must be emitted verbatim
    // (no recomputation from semantic view).
    let song = {
        let mut s = empty_song(1000);
        s.tempo_segments.push(TempoSegment {
            start_beat: Beat::zero(),
            bpm: Bpm::from_rational(Rational::from_integer(120)),
        });
        s.charts.push(Chart {
            style: Style::Single,
            difficulty: Difficulty::Basic,
            notes: Vec::new(),
        });
        s
    };
    let raw = vec![(0, 42), (4096, 2042)]; // arbitrary but well-formed
    let events = vec![SsqEvent {
        tick: 0,
        code: 1,
        arg: 4,
    }];
    let mut bytes = Vec::new();
    writer::write(&song, &events, &raw, &mut bytes).unwrap();
    let parsed = parse(&bytes).unwrap();
    assert_eq!(parsed.raw_tempo_pairs, raw);
}

// ---------- tempo synthesis ----------

fn seg(beat: Rational, bpm: Rational) -> TempoSegment {
    TempoSegment {
        start_beat: Beat::from_rational(beat),
        bpm: Bpm::from_rational(bpm),
    }
}

fn tap_at(beat: i64) -> Note {
    Note {
        beat: Beat::from_rational(Rational::from_integer(beat)),
        kind: NoteKind::Tap,
        panels: PanelSet::from_bits(Style::Single, 0x01),
    }
}

/// BPM implied by two consecutive tempo pairs, as the game derives it.
fn slope_bpm(a: (i32, i32), b: (i32, i32)) -> f64 {
    240.0 * 1000.0 * f64::from(b.0 - a.0) / (4096.0 * f64::from(b.1 - a.1))
}

#[test]
fn tempo_synthesis_survives_awkward_bpm_decimals() {
    let mut song = empty_song(1000);
    let bpms = [
        "230",
        "460",
        "230",
        "115",
        "230",
        "240",
        "249.999985",
        "260",
        "270",
        "1080",
        "115",
        "230",
        "238",
        "246",
        "251.999985",
        "258",
        "266",
        "287",
        "298",
        "309",
        "320",
        "118.3",
        "115.03",
        "111.06",
        "107.7",
        "107",
        "53.5",
    ];
    for (i, bpm) in bpms.iter().enumerate() {
        let (int, frac) = bpm.split_once('.').unwrap_or((bpm, ""));
        let den = 10i64.pow(frac.len() as u32);
        let num = int.parse::<i64>().unwrap() * den + frac.parse::<i64>().unwrap_or(0);
        song.tempo_segments.push(seg(
            Rational::new(i as i64 * 7 + i as i64 % 3, 8).unwrap(),
            Rational::new(num, den).unwrap(),
        ));
        song.stops.push(Stop {
            at_beat: Beat::from_rational(Rational::new(i as i64 * 7 + 3, 8).unwrap()),
            duration_seconds: Rational::new(65_217 + i as i64, 1_000_000).unwrap(),
        });
    }
    let entries = synthesize_tempo_entries_until(
        &song,
        Some(Beat::from_rational(Rational::from_integer(600))),
    )
    .expect("fixed-point accumulation must not overflow");
    assert_eq!(entries.last().unwrap().0, 600 * 1024);
    // Monotone in both axes.
    for w in entries.windows(2) {
        assert!(w[1].0 >= w[0].0, "ticks must not go backwards: {w:?}");
        assert!(w[1].1 >= w[0].1, "time must not go backwards: {w:?}");
    }
}

#[test]
fn trailing_entry_encodes_final_bpm_change() {
    let mut song = empty_song(1000);
    song.tempo_segments = vec![
        seg(Rational::from_integer(0), Rational::from_integer(160)),
        seg(Rational::from_integer(180), Rational::from_integer(1280)),
        seg(Rational::from_integer(196), Rational::from_integer(160)),
    ];
    song.stops = vec![Stop {
        at_beat: Beat::from_rational(Rational::from_integer(180)),
        duration_seconds: Rational::new(9, 4).unwrap(),
    }];
    song.charts.push(Chart {
        style: Style::Single,
        difficulty: Difficulty::Expert,
        notes: vec![tap_at(324)],
    });

    let entries = synthesize_tempo_entries(&song).unwrap();
    // 180 beats @160 = 67 500 ms; stop → 69 750; 16 beats @1280 =
    // 750 ms → 70 500 at beat 196; 128 beats @160 = 48 000 ms.
    assert_eq!(
        entries,
        vec![
            (0, 0),
            (184_320, 67_500),
            (184_320, 69_750),
            (200_704, 70_500),
            (331_776, 118_500),
        ]
    );
    let n = entries.len();
    assert!((slope_bpm(entries[n - 2], entries[n - 1]) - 160.0).abs() < 1e-9);
}

#[test]
fn bpm_change_and_stop_at_same_beat_share_one_anchor() {
    let mut song = empty_song(1000);
    song.tempo_segments = vec![
        seg(Rational::from_integer(0), Rational::from_integer(120)),
        seg(Rational::from_integer(4), Rational::from_integer(240)),
    ];
    song.stops = vec![Stop {
        at_beat: Beat::from_rational(Rational::from_integer(4)),
        duration_seconds: Rational::new(1, 2).unwrap(),
    }];
    song.charts.push(Chart {
        style: Style::Single,
        difficulty: Difficulty::Basic,
        notes: vec![tap_at(8)],
    });
    let entries = synthesize_tempo_entries(&song).unwrap();
    assert_eq!(
        entries,
        vec![(0, 0), (4096, 2000), (4096, 2500), (8192, 3500)],
        "no duplicate anchor at beat 4; trailing entry at the last note"
    );
}

#[test]
fn explicit_end_beat_places_trailing_entry_there() {
    let mut song = empty_song(1000);
    song.tempo_segments = vec![seg(Rational::from_integer(0), Rational::from_integer(120))];
    song.charts.push(Chart {
        style: Style::Single,
        difficulty: Difficulty::Basic,
        notes: vec![tap_at(10)],
    });
    let end = Beat::from_rational(Rational::from_integer(24));
    let entries = synthesize_tempo_entries_until(&song, Some(end)).unwrap();
    assert_eq!(entries, vec![(0, 0), (24 * 1024, 12_000)]);
}

#[test]
fn no_trailing_entry_when_end_beat_precedes_last_anchor() {
    // The last note is before the last BPM change: nothing follows
    // that change, so there is nothing to encode after it.
    let mut song = empty_song(1000);
    song.tempo_segments = vec![
        seg(Rational::from_integer(0), Rational::from_integer(120)),
        seg(Rational::from_integer(100), Rational::from_integer(240)),
    ];
    let end = Beat::from_rational(Rational::from_integer(50));
    let entries = synthesize_tempo_entries_until(&song, Some(end)).unwrap();
    assert_eq!(entries, vec![(0, 0), (102_400, 50_000)]);
}

#[test]
fn first_bpm_applies_from_beat_zero_when_written_later() {
    // `#BPMS:1.000=120.000;` — StepMania uses the first entry for
    // everything before it. Beat 1 must land at 500 ms, not 0.
    let mut song = empty_song(1000);
    song.tempo_segments = vec![seg(Rational::from_integer(1), Rational::from_integer(120))];
    let end = Beat::from_rational(Rational::from_integer(3));
    let entries = synthesize_tempo_entries_until(&song, Some(end)).unwrap();
    assert_eq!(entries, vec![(0, 0), (1024, 500), (3072, 1500)]);
}

#[test]
fn tempo_synthesis_rounds_half_away_from_zero_like_before() {
    let mut song = empty_song(1000);
    song.tempo_segments = vec![
        seg(Rational::from_integer(0), Rational::from_integer(168)),
        seg(Rational::from_integer(1), Rational::from_integer(168)),
        seg(Rational::from_integer(7), Rational::from_integer(168)),
    ];
    let entries = synthesize_tempo_entries_until(&song, None).unwrap();
    assert_eq!(entries, vec![(0, 0), (1024, 357), (7168, 2500)]);
}

// ---------- same-beat notes ----------

#[test]
fn tap_and_hold_at_same_beat_share_one_step_byte() {
    // Model: tap Left + hold Right at beat 1. The SSQ has one step
    // byte (0x09) at that tick and a freeze-end naming only Right;
    // re-parsing must give the two notes back, not a two-panel hold.
    let mut song = empty_song(1000);
    song.tempo_segments
        .push(seg(Rational::zero(), Rational::from_integer(120)));
    song.charts.push(Chart {
        style: Style::Single,
        difficulty: Difficulty::Expert,
        notes: vec![
            Note {
                beat: Beat::from_measure_ticks(1024).unwrap(),
                kind: NoteKind::Tap,
                panels: PanelSet::from_bits(Style::Single, 0x01),
            },
            Note {
                beat: Beat::from_measure_ticks(1024).unwrap(),
                kind: NoteKind::HoldHead {
                    length: Beat::from_measure_ticks(2048).unwrap(),
                },
                panels: PanelSet::from_bits(Style::Single, 0x08),
            },
        ],
    });

    let (ticks, steps, freezes) = emit_steps_and_freezes(&song.charts[0]).unwrap();
    assert_eq!(ticks, vec![1024, 3072]);
    assert_eq!(steps, vec![0x09, 0x00]);
    assert_eq!(freezes, vec![(0x08, 0x01)]);

    let mut bytes = Vec::new();
    writer::write(&song, &[], &[], &mut bytes).unwrap();
    let parsed = parse(&bytes).unwrap();
    let notes = &parsed.song.charts[0].notes;
    assert_eq!(notes.len(), 2);
    assert_eq!(notes[0].kind, NoteKind::Tap);
    assert_eq!(notes[0].panels.bits(), 0x01);
    assert_eq!(
        notes[1].kind,
        NoteKind::HoldHead {
            length: Beat::from_measure_ticks(2048).unwrap()
        }
    );
    assert_eq!(notes[1].panels.bits(), 0x08);
}

#[test]
fn holds_ending_together_share_one_freeze_end() {
    // Two single-panel holds at the same beat with the same length
    // collapse to one step byte and one freeze entry (0x03).
    let mut song = empty_song(1000);
    song.tempo_segments
        .push(seg(Rational::zero(), Rational::from_integer(120)));
    let hold = |panel: u8| Note {
        beat: Beat::from_measure_ticks(1024).unwrap(),
        kind: NoteKind::HoldHead {
            length: Beat::from_measure_ticks(1024).unwrap(),
        },
        panels: PanelSet::from_bits(Style::Single, panel),
    };
    song.charts.push(Chart {
        style: Style::Single,
        difficulty: Difficulty::Expert,
        notes: vec![hold(0x01), hold(0x02)],
    });
    let (ticks, steps, freezes) = emit_steps_and_freezes(&song.charts[0]).unwrap();
    assert_eq!(ticks, vec![1024, 2048]);
    assert_eq!(steps, vec![0x03, 0x00]);
    assert_eq!(freezes, vec![(0x03, 0x01)]);
}
