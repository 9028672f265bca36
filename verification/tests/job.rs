use ddr_chart_tools::cli::job::{Format, Job};
use ddr_chart_tools::job::JobError;
use ddr_chart_tools::job::audio::{ddr_wave_format, validate_ddr_audio};
use ddr_chart_tools::job::naming::{output_path, resolve_song_code};
use ddr_chart_tools::job::timeline::{chart_end_tick, extend_tempo_pairs_to, synthesize_events};
use ddr_chart_tools::model::{
    AudioBuffer, PreviewSlice, Rational, Beat, Bpm, Style, Difficulty, PanelSet, Note, NoteKind,
    Chart, TempoSegment, Stop, Song,
};
use ddr_chart_tools::ssq::events::SsqEvent;
use ddr_chart_tools::xwb::container::WaveFormat;

/// Build a minimal Song with a single Single-Basic chart holding
/// one tap note at the given measure-tick position.
fn song_with_last_note_at(last_tick: i64) -> Song {
    Song {
        title: None,
        artist: None,
        tps: 1000,
        tempo_segments: Vec::new(),
        stops: Vec::new(),
        charts: vec![Chart {
            style: Style::Single,
            difficulty: Difficulty::Basic,
            notes: vec![Note {
                beat: Beat::from_measure_ticks(last_tick).unwrap(),
                kind: NoteKind::Tap,
                panels: PanelSet::from_bits(Style::Single, 0x01),
            }],
        }],
        audio: AudioBuffer {
            samples: Vec::new(),
            sample_rate: 0,
            channels: 0,
        },
        audio_sync_offset_seconds: Rational::zero(),
        preview: PreviewSlice::default_window(),
    }
}

// ---------- song code / output naming ----------

fn job_for(chart: &str, song_code: Option<&str>) -> Job {
    Job {
        from: Format::Sm5,
        to: Format::Ddr,
        chart_in: chart.to_string(),
        audio_in: "x.ogg".to_string(),
        overwrite: false,
        output_dir: "out".to_string(),
        sync_offset_ms: 0,
        song_code: song_code.map(str::to_string),
    }
}

#[test]
fn song_code_is_the_whole_basename_when_it_can_be() {
    assert_eq!(resolve_song_code(&job_for("muka.ssc", None)), "muka");
    assert_eq!(resolve_song_code(&job_for("bknh2.ssq", None)), "bknh2");
    assert_eq!(resolve_song_code(&job_for("Muka.ssc", None)), "Muka");
    assert_eq!(resolve_song_code(&job_for("abs2_all.ssq", None)), "abs2");
}

#[test]
fn explicit_song_code_names_bank_and_output_files() {
    let job = job_for("Mukade.ssc", Some("muka"));
    assert_eq!(resolve_song_code(&job), "muka");
    assert_eq!(output_path(&job, "xwb"), "out/muka.xwb");
    assert_eq!(output_path(&job, "ssq"), "out/muka.ssq");
}

#[test]
fn unusable_basename_falls_back_to_a_short_code() {
    // Still produces *something* (so the SSQ can be inspected) but
    // the caller logs that it will not play under this filename.
    assert_eq!(
        resolve_song_code(&job_for("A Is For Action.ssc", None)),
        "AIsF"
    );
    assert_eq!(resolve_song_code(&job_for("$1.78.ssc", None)), "178");
    assert_eq!(resolve_song_code(&job_for("!!!.ssc", None)), "song");
    assert_eq!(
        output_path(&job_for("A Is For Action.ssc", None), "ssq"),
        "out/A Is For Action.ssq",
        "output filename still follows the input when no code is given"
    );
}

#[test]
fn output_stem_keeps_dots_that_are_not_the_extension() {
    assert_eq!(
        output_path(&job_for("$1.78.ssc", None), "ssq"),
        "out/$1.78.ssq"
    );
}

// ---------- validate_ddr_audio ----------

fn audio(sample_rate: u32, channels: u16) -> AudioBuffer {
    AudioBuffer {
        samples: vec![0; 256 * channels as usize],
        sample_rate,
        channels,
    }
}

#[test]
fn ddr_audio_accepts_44100_stereo() {
    assert!(validate_ddr_audio(&audio(44_100, 2)).is_ok());
}

#[test]
fn ddr_audio_accepts_48000_stereo() {
    assert!(validate_ddr_audio(&audio(48_000, 2)).is_ok());
}

#[test]
fn ddr_audio_rejects_unlisted_rate() {
    let err = validate_ddr_audio(&audio(22_050, 2)).unwrap_err();
    assert!(
        matches!(
            err,
            JobError::UnsupportedSampleRate {
                sample_rate: 22_050
            }
        ),
        "got {err:?}"
    );
}

#[test]
fn ddr_audio_rejects_mono() {
    let err = validate_ddr_audio(&audio(44_100, 1)).unwrap_err();
    assert!(
        matches!(err, JobError::WrongChannelCount { channels: 1 }),
        "got {err:?}"
    );
}

#[test]
fn ddr_audio_reports_sample_rate_before_channels() {
    // Both wrong: the rate is the more likely root cause, so it is
    // what the user sees first.
    let err = validate_ddr_audio(&audio(22_050, 1)).unwrap_err();
    assert!(matches!(err, JobError::UnsupportedSampleRate { .. }));
}

#[test]
fn ddr_wave_format_carries_buffer_rate() {
    for rate in [44_100, 48_000] {
        let fmt = ddr_wave_format(rate);
        assert_eq!(fmt.sample_rate(), rate);
        assert_eq!(u16::from(fmt.channels()), 2);
        assert_eq!(fmt.codec(), WaveFormat::CODEC_ADPCM);
        assert_eq!(fmt.block_align_raw(), 48);
        assert_eq!(fmt.samples_per_block(), 128);
    }
}

#[test]
fn ddr_wave_format_48k_survives_container_round_trip() {
    // 48000 must fit the 18-bit rate field without clobbering
    // neighbouring fields once packed and unpacked.
    let fmt = ddr_wave_format(48_000);
    let again = WaveFormat::from_packed(fmt.packed());
    assert_eq!(again, fmt);
    assert_eq!(again.sample_rate(), 48_000);
    assert_eq!(again.block_align(), 140);
}

/// Given synthesized events, extract (FINISH tick, END tick).
fn finish_and_end_ticks(events: &[SsqEvent]) -> (i32, i32) {
    let finish = events
        .iter()
        .find(|e| e.code == 2 && e.arg == 3)
        .expect("FINISH event missing");
    let end = events
        .iter()
        .find(|e| e.code == 2 && e.arg == 4)
        .expect("END event missing");
    (finish.tick, end.tick)
}

#[test]
fn events_have_canonical_6_entry_shape() {
    let song = song_with_last_note_at(232448); // beat 227
    let (events, _) = synthesize_events(&song, &[]);
    assert_eq!(events.len(), 6);
    // MEASURE(4/4) at 0, READY at 0, GO at 4096, EDIT at 4096
    assert_eq!(
        events[0],
        SsqEvent {
            tick: 0,
            code: 1,
            arg: 4
        }
    );
    assert_eq!(
        events[1],
        SsqEvent {
            tick: 0,
            code: 2,
            arg: 1
        }
    );
    assert_eq!(
        events[2],
        SsqEvent {
            tick: 4096,
            code: 2,
            arg: 2
        }
    );
    assert_eq!(
        events[3],
        SsqEvent {
            tick: 4096,
            code: 2,
            arg: 5
        }
    );
    // FINISH and END are tested separately.
}

#[test]
fn finish_sits_after_last_note_when_no_tempo_hint() {
    // No source tempo pairs — the SM5 path. FINISH must still be
    // strictly after the last note's measure boundary so the game
    // doesn't cut to results before the last note is played.
    let song = song_with_last_note_at(232448); // beat 227, last measure boundary = 233472
    let (events, _) = synthesize_events(&song, &[]);
    let (finish, end) = finish_and_end_ticks(&events);
    assert!(
        finish > 232448,
        "FINISH must be past last note (got {finish})"
    );
    assert!(
        end > finish,
        "END must be past FINISH (got end={end}, finish={finish})"
    );
}

#[test]
fn end_adopts_source_trailing_tempo_tick_when_far_enough() {
    // Source has a trailing tempo entry past last note + 2 measures.
    // After modernize, raw_tempo_pairs[-1].0 = 254976 (beat 249).
    // last note = 232448 (beat 227). desired_end = 232448 + 8192 = 240640.
    // Because source trailing tick 254976 > 240640, END adopts 254976.
    let song = song_with_last_note_at(232448);
    let raw_pairs = vec![
        (0, 53),
        (8192, 3387),
        (135168, 55053),
        (221184, 90053),
        (225280, 91840),
        (228352, 93053),
        (232448, 94773),
        (254976, 103747),
    ];
    let (events, tempo_pairs) = synthesize_events(&song, &raw_pairs);
    let (finish, end) = finish_and_end_ticks(&events);
    assert_eq!(
        end, 254976,
        "END should adopt the source trailing tempo tick"
    );
    assert_eq!(
        finish,
        end - 4096,
        "FINISH should be one measure before END"
    );
    // No new pair should have been appended — the source already had a sufficient guard.
    assert_eq!(tempo_pairs, raw_pairs);
}

#[test]
fn appends_trailing_tempo_pair_when_source_ends_at_last_note() {
    // Source's last tempo pair coincides with the last note.
    // We must synthesize a new trailing entry past FINISH so FINISH gets
    // bracketed by two consumed TIMING entries in the game's walk.
    // Using last_note = 110592 (beat 108, measure-aligned) keeps the
    // arithmetic simple: last_measure = 110592.
    let song = song_with_last_note_at(110592); // beat 108, on measure boundary
                                               // Source tempo: 120 BPM throughout, ending at the last note.
                                               // 120 BPM, TPS=1000 → 500 seconds-ticks per beat.
                                               // At beat 108 = 110592 measure-ticks, seconds-ticks = 108 * 500 = 54000.
    let raw_pairs = vec![(0, 0), (110592, 54000)];
    let (events, tempo_pairs) = synthesize_events(&song, &raw_pairs);
    let (finish, end) = finish_and_end_ticks(&events);
    // last_measure = 110592 (already measure-aligned)
    // desired_end = 110592 + 8192 = 118784
    // source trailing 110592 < 118784, so end_tick = 118784.
    assert_eq!(end, 118784);
    assert_eq!(finish, end - 4096);
    // A new trailing tempo pair should have been appended at end_tick.
    assert_eq!(tempo_pairs.len(), raw_pairs.len() + 1);
    assert_eq!(tempo_pairs[tempo_pairs.len() - 1].0, 118784);
    // Extrapolated seconds-ticks at 120 BPM: prior pair had 54000 at tick 110592.
    // Over 8192 measure-ticks at 120 BPM, that's 4000 seconds-ticks.
    // So new seconds-ticks = 54000 + 4000 = 58000.
    assert_eq!(tempo_pairs[tempo_pairs.len() - 1].1, 58000);
}

#[test]
fn appends_trailing_tempo_pair_when_source_has_small_gap() {
    // Source's last tempo pair is only 1 measure past the
    // last note — not enough to bracket FINISH at last_note + 1 measure.
    // Using measure-aligned last_note = 155648 (beat 152, 152/4 = 38 measures).
    let song = song_with_last_note_at(155648); // beat 152
                                               // Source tempo ending at beat 156 (last_note + 1 measure). 120 BPM.
                                               // At tick 159744, seconds-ticks = 156 * 500 = 78000.
    let raw_pairs = vec![(0, 0), (159744, 78000)];
    let (events, tempo_pairs) = synthesize_events(&song, &raw_pairs);
    let (finish, end) = finish_and_end_ticks(&events);
    // last_measure = 155648 (already measure-aligned)
    // desired_end = 155648 + 8192 = 163840
    // source trailing 159744 < 163840, so end_tick = 163840.
    assert_eq!(end, 163840);
    assert_eq!(finish, end - 4096);
    // A new trailing pair should have been appended.
    assert_eq!(tempo_pairs.last().copied(), Some((163840, 80000)));
}

#[test]
fn finish_is_bracketed_by_two_tempo_entries_in_all_cases() {
    // This is the critical invariant: regardless of where the source
    // tempo ends, FINISH must sit strictly between two tempo ticks
    // in the emitted tempo pairs so the game's musicCount
    // interpolation assigns it a valid value.
    let cases = [
        // (last_note, raw_pairs)
        (232448, vec![(0, 0), (254976, 100000)]), // source past desired end
        (110592, vec![(0, 0), (110592, 54000)]),  // source at last note
        (155648, vec![(0, 0), (159744, 78000)]),  // source with small gap
        (4096, vec![(0, 0), (4096, 2000)]),       // very short song
    ];
    for (last_note, raw_pairs) in cases {
        let song = song_with_last_note_at(last_note);
        let (events, tempo_pairs) = synthesize_events(&song, &raw_pairs);
        let (finish, _) = finish_and_end_ticks(&events);
        // Find the two tempo ticks that straddle FINISH.
        let before = tempo_pairs
            .iter()
            .rev()
            .find(|p| p.0 <= finish)
            .map(|p| p.0);
        let after = tempo_pairs.iter().find(|p| p.0 > finish).map(|p| p.0);
        assert!(
            before.is_some() && after.is_some(),
            "FINISH at {finish} not bracketed for last_note={last_note}: before={before:?}, after={after:?}, pairs={tempo_pairs:?}"
        );
    }
}

#[test]
fn end_coincides_with_last_tempo_pair_tick() {
    let cases = [
        (232448, vec![(0, 0), (254976, 100000)]),
        (110592, vec![(0, 0), (110592, 54000)]),
        (155648, vec![(0, 0), (159744, 78000)]),
    ];
    for (last_note, raw_pairs) in cases {
        let song = song_with_last_note_at(last_note);
        let (events, tempo_pairs) = synthesize_events(&song, &raw_pairs);
        let (_, end) = finish_and_end_ticks(&events);
        assert_eq!(
            end,
            tempo_pairs.last().unwrap().0,
            "END must equal last tempo tick for last_note={last_note}"
        );
    }
}

#[test]
fn extend_tempo_pairs_extrapolates_linearly_from_last_segment() {
    // Last segment: (0, 0) → (1000, 500). Slope = 0.5 seconds-tick per tick.
    // Extending to tick 1500 should produce (1500, 750).
    let pairs = vec![(0, 0), (1000, 500)];
    let out = extend_tempo_pairs_to(&pairs, 1500);
    assert_eq!(out.len(), 3);
    assert_eq!(out[2], (1500, 750));
}

#[test]
fn extend_tempo_pairs_with_single_pair_falls_back_gracefully() {
    // Only one pair — no segment to extrapolate from. Falls back to
    // "same seconds-tick" (non-crashing degenerate case).
    let pairs = vec![(0, 100)];
    let out = extend_tempo_pairs_to(&pairs, 5000);
    assert_eq!(out.len(), 2);
    assert_eq!(out[1], (5000, 100));
}

#[test]
fn extend_tempo_pairs_extrapolates_past_trailing_stop() {
    let pairs = vec![(317440, 117369), (318464, 117744), (318464, 118119)];
    let out = extend_tempo_pairs_to(&pairs, 331776);
    assert_eq!(out.len(), 4);
    assert_eq!(out[3], (331776, 122994));
}

#[test]
fn extend_tempo_pairs_all_same_tick_falls_back_gracefully() {
    // Pathological: every pair has the same measure-tick (no
    // non-stop segment anywhere). We can't extrapolate a rate;
    // fall back to keeping seconds-tick constant.
    let pairs = vec![(500, 100), (500, 200), (500, 300)];
    let out = extend_tempo_pairs_to(&pairs, 1000);
    assert_eq!(out.len(), 4);
    assert_eq!(out[3], (1000, 300));
}

#[test]
fn synthesize_events_with_empty_song_handles_gracefully() {
    // No notes — the fallback last tick is 4096. FINISH and END should still produce a valid
    // event sequence and not panic.
    let mut song = song_with_last_note_at(1024); // beat 1
    song.charts[0].notes.clear();
    let (events, _) = synthesize_events(&song, &[]);
    assert_eq!(events.len(), 6);
    let (finish, end) = finish_and_end_ticks(&events);
    assert!(end > finish);
}

#[test]
fn sm5_to_ddr_flow_places_trailing_pair_at_end_with_final_bpm() {
    let seg = |beat: i64, bpm: i64| TempoSegment {
        start_beat: Beat::from_rational(Rational::from_integer(beat)),
        bpm: Bpm::from_rational(Rational::from_integer(bpm)),
    };
    let mut song = song_with_last_note_at(324 * 1024);
    song.tempo_segments = vec![seg(0, 160), seg(180, 1280), seg(196, 160)];
    song.stops = vec![Stop {
        at_beat: Beat::from_rational(Rational::from_integer(180)),
        duration_seconds: Rational::new(9, 4).unwrap(),
    }];

    let end_tick = chart_end_tick(&song);
    assert_eq!(end_tick, 324 * 1024 + 8192);
    let end_beat = Beat::from_measure_ticks(i64::from(end_tick)).unwrap();
    let initial = ddr_chart_tools::ssq::writer::synthesize_tempo_entries_until(&song, Some(end_beat))
        .expect("tempo synthesis");
    let (events, pairs) = synthesize_events(&song, &initial);
    let (_, end) = finish_and_end_ticks(&events);

    assert_eq!(pairs, initial, "no extrapolated pair should be appended");
    assert_eq!(pairs.last().unwrap().0, end);
    let n = pairs.len();
    let (a, b) = (pairs[n - 2], pairs[n - 1]);
    let bpm = 240.0 * 1000.0 * f64::from(b.0 - a.0) / (4096.0 * f64::from(b.1 - a.1));
    assert!(
        (bpm - 160.0).abs() < 1e-9,
        "final slope must be 160 BPM, got {bpm}"
    );
}

#[test]
fn sm5_to_ddr_flow_brackets_finish_end_to_end() {
    let mut song = song_with_last_note_at(2937856); // beat 2869
    song.tempo_segments = vec![TempoSegment {
        start_beat: Beat::zero(),
        bpm: Bpm::from_rational(Rational::from_integer(200)),
    }];

    // Simulate the sm5_to_ddr job flow.
    let initial_pairs = ddr_chart_tools::ssq::writer::synthesize_tempo_entries(&song)
        .expect("tempo synthesis should succeed with one segment");
    assert_eq!(initial_pairs.last().unwrap().0, 2937856);

    let (events, tempo_pairs) = synthesize_events(&song, &initial_pairs);
    let (finish, _) = finish_and_end_ticks(&events);

    // Invariant: FINISH is strictly between two tempo entries.
    let before = tempo_pairs
        .iter()
        .rev()
        .find(|p| p.0 <= finish)
        .map(|p| p.0);
    let after = tempo_pairs.iter().find(|p| p.0 > finish).map(|p| p.0);
    assert!(
        before.is_some() && after.is_some(),
        "FINISH at {finish} not bracketed: before={before:?}, after={after:?}, pairs={tempo_pairs:?}"
    );
}

#[test]
fn synthesize_events_with_mine_as_last_note_brackets_finish_correctly() {

    // Build a Song where the chart's ONLY note is a mine at a
    // late beat. No tap/hold at all.
    let mine_tick = 10240i32; // beat 10
    let mut song = song_with_last_note_at(i64::from(mine_tick));
    song.charts[0].notes = vec![Note {
        beat: Beat::from_measure_ticks(i64::from(mine_tick)).unwrap(),
        kind: NoteKind::Mine,
        panels: PanelSet::from_bits(Style::Single, 0x01),
    }];
    song.tempo_segments = vec![TempoSegment {
        start_beat: Beat::zero(),
        bpm: Bpm::from_rational(Rational::from_integer(120)),
    }];

    let initial_pairs = ddr_chart_tools::ssq::writer::synthesize_tempo_entries(&song)
        .expect("tempo synthesis should succeed");
    // The writer's trailing entry should be at the mine's tick —
    // same as any other last-note scenario.
    assert_eq!(
        initial_pairs.last().unwrap().0,
        mine_tick,
        "tempo synthesis must include the mine's beat as max_chart_beat"
    );

    let (events, tempo_pairs) = synthesize_events(&song, &initial_pairs);
    let (finish, end) = finish_and_end_ticks(&events);

    // last_measure = ((mine_tick + 4095) / 4096) * 4096
    //              = ((10240 + 4095) / 4096) * 4096 = 3 * 4096 = 12288.
    // desired_end = last_measure + 8192 = 20480. finish = end - 4096.
    let last_measure = ((mine_tick + 4095) / 4096) * 4096;
    let desired_end = last_measure + 8192;
    assert_eq!(end, desired_end, "END at last_measure + 2 measures");
    assert_eq!(finish, desired_end - 4096, "FINISH one measure before END");

    // FINISH must be strictly bracketed by two tempo entries.
    let before = tempo_pairs
        .iter()
        .rev()
        .find(|p| p.0 <= finish)
        .map(|p| p.0);
    let after = tempo_pairs.iter().find(|p| p.0 > finish).map(|p| p.0);
    assert!(
        before.is_some(),
        "FINISH at {finish}: no tempo pair at or before it. pairs={tempo_pairs:?}"
    );
    assert!(
        after.is_some(),
        "FINISH at {finish}: no tempo pair after it. pairs={tempo_pairs:?}"
    );

    // Final tempo pair should sit at END's tick.
    assert_eq!(
        tempo_pairs.last().unwrap().0,
        end,
        "last tempo pair must coincide with END"
    );
}
