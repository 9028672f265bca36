use ddr_chart_tools::cli::job::{Format, Job};
use ddr_chart_tools::cli::Cli;
use ddr_chart_tools::error::Error;
use ddr_chart_tools::job::audio::{
    can_pass_through, ddr_audio_files, decode_legacy_audio, fixed_name, slice_preview,
};
use ddr_chart_tools::job::batch::run_batch;
use ddr_chart_tools::job::convert::{
    apply_sif, apply_sync_offset, check_overwrite, ddr_to_sm5, direction, is_sm_path, legacy_chart,
    legacy_to_ddr_chart, legacy_to_sm5, sm5_chart, sm5_song, sm5_to_ddr_chart, Direction,
};
use ddr_chart_tools::job::naming::{output_path, resolve_song_code};
use ddr_chart_tools::job::JobError;
use ddr_chart_tools::model::{
    AudioBuffer, Beat, Bpm, Chart, Difficulty, Note, NoteKind, PanelSet, PreviewSlice, Rational,
    Song, Style, TempoSegment,
};
use ddr_chart_tools::ssc;
use ddr_chart_tools::ssq;
use ddr_chart_tools::ssq::events::SsqEvent;
use ddr_chart_tools::util::logging::{run_level, LevelFilter};
use ddr_chart_tools::util::pair::{find_pairs, FileEntry};
use ddr_chart_tools::xwb;

fn song_with(charts: Vec<Chart>) -> Song {
    Song {
        title: None,
        artist: None,
        tps: 1000,
        tempo_segments: vec![TempoSegment {
            start_beat: Beat::zero(),
            bpm: Bpm::from_rational(Rational::from_integer(120)),
        }],
        stops: Vec::new(),
        charts,
        audio: AudioBuffer {
            samples: Vec::new(),
            sample_rate: 0,
            channels: 0,
        },
        audio_sync_offset_seconds: Rational::zero(),
        preview: PreviewSlice::default_window(),
    }
}

fn tap_chart(tick: i64) -> Chart {
    Chart {
        style: Style::Single,
        difficulty: Difficulty::Basic,
        notes: vec![Note {
            beat: Beat::from_measure_ticks(tick).unwrap(),
            kind: NoteKind::Tap,
            panels: PanelSet::from_bits(Style::Single, 0x05),
        }],
    }
}

/// A stepfile with one tap and the given tempo pairs.
fn stepfile(pairs: &[(i32, i32)]) -> Vec<u8> {
    let events = [SsqEvent { tick: 0, code: 1, arg: 4 }];
    let mut bytes = Vec::new();
    ssq::writer::write(&song_with(vec![tap_chart(1024)]), &events, pairs, &mut bytes).unwrap();
    bytes
}

fn stereo(frames: usize) -> AudioBuffer {
    AudioBuffer {
        samples: (0..2 * frames).map(|i| (i % 1000) as i16).collect(),
        sample_rate: 48_000,
        channels: 2,
    }
}

#[test]
fn directions_are_the_supported_pairs() {
    assert_eq!(direction(Format::Ddr, Format::Sm5), Some(Direction::DdrToSm5));
    assert_eq!(direction(Format::Sm5, Format::Ddr), Some(Direction::Sm5ToDdr));
    assert_eq!(direction(Format::DdrLegacy, Format::Ddr), Some(Direction::LegacyToDdr));
    assert_eq!(direction(Format::DdrLegacy, Format::Sm5), Some(Direction::LegacyToSm5));
    assert_eq!(direction(Format::Ddr, Format::Ddr), None);
    assert_eq!(direction(Format::Sm5, Format::DdrLegacy), None);
}

#[test]
fn planned_jobs_have_a_direction() {
    let cli = Cli {
        from_format: Format::Sm5,
        to_format: Format::Ddr,
        chartfile: Some("a/muka.ssc".to_string()),
        audiofile: Some("a/muka.ogg".to_string()),
        input_folder: None,
        output_dir: None,
        overwrite: false,
        verbose: 0,
        quiet: false,
        sync_offset_ms: Some(7),
        song_code: None,
    };
    cli.validate().unwrap();
    let plan = cli.into_plan(&Vec::new()).unwrap();
    assert!(plan.pairing.is_none());
    assert_eq!(plan.jobs.len(), 1);
    assert_eq!(plan.jobs[0].output_dir, "output");
    assert_eq!(plan.jobs[0].sync_offset_ms, 7);
    assert!(direction(plan.jobs[0].from, plan.jobs[0].to).is_some());
}

#[test]
fn existing_output_needs_overwrite() {
    assert!(check_overwrite("out/a.ssq", false, false).is_ok());
    assert!(check_overwrite("out/a.ssq", true, true).is_ok());
    let err = check_overwrite("out/a.ssq", true, false).unwrap_err();
    assert_eq!(err.message(), "I/O error: output file already exists: out/a.ssq");
}

#[test]
fn sync_offset_moves_tempo_data_and_offset_alike() {
    let mut result = ssq::parse(&stepfile(&[(0, 40), (20480, 9000)])).unwrap();
    apply_sync_offset(&mut result, 53);
    assert_eq!(result.raw_tempo_pairs, vec![(0, 93), (20480, 9000)]);
    assert_eq!(
        result.song.audio_sync_offset_seconds,
        Rational::new(93, 1000).unwrap()
    );
    // In two steps it is the same.
    let mut twice = ssq::parse(&stepfile(&[(0, 40), (20480, 9000)])).unwrap();
    apply_sync_offset(&mut twice, 60);
    apply_sync_offset(&mut twice, -7);
    assert_eq!(twice.raw_tempo_pairs, result.raw_tempo_pairs);
    assert_eq!(
        twice.song.audio_sync_offset_seconds,
        result.song.audio_sync_offset_seconds
    );
}

#[test]
fn simfile_offset_has_the_opposite_sign() {
    let bank = ddr_audio_files(&stereo(500), 0, 100, "muka").unwrap().0;
    let files = ddr_to_sm5(&stepfile(&[(0, 40), (20480, 9000)]), &bank, 53).unwrap();
    let song = ssc::parse(&files.ssc).unwrap();
    assert_eq!(song.audio_sync_offset_seconds, Rational::new(-93, 1000).unwrap());
    assert_eq!(song.charts[0].notes, tap_chart(1024).notes);
    assert_eq!(files.audio.sample_rate, 48_000);
    assert_eq!(files.audio.channels, 2);
    // Back to DDR, the offset has its sign again.
    let back = sm5_song(&files.ssc, false, -53).unwrap();
    assert_eq!(back.audio_sync_offset_seconds, Rational::new(40, 1000).unwrap());
}

#[test]
fn smallest_offset_cannot_be_negated() {
    let mut song = song_with(Vec::new());
    song.audio_sync_offset_seconds = Rational::from_integer(i64::MIN);
    let err = sm5_chart(song).unwrap_err();
    assert_eq!(err.message(), "SSC error: I/O error while writing SSC: sync offset: arithmetic overflow");
}

#[test]
fn simfile_becomes_a_stepfile_with_canonical_events() {
    let text = "#OFFSET:-0.040;\n#BPMS:0.000=120.000;\n#NOTEDATA:;\n#STEPSTYPE:dance-single;\n\
                #DIFFICULTY:Easy;\n#NOTES:\n1000\n0000\n0000\n0000\n;\n";
    let song = sm5_song(text, false, 0).unwrap();
    let bytes = sm5_to_ddr_chart(&song).unwrap();
    let parsed = ssq::parse(&bytes).unwrap();
    assert_eq!(parsed.song.charts.len(), 1);
    assert_eq!(parsed.events.len(), 6);
    assert_eq!(parsed.events[5], SsqEvent { tick: 8192, code: 2, arg: 4 });
    assert_eq!(parsed.events[4], SsqEvent { tick: 4096, code: 2, arg: 3 });
    // Eight beats at 120 BPM take four seconds.
    assert_eq!(parsed.raw_tempo_pairs, vec![(0, 40), (8192, 4040)]);
}

#[test]
fn sm_and_ssc_are_told_apart_by_extension() {
    assert!(is_sm_path("a/song.sm"));
    assert!(is_sm_path("song.SM"));
    assert!(!is_sm_path("song.ssc"));
    assert!(!is_sm_path("dir.sm/song"));
    let text = "#BPMS:0.000=120.000;\n#NOTES:\ndance-single:\n:\nEasy:\n3:\n:\n1000\n0000\n0000\n0000\n;\n";
    assert_eq!(sm5_song(text, true, 0).unwrap().charts.len(), 1);
    assert!(matches!(
        sm5_song("#NOTES:dance-single:Easy;", true, 0),
        Err(Error::Sm(_))
    ));
    assert!(matches!(
        sm5_song("#BPMS:nonsense;", false, 0),
        Err(Error::Ssc(_))
    ));
}

#[test]
fn chart_that_ends_too_late_is_refused() {
    let song = song_with(vec![tap_chart(2_147_480_000)]);
    assert!(matches!(
        sm5_to_ddr_chart(&song),
        Err(Error::Job(JobError::ChartTooLong))
    ));
}

#[test]
fn legacy_stepfile_is_modernized_and_rewritten() {
    // At 150 ticks per second, with an origin one measure in.
    let mut bytes = stepfile(&[(4096, 6), (24576, 1506)]);
    bytes[6] = 150;
    bytes[7] = 0;
    let result = legacy_chart(&bytes, 53).unwrap();
    assert_eq!(result.song.tps, 1000);
    assert_eq!(result.raw_tempo_pairs, vec![(0, 93), (20480, 10040)]);
    let modern = ssq::parse(&legacy_to_ddr_chart(&result).unwrap()).unwrap();
    assert_eq!(modern.song.tps, 1000);
    assert_eq!(modern.events.len(), 6);
    assert_eq!(modern.raw_tempo_pairs[0], (0, 93));
    assert_eq!(modern.events[5].tick, 20480);
    assert!(matches!(legacy_chart(&[1, 2, 3], 0), Err(Error::Ssq(_))));
}

#[test]
fn legacy_song_takes_title_and_artist_from_its_info_file() {
    let wavm = vec![0u8; 72];
    let sif = b"\0abs2\0Title\0Sub\0Artist\0";
    let files = legacy_to_sm5(&stepfile(&[(0, 0), (20480, 9000)]), &wavm, Some(&sif[..]), 0).unwrap();
    let song = ssc::parse(&files.ssc).unwrap();
    assert_eq!(song.title.as_deref(), Some("Title Sub"));
    assert_eq!(song.artist.as_deref(), Some("Artist"));
    assert_eq!(files.audio.sample_rate, 44_100);
    assert_eq!(files.audio.samples.len(), 2 * 64);
    let plain = legacy_to_sm5(&stepfile(&[(0, 0), (20480, 9000)]), &wavm, None, 0).unwrap();
    assert!(ssc::parse(&plain.ssc).unwrap().title.is_none());
}

#[test]
fn info_file_fields_stand_at_fixed_places() {
    let mut song = song_with(Vec::new());
    song.artist = Some("kept".to_string());
    apply_sif(&mut song, b"\0id\0Title\0\0\0");
    assert_eq!(song.title.as_deref(), Some("Title"));
    assert_eq!(song.artist.as_deref(), Some("kept"));
    // A field that is not UTF-8 is empty; the ones behind it keep their places.
    apply_sif(&mut song, b"\0\xFF\0Other\0\xFE\0Artist");
    assert_eq!(song.title.as_deref(), Some("Other"));
    assert_eq!(song.artist.as_deref(), Some("Artist"));
}

#[test]
fn dropped_chunks_are_reported() {
    // A chunk of type 9 with no body in front of the terminator.
    let mut bytes = stepfile(&[(0, 0), (20480, 9000)]);
    let end = bytes.len() - 4;
    let aux = [12, 0, 0, 0, 9, 0, 0, 0, 0, 0, 0, 0];
    for (i, b) in aux.iter().enumerate() {
        bytes.insert(end + i, *b);
    }
    let files = legacy_to_sm5(&bytes, &vec![0u8; 72], None, 0).unwrap();
    assert_eq!(files.aux_chunks_dropped.len(), 1);
    assert_eq!(files.aux_chunks_dropped[0].ty, 9);
    assert_eq!(files.aux_chunks_dropped[0].size, 12);
    assert_eq!(files.aux_chunks_dropped[0].offset, end);
}

#[test]
fn song_audio_reads_back_and_passes_through() {
    let audio = stereo(1000);
    let (bank, sound_bank) = ddr_audio_files(&audio, 10, 300, "muka").unwrap();
    let parsed = xwb::parse(&bank).unwrap();
    assert_eq!(parsed.name_str(), "muka");
    assert_eq!(parsed.entries[0].name_str(), "muka_s");
    assert_eq!(parsed.entries[1].name_str(), "muka");
    assert_eq!(parsed.entries[0].data.len(), 3 * 140);
    assert_eq!(parsed.entries[1].data.len(), 8 * 140);
    assert_eq!(parsed.entries[1].format.sample_rate(), 48_000);
    let main = xwb::parse_audio(&bank).unwrap();
    assert_eq!(main.sample_rate, 48_000);
    assert_eq!(main.channels, 2);
    assert_eq!(main.samples.len(), 8 * 128 * 2);
    assert_eq!(sound_bank.len(), 318 + 2 * 4);
    assert!(can_pass_through(&bank, true));
    assert!(!can_pass_through(&bank, false));
    assert!(!can_pass_through(&vec![0u8; 72], true));
    assert!(!can_pass_through(&bank[..100], true));
    assert_eq!(decode_legacy_audio(&bank).unwrap().samples, main.samples);
}

#[test]
fn song_audio_refuses_bad_codes_and_layouts() {
    assert!(matches!(
        ddr_audio_files(&stereo(10), 0, 10, "no spaces"),
        Err(Error::Xsb(_))
    ));
    let mut mono = stereo(10);
    mono.channels = 1;
    assert!(matches!(
        ddr_audio_files(&mono, 0, 10, "muka"),
        Err(Error::Job(JobError::WrongChannelCount { channels: 1 }))
    ));
    assert!(matches!(decode_legacy_audio(&[]), Err(Error::Wavm(_))));
    assert!(matches!(decode_legacy_audio(b"WBND"), Err(Error::Xwb(_))));
}

#[test]
fn preview_is_cut_to_the_audio() {
    let audio = stereo(100);
    assert_eq!(slice_preview(&audio, 10, 5), audio.samples[20..30].to_vec());
    assert_eq!(slice_preview(&audio, 90, 50), audio.samples[180..].to_vec());
    assert!(slice_preview(&audio, 200, 50).is_empty());
    assert_eq!(slice_preview(&audio, 0, usize::MAX), audio.samples);
    let mut none = stereo(4);
    none.channels = 0;
    assert!(slice_preview(&none, 0, 4).is_empty());
}

#[test]
fn names_are_padded_with_zeros() {
    let field = fixed_name("asti");
    assert_eq!(&field[..4], b"asti");
    assert!(field[4..].iter().all(|&b| b == 0));
    let long = "x".repeat(80);
    assert_eq!(fixed_name(&long), [b'x'; 64]);
}

#[test]
fn code_and_output_files_share_the_basename() {
    let job = Job {
        from: Format::DdrLegacy,
        to: Format::Ddr,
        chart_in: "in/abs2_all.ssq".to_string(),
        audio_in: "in/abs2.wavm".to_string(),
        overwrite: false,
        output_dir: "out".to_string(),
        sync_offset_ms: 0,
        song_code: None,
    };
    assert_eq!(resolve_song_code(&job), "abs2");
    assert_eq!(output_path(&job, "ssq"), "out/abs2.ssq");
    assert_eq!(output_path(&job, "xwb"), "out/abs2.xwb");
}

fn listing(files: &[&str]) -> Vec<FileEntry> {
    files
        .iter()
        .map(|name| FileEntry {
            name: name.to_string(),
            is_file: true,
        })
        .collect()
}

#[test]
fn ssc_is_preferred_and_pairs_are_sorted() {
    let result = find_pairs(
        &listing(&["b.sm", "b.ogg", "a.sm", "a.ssc", "a.ogg", "B.ssc", "B.ogg"]),
        Format::Sm5,
    );
    let pairs: Vec<(&str, &str)> = result
        .pairs
        .iter()
        .map(|(chart, audio)| (chart.as_str(), audio.as_str()))
        .collect();
    assert_eq!(pairs, vec![("B.ssc", "B.ogg"), ("a.ssc", "a.ogg"), ("b.sm", "b.ogg")]);
    let mut dir = listing(&["c.ssq", "c.xwb"]);
    dir[0].is_file = false;
    let result = find_pairs(&dir, Format::Ddr);
    assert!(result.pairs.is_empty());
    assert_eq!(result.unpaired_audio, vec!["c.xwb".to_string()]);
}

#[test]
fn batch_counts_every_file_that_was_left_out() {
    let pairing = find_pairs(
        &listing(&["a.ssq", "a.xwb", "a.wavm", "b.ssq", "c.wavm", "d_all.ssq", "d.wavm"]),
        Format::DdrLegacy,
    );
    let summary = run_batch(&vec![true, false, true], Some(&pairing));
    assert_eq!(summary.attempted, 3);
    assert_eq!(summary.succeeded, 2);
    assert_eq!(summary.failed, 1);
    // b.ssq, c.wavm, and the two candidates for a.ssq.
    assert_eq!(summary.skipped, 4);
    assert_eq!(summary.exit_code(), 1);
    assert_eq!(
        summary.message(),
        "batch complete: 3 attempted, 2 succeeded, 1 failed, 4 skipped"
    );
    assert_eq!(run_batch(&Vec::new(), None).exit_code(), 0);
}

#[test]
fn quiet_runs_keep_warnings() {
    assert_eq!(run_level(2, true), LevelFilter::Warn);
    assert_eq!(run_level(2, false), LevelFilter::Trace);
    assert_eq!(run_level(0, false), LevelFilter::Info);
}
