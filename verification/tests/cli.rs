use ddr_chart_tools::cli::job::Format;
use ddr_chart_tools::cli::{Cli, CliError};
use ddr_chart_tools::util::pair::FileEntry;

/// The arguments as the command line gives them.
fn cli(args: &[&str]) -> Cli {
    let format = |name: &str| match name {
        "DDR" => Format::Ddr,
        "DDR_LEGACY" => Format::DdrLegacy,
        _ => Format::Sm5,
    };
    let mut c = Cli {
        from_format: Format::Ddr,
        to_format: Format::Ddr,
        chartfile: None,
        audiofile: None,
        input_folder: None,
        output_dir: None,
        overwrite: false,
        verbose: 0,
        quiet: false,
        sync_offset_ms: None,
        song_code: None,
    };
    let mut rest = args.iter();
    while let Some(arg) = rest.next() {
        match *arg {
            "--overwrite" => c.overwrite = true,
            "-vv" => c.verbose = 2,
            flag => {
                let value = rest.next().unwrap();
                match flag {
                    "--from-format" => c.from_format = format(value),
                    "--to-format" => c.to_format = format(value),
                    "--chartfile" => c.chartfile = Some(value.to_string()),
                    "--audiofile" => c.audiofile = Some(value.to_string()),
                    "--input-folder" => c.input_folder = Some(value.to_string()),
                    "--output-dir" => c.output_dir = Some(value.to_string()),
                    "--song-code" => c.song_code = Some(value.to_string()),
                    "--sync-offset-ms" => c.sync_offset_ms = Some(value.parse().unwrap()),
                    other => panic!("unknown flag {other}"),
                }
            }
        }
    }
    c
}

fn listing(files: &[&str]) -> Vec<FileEntry> {
    files
        .iter()
        .map(|name| FileEntry {
            name: name.to_string(),
            is_file: true,
        })
        .collect()
}

#[test]
fn single_file_mode_parses() {
    let c = cli(&[
        "--from-format",
        "DDR",
        "--to-format",
        "SM5",
        "--chartfile",
        "song.ssq",
        "--audiofile",
        "song.xwb",
    ]);
    assert_eq!(c.from_format, Format::Ddr);
    assert_eq!(c.to_format, Format::Sm5);
    c.validate().unwrap();
}

#[test]
fn batch_mode_parses() {
    let c = cli(&[
        "--from-format",
        "DDR",
        "--to-format",
        "SM5",
        "--input-folder",
        "/tmp/songs",
    ]);
    assert!(c.chartfile.is_none());
    assert!(c.input_folder.is_some());
    c.validate().unwrap();
}

#[test]
fn rejects_legacy_output() {
    let c = cli(&[
        "--from-format",
        "DDR",
        "--to-format",
        "DDR_LEGACY",
        "--chartfile",
        "x.ssq",
        "--audiofile",
        "x.xwb",
    ]);
    assert!(matches!(c.validate(), Err(CliError::LegacyOutputForbidden)));
}

#[test]
fn rejects_same_format() {
    let c = cli(&[
        "--from-format",
        "DDR",
        "--to-format",
        "DDR",
        "--chartfile",
        "x.ssq",
        "--audiofile",
        "x.xwb",
    ]);
    assert!(matches!(
        c.validate(),
        Err(CliError::UnsupportedConversion { .. })
    ));
}

#[test]
fn rejects_chartfile_without_audiofile() {
    let c = cli(&[
        "--from-format",
        "DDR",
        "--to-format",
        "SM5",
        "--chartfile",
        "x.ssq",
    ]);
    assert!(matches!(c.validate(), Err(CliError::MissingFilePair)));
}

#[test]
fn rejects_no_input_mode() {
    let c = cli(&["--from-format", "DDR", "--to-format", "SM5"]);
    assert!(matches!(c.validate(), Err(CliError::MissingFilePair)));
}

#[test]
fn single_file_into_jobs() {
    let c = cli(&[
        "--from-format",
        "SM5",
        "--to-format",
        "DDR",
        "--chartfile",
        "song.ssc",
        "--audiofile",
        "song.ogg",
    ]);
    c.validate().unwrap();
    let jobs = c.into_jobs(&Vec::new()).unwrap();
    assert_eq!(jobs.len(), 1);
    assert_eq!(jobs[0].from, Format::Sm5);
    assert_eq!(jobs[0].to, Format::Ddr);
}

#[test]
fn verbose_flag_counts() {
    let c = cli(&[
        "--from-format",
        "DDR",
        "--to-format",
        "SM5",
        "--chartfile",
        "x.ssq",
        "--audiofile",
        "x.xwb",
        "-vv",
    ]);
    assert_eq!(c.verbose, 2);
}

#[test]
fn overwrite_flag() {
    let c = cli(&[
        "--from-format",
        "DDR",
        "--to-format",
        "SM5",
        "--chartfile",
        "x.ssq",
        "--audiofile",
        "x.xwb",
        "--overwrite",
    ]);
    assert!(c.overwrite);
}

#[test]
fn batch_into_jobs_with_real_dir() {
    let c = cli(&[
        "--from-format",
        "DDR",
        "--to-format",
        "SM5",
        "--input-folder",
        "/tmp/songs",
    ]);
    c.validate().unwrap();
    let jobs = c
        .into_jobs(&listing(&["a.ssq", "a.xwb", "b.ssq", "b.xwb"]))
        .unwrap();
    assert_eq!(jobs.len(), 2);
    assert!(jobs.iter().all(|j| j.song_code.is_none()));
}

#[test]
fn song_code_flows_into_single_file_job() {
    let c = cli(&[
        "--from-format",
        "SM5",
        "--to-format",
        "DDR",
        "--chartfile",
        "Mukade.ssc",
        "--audiofile",
        "Mukade.ogg",
        "--song-code",
        "muka",
    ]);
    c.validate().unwrap();
    let jobs = c.into_jobs(&Vec::new()).unwrap();
    assert_eq!(jobs[0].song_code.as_deref(), Some("muka"));
}

#[test]
fn song_code_rejected_for_sm5_output() {
    let c = cli(&[
        "--from-format",
        "DDR",
        "--to-format",
        "SM5",
        "--chartfile",
        "x.ssq",
        "--audiofile",
        "x.xwb",
        "--song-code",
        "muka",
    ]);
    assert!(matches!(
        c.validate(),
        Err(CliError::SongCodeRequiresDdrOutput)
    ));
}

#[test]
fn song_code_must_be_a_valid_cue_name() {
    for bad in ["", "mu ka", "muka!", "abcdefghijklmnopq"] {
        let c = cli(&[
            "--from-format",
            "SM5",
            "--to-format",
            "DDR",
            "--chartfile",
            "x.ssc",
            "--audiofile",
            "x.ogg",
            "--song-code",
            bad,
        ]);
        assert!(
            matches!(c.validate(), Err(CliError::BadSongCode { .. })),
            "expected BadSongCode for {bad:?}"
        );
    }
}

#[test]
fn song_code_requires_single_file_mode() {
    let c = cli(&[
        "--from-format",
        "SM5",
        "--to-format",
        "DDR",
        "--input-folder",
        "/tmp/songs",
        "--song-code",
        "muka",
    ]);
    assert!(matches!(
        c.validate(),
        Err(CliError::SongCodeRequiresSingleFile)
    ));
}

#[test]
fn batch_jobs_join_the_folder_and_its_output() {
    let c = cli(&[
        "--from-format",
        "DDR_LEGACY",
        "--to-format",
        "DDR",
        "--input-folder",
        "songs",
        "--sync-offset-ms",
        "-53",
    ]);
    c.validate().unwrap();
    let plan = c
        .into_plan(&listing(&["b_all.ssq", "b.wavm", "a.ssq", "a.xwb", "lone.ssq"]))
        .unwrap();
    assert_eq!(plan.jobs.len(), 2);
    assert_eq!(plan.jobs[0].chart_in, "songs/a.ssq");
    assert_eq!(plan.jobs[0].audio_in, "songs/a.xwb");
    assert_eq!(plan.jobs[1].chart_in, "songs/b_all.ssq");
    assert_eq!(plan.jobs[1].output_dir, "songs/output");
    assert_eq!(plan.jobs[1].sync_offset_ms, -53);
    let pairing = plan.pairing.unwrap();
    assert_eq!(pairing.unpaired_charts, vec!["lone.ssq".to_string()]);
}

#[test]
fn batch_without_pairs_is_an_error() {
    let c = cli(&["--from-format", "SM5", "--to-format", "DDR", "--input-folder", "songs/"]);
    let err = c.into_jobs(&listing(&["a.ssc"])).unwrap_err();
    assert!(matches!(&err, CliError::NoPairs { dir } if dir == "songs/"));
    assert_eq!(err.message(), "no eligible file pairs found in songs/");
}

#[test]
fn ambiguous_audio_is_an_error() {
    let c = cli(&["--from-format", "DDR_LEGACY", "--to-format", "SM5", "--input-folder", "in"]);
    let err = c
        .into_jobs(&listing(&["foo.ssq", "foo.xwb", "foo.wavm"]))
        .unwrap_err();
    assert_eq!(
        err.message(),
        "batch pairing error for foo: multiple audio files: [\"foo.xwb\", \"foo.wavm\"]"
    );
}

#[test]
fn formats_name_their_extensions() {
    assert_eq!(Format::Ddr.chart_extensions(), vec!["ssq"]);
    assert_eq!(Format::Sm5.chart_extensions(), vec!["ssc", "sm"]);
    assert_eq!(Format::DdrLegacy.audio_extensions(), vec!["xwb", "wavm"]);
    assert_eq!(Format::Sm5.audio_extensions(), vec!["ogg"]);
}

#[test]
fn error_texts_name_the_flag() {
    let c = cli(&["--from-format", "DDR", "--to-format", "DDR", "--chartfile", "x", "--audiofile", "y"]);
    assert_eq!(
        c.validate().unwrap_err().message(),
        "unsupported conversion: Ddr -> Ddr"
    );
}
