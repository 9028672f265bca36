use ddr_chart_tools::cli::job::Format;
use ddr_chart_tools::cli::CliError;
use ddr_chart_tools::error::Error;
use ddr_chart_tools::job::se_bank::SeBankError;
use ddr_chart_tools::job::JobError;
use ddr_chart_tools::model::rational::RationalError;
use ddr_chart_tools::model::tick::TickScaleError;
use ddr_chart_tools::ogg::OggError;
use ddr_chart_tools::sm::SmError;
use ddr_chart_tools::ssc::SscError;
use ddr_chart_tools::ssq::SsqError;
use ddr_chart_tools::util::io::IoError;
use ddr_chart_tools::wavm::WavmError;
use ddr_chart_tools::xsb::XsbError;
use ddr_chart_tools::xwb::adpcm::AdpcmError;
use ddr_chart_tools::xwb::container::XwbError;

fn eof() -> IoError {
    IoError::UnexpectedEof {
        offset: 12,
        wanted: 4,
        remaining: 1,
    }
}

#[test]
fn command_line_errors_in_words() {
    assert_eq!(
        CliError::LegacyOutputForbidden.message(),
        "--to-format DDR_LEGACY is not supported (legacy output cannot be authored)"
    );
    assert_eq!(
        CliError::UnsupportedConversion {
            from: Format::DdrLegacy,
            to: Format::Sm5
        }
        .message(),
        "unsupported conversion: DdrLegacy -> Sm5"
    );
    assert_eq!(
        CliError::MissingFilePair.message(),
        "--chartfile and --audiofile must be specified together"
    );
    assert_eq!(
        CliError::PairAmbiguity {
            basename: "abs2".to_string(),
            reason: "two".to_string()
        }
        .message(),
        "batch pairing error for abs2: two"
    );
    assert_eq!(
        CliError::NoPairs {
            dir: "in/songs".to_string()
        }
        .message(),
        "no eligible file pairs found in in/songs"
    );
    assert_eq!(
        CliError::SongCodeRequiresDdrOutput.message(),
        "--song-code only applies to --to-format DDR (it names the XACT wave bank and cues)"
    );
    assert_eq!(
        CliError::SongCodeRequiresSingleFile.message(),
        "--song-code needs --chartfile; in batch mode name each input pair after its song code"
    );
    assert_eq!(
        CliError::BadSongCode {
            code: "a \"b\"\n".to_string()
        }
        .message(),
        "--song-code must be 1-16 ASCII letters or digits, got \"a \\\"b\\\"\\n\""
    );
    assert_eq!(CliError::Io("gone".to_string()).message(), "I/O error: gone");
}

#[test]
fn stepfile_errors_in_words() {
    let cases = [
        (
            SsqError::Io(eof()),
            "I/O error while parsing SSQ: unexpected end of buffer at byte 12: wanted 4 byte(s), 1 remaining",
        ),
        (
            SsqError::MalformedChunk {
                offset: 7,
                reason: "odd".to_string(),
            },
            "malformed chunk at byte 7: odd",
        ),
        (
            SsqError::UnexpectedChunkType { ty: 6, offset: 40 },
            "unexpected chunk type 6 at byte 40 (not yet supported by this parser)",
        ),
        (
            SsqError::MissingTempoChunk,
            "SSQ file is missing the required tempo chunk (type 1)",
        ),
        (
            SsqError::DuplicateTempoChunk,
            "SSQ file contains multiple tempo chunks; exactly one is required",
        ),
        (
            SsqError::MissingEventsChunk,
            "SSQ file is missing the required events chunk (type 2)",
        ),
        (
            SsqError::DuplicateEventsChunk,
            "SSQ file contains multiple events chunks; exactly one is required",
        ),
        (
            SsqError::InvalidTps { offset: 0 },
            "tempo chunk at byte 0 has invalid TPS value 0",
        ),
        (
            SsqError::InvalidDifficultyCode {
                code: 0x1A,
                offset: 96,
            },
            "step chunk at byte 96 has invalid difficulty code 0x001A",
        ),
        (
            SsqError::FreezeWithoutHead {
                freeze_offset: 9,
                tick: -1024,
                panel: 3,
            },
            "step chunk at byte 9: freeze-end at tick -1024 has no matching head for panel 3",
        ),
        (
            SsqError::CannotWriteTps { tps: 150 },
            "SSQ writer refuses to emit TPS=150; only modern TPS=1000 is supported",
        ),
        (
            SsqError::Write("full".to_string()),
            "SSQ write failed: full",
        ),
        (
            SsqError::NonIntegerBeat {
                beat: -1,
                beat_den: 3,
            },
            "cannot serialize beat -1/3 — not an integer measure-tick at TPS=1000",
        ),
        (
            SsqError::MineChunkLengthMismatch {
                offset: 4,
                declared: 20,
                param3: 2,
                expected: 28,
            },
            "mine chunk at byte 4: declared length 20 does not match entry count 2 (expected 28)",
        ),
        (
            SsqError::InvalidMinePanels { panels: 0x0F },
            "mines::write_chunk refuses to emit shock-mask panels 0x0F (reserved for step-chunk shocks)",
        ),
    ];
    for (error, text) in cases {
        assert_eq!(error.message(), text);
        assert_eq!(Error::Ssq(error).message(), format!("SSQ error: {text}"));
    }
}

#[test]
fn simfile_errors_in_words() {
    let cases = [
        (
            SscError::UnsupportedStepsType("pump".to_string()),
            "unsupported stepstype \"pump\" (only dance-single and dance-double are handled)",
        ),
        (
            SscError::UnknownDifficulty("x\ty".to_string()),
            "unknown difficulty \"x\\ty\"",
        ),
        (SscError::EditChartSkipped, "Edit chart skipped"),
        (
            SscError::BadNoteRow {
                measure: 3,
                row: 2,
                reason: "short".to_string(),
            },
            "malformed note row at measure 3, row 2: short",
        ),
        (
            SscError::UnclosedHold {
                panel: 1,
                note_index: 17,
            },
            "hold head at panel 1 (note index 17) was never closed by a matching `3` tail",
        ),
        (
            SscError::UnsupportedRoll {
                measure: 1,
                row: 0,
                panel: 2,
            },
            "roll arrow (`4`) at measure 1, row 0, panel 2 is not supported",
        ),
        (
            SscError::InvalidValue {
                tag: "BPMS".to_string(),
                reason: "bad".to_string(),
            },
            "invalid value for tag BPMS: bad",
        ),
        (
            SscError::MissingRequiredNotedataTag {
                tag: "STEPSTYPE".to_string(),
            },
            "#NOTEDATA section is missing required tag #STEPSTYPE",
        ),
        (
            SscError::Write("full".to_string()),
            "I/O error while writing SSC: full",
        ),
        (
            SscError::UnrepresentableBeat {
                measure: 2,
                num: 25,
                den: 7,
            },
            "note at beat 25/7 is not representable at any standard SSC quantize in measure 2",
        ),
        (
            SscError::ShockSideIncompatibleWithStyle {
                side: "P2Only".to_string(),
            },
            "shock side \"P2Only\" cannot be written without a P2 half (style is Single)",
        ),
    ];
    for (error, text) in cases {
        assert_eq!(error.message(), text);
        assert_eq!(Error::Ssc(error).message(), format!("SSC error: {text}"));
    }
    assert_eq!(
        Error::Sm(SmError::BadNotesFieldCount { count: 5 }).message(),
        "SM error: SM #NOTES block has 5 fields (expected 6: stepstype:description:difficulty:meter:radar:notedata)"
    );
    assert_eq!(
        SmError::Chart(SscError::EditChartSkipped).message(),
        "chart parse error: Edit chart skipped"
    );
}

#[test]
fn audio_errors_in_words() {
    let cases = [
        (XwbError::BadMagic, "invalid magic at byte 0: expected WBND"),
        (
            XwbError::UnsupportedVersion { version: 46 },
            "unsupported version 46 (expected 43)",
        ),
        (
            XwbError::SegmentOutOfBounds {
                index: 4,
                offset: 2048,
                length: 100,
                file_len: 2100,
            },
            "segment 4 extends beyond file (offset 2048 + length 100 > file size 2100)",
        ),
        (
            XwbError::EntryDataOutOfBounds { index: 1 },
            "entry 1 data extends beyond wave-data segment",
        ),
        (XwbError::NoEntries, "bank contains no entries"),
        (
            XwbError::Adpcm(AdpcmError::BadPredictor { index: 9 }),
            "ADPCM decode error: predictor index 9 out of range (max 6)",
        ),
        (
            XwbError::Io(eof()),
            "read error: unexpected end of buffer at byte 12: wanted 4 byte(s), 1 remaining",
        ),
    ];
    for (error, text) in cases {
        assert_eq!(error.message(), text);
        assert_eq!(Error::Xwb(error).message(), format!("XWB error: {text}"));
    }
    assert_eq!(
        Error::Adpcm(AdpcmError::BlockTooShort {
            expected: 70,
            actual: 3
        })
        .message(),
        "ADPCM error: block too short: expected at least 70 bytes, got 3"
    );
    assert_eq!(
        Error::Wavm(WavmError::Empty).message(),
        "WAVM error: WAVM data is empty"
    );
    assert_eq!(
        Error::Wavm(WavmError::UnalignedData {
            len: 73,
            block_size: 72
        })
        .message(),
        "WAVM error: WAVM data length 73 is not a multiple of the stereo block size (72)"
    );
    assert_eq!(
        Error::Xsb(XsbError::BadCode {
            code: "é".to_string()
        })
        .message(),
        "XSB error: song code must be 1-16 ASCII alphanumeric characters, got \"é\""
    );
    assert_eq!(
        Error::Ogg(OggError::Decode("bad".to_string())).message(),
        "OGG error: OGG decode error: bad"
    );
    assert_eq!(
        OggError::Encode("bad".to_string()).message(),
        "OGG encode error: bad"
    );
}

#[test]
fn job_errors_in_words() {
    assert_eq!(
        Error::Job(JobError::UnsupportedSampleRate { sample_rate: 22_050 }).message(),
        "DDR audio must be one of [44100, 48000] Hz, got 22050 Hz (resample the source before converting — this tool will not do it silently)"
    );
    assert_eq!(
        Error::Job(JobError::WrongChannelCount { channels: 1 }).message(),
        "DDR audio must have 2 channels, got 1 (remix the source before converting — this tool will not do it silently)"
    );
    assert_eq!(
        Error::Job(JobError::AudioTooLong { samples: 9 }).message(),
        "audio of 9 samples is too long for a wave bank"
    );
    assert_eq!(
        Error::Job(JobError::ChartTooLong).message(),
        "the chart is too long for its closing events"
    );
    assert_eq!(
        Error::SeBank(SeBankError::NotMono { channels: 2 }).message(),
        "input must be mono, got 2 channels (downmix it yourself — this tool will not do it silently)"
    );
    assert_eq!(
        Error::SeBank(SeBankError::WrongSampleRate { sample_rate: 48_000 }).message(),
        "input must be 44100 Hz, got 48000 Hz (resample it yourself — this tool will not do it silently)"
    );
    assert_eq!(
        Error::SeBank(SeBankError::NoAudio).message(),
        "input decoded to no samples; a wave bank must contain at least one entry"
    );
    assert_eq!(
        Error::SeBank(SeBankError::TooLong { samples: 5 }).message(),
        "input of 5 samples is too long for one entry"
    );
    assert_eq!(Error::Io("gone".to_string()).message(), "I/O error: gone");
    assert_eq!(Error::NotImplemented.message(), "not yet implemented");
}

#[test]
fn number_errors_in_words() {
    assert_eq!(RationalError::ZeroDenominator.message(), "denominator cannot be zero");
    assert_eq!(RationalError::Overflow.message(), "arithmetic overflow");
    assert_eq!(
        TickScaleError::ZeroTps.message(),
        "source or destination TPS cannot be zero"
    );
}
