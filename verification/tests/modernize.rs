use ddr_chart_tools::model::{AudioBuffer, PreviewSlice, Rational, Beat, Bpm, TempoSegment, Song};
use ddr_chart_tools::ssq::SsqParseResult;
use ddr_chart_tools::ssq_legacy::modernize::modernize;

fn legacy_result() -> SsqParseResult {
    SsqParseResult {
        song: Song {
            title: None,
            artist: None,
            tps: 150,
            tempo_segments: vec![TempoSegment {
                start_beat: Beat::zero(),
                bpm: Bpm::from_rational(Rational::from_integer(120)),
            }],
            stops: Vec::new(),
            charts: Vec::new(),
            audio: AudioBuffer {
                samples: Vec::new(),
                sample_rate: 0,
                channels: 0,
            },
            audio_sync_offset_seconds: Rational::zero(),
            preview: PreviewSlice::default_window(),
        },
        events: Vec::new(),
        raw_tempo_pairs: vec![(0, 0), (4096, 300)],
        aux_chunks_dropped: Vec::new(),
    }
}

#[test]
fn sets_tps_to_1000() {
    let mut r = legacy_result();
    assert_eq!(r.song.tps, 150);
    modernize(&mut r);
    assert_eq!(r.song.tps, 1000);
}

#[test]
fn rescales_raw_tempo_pairs_to_modern_tps() {
    // Source TPS=150, pairs (0,0), (4096, 300).
    // 1000/150 = 20/3. 0*20/3=0. 300*20/3=2000 exactly.
    let mut r = legacy_result();
    modernize(&mut r);
    assert_eq!(r.raw_tempo_pairs, vec![(0, 0), (4096, 2000)]);
}

#[test]
fn shifts_negative_origin_to_zero() {
    let mut r = legacy_result();
    // Override with a negative-origin tempo chunk.
    r.raw_tempo_pairs = vec![(-4096, -3), (4096, 251)];
    r.song.tps = 75;
    r.song.tempo_segments = vec![TempoSegment {
        start_beat: Beat::from_measure_ticks(-4096).unwrap(),
        bpm: Bpm::from_rational(Rational::from_integer(120)),
    }];
    modernize(&mut r);
    // First pair shifted to (0, ?). -3 seconds-ticks at TPS=75
    // rescales to -3 * 40/3 = -40 seconds-ticks at TPS=1000.
    assert_eq!(r.raw_tempo_pairs[0], (0, -40));
    // Second pair: tick 4096-(-4096) = 8192. tds 251 * 40/3 = 3346.67 → 3347 rounded.
    assert_eq!(r.raw_tempo_pairs[1].0, 8192);
    // Semantic tempo segment start_beat shifted from -4 to 0.
    assert_eq!(r.song.tempo_segments[0].start_beat, Beat::zero());
    // audio_sync_offset_seconds = -40/1000 = -0.040.
    assert_eq!(r.song.audio_sync_offset_seconds, Rational::new(-40, 1000).unwrap());
}
