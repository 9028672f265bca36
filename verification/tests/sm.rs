use ddr_chart_tools::model::{Rational, Bpm, Style, Difficulty, NoteKind, Song};
use ddr_chart_tools::sm::{parse, SmError};

#[test]
fn song_header_parsed() {
    let text = "\
#TITLE:Test Song;
#ARTIST:Test Artist;
#OFFSET:-0.050;
#BPMS:0.000=150.000;
#STOPS:;
";
    let song = parse(text).unwrap();
    assert_eq!(song.title.as_deref(), Some("Test Song"));
    assert_eq!(song.artist.as_deref(), Some("Test Artist"));
    assert_eq!(
        song.audio_sync_offset_seconds,
        Rational::new(-50, 1000).unwrap()
    );
    assert_eq!(song.tempo_segments.len(), 1);
    assert_eq!(
        song.tempo_segments[0].bpm,
        Bpm::from_rational(Rational::from_integer(150))
    );
}

#[test]
fn single_chart_parsed() {
    let text = "\
#BPMS:0.000=120.000;
#NOTES:
     dance-single:
     :
     Easy:
     3:
     0.5,0.5,0.5,0.5,0.5:
1000
0000
0000
0000
;
";
    let song = parse(text).unwrap();
    assert_eq!(song.charts.len(), 1);
    assert_eq!(song.charts[0].style, Style::Single);
    assert_eq!(song.charts[0].difficulty, Difficulty::Basic);
    assert_eq!(song.charts[0].notes.len(), 1);
    assert_eq!(song.charts[0].notes[0].kind, NoteKind::Tap);
}

#[test]
fn multiple_charts_parsed() {
    let text = "\
#BPMS:0.000=120.000;
#NOTES:
     dance-single:
     :
     Easy:
     3:
     :
1000
0000
0000
0000
;
#NOTES:
     dance-single:
     :
     Hard:
     8:
     :
1000
0100
0010
0001
;
";
    let song = parse(text).unwrap();
    assert_eq!(song.charts.len(), 2);
    assert_eq!(song.charts[0].difficulty, Difficulty::Basic);
    assert_eq!(song.charts[1].difficulty, Difficulty::Expert);
    assert_eq!(song.charts[1].notes.len(), 4);
}

#[test]
fn edit_chart_skipped() {
    let text = "\
#BPMS:0.000=120.000;
#NOTES:
     dance-single:
     :
     Edit:
     5:
     :
1000
0000
0000
0000
;
#NOTES:
     dance-single:
     :
     Hard:
     8:
     :
1000
0000
0000
0000
;
";
    let song = parse(text).unwrap();
    assert_eq!(song.charts.len(), 1);
    assert_eq!(song.charts[0].difficulty, Difficulty::Expert);
}

#[test]
fn unsupported_stepstype_skipped() {
    let text = "\
#BPMS:0.000=120.000;
#NOTES:
     pump-single:
     :
     Easy:
     3:
     :
10000
00000
00000
00000
;
#NOTES:
     dance-single:
     :
     Easy:
     3:
     :
1000
0000
0000
0000
;
";
    let song = parse(text).unwrap();
    assert_eq!(song.charts.len(), 1);
    assert_eq!(song.charts[0].style, Style::Single);
}

#[test]
fn double_chart_parsed() {
    let text = "\
#BPMS:0.000=120.000;
#NOTES:
     dance-double:
     :
     Hard:
     8:
     :
10000001
00000000
00000000
00000000
;
";
    let song = parse(text).unwrap();
    assert_eq!(song.charts.len(), 1);
    assert_eq!(song.charts[0].style, Style::Double);
    assert_eq!(song.charts[0].notes[0].panels.bits(), 0x81);
}

#[test]
fn bad_field_count_rejected() {
    // Only 4 fields instead of 6.
    let text = "#NOTES:dance-single:Easy:3:0000\n0000\n0000\n0000\n;";
    let err = parse(text).unwrap_err();
    assert!(matches!(err, SmError::BadNotesFieldCount { .. }));
}

#[test]
fn hold_note_parsed() {
    let text = "\
#BPMS:0.000=120.000;
#NOTES:
     dance-single:
     :
     Easy:
     3:
     :
2000
0000
0000
3000
;
";
    let song = parse(text).unwrap();
    assert_eq!(song.charts[0].notes.len(), 1);
    assert!(matches!(
        song.charts[0].notes[0].kind,
        NoteKind::HoldHead { .. }
    ));
}
