use ddr_chart_tools::model::{Beat, NoteKind, ShockSide, Style};
use ddr_chart_tools::ssc::notes::parse_notes_body;
use ddr_chart_tools::ssc::{parse, SscError};

#[test]
fn mines_on_a_whole_side_are_a_shock() {
    for row in ["MMMM0000\n", "MMMM1000\n", "MMMMF0L0\n"] {
        let notes = parse_notes_body(row, Style::Double).unwrap();
        assert_eq!(notes.len(), 1);
        assert_eq!(
            notes[0].kind,
            NoteKind::Shock {
                side: ShockSide::P1Only
            }
        );
    }
}

#[test]
fn mines_on_part_of_a_side_stay_mines() {
    let notes = parse_notes_body("MMM0MMM1\n", Style::Double).unwrap();
    assert_eq!(notes.len(), 2);
    assert_eq!(notes[0].kind, NoteKind::Mine);
    assert_eq!(notes[0].panels.bits(), 0x77);
    assert_eq!(notes[1].panels.bits(), 0x80);
}

#[test]
fn unknown_characters_are_quoted() {
    match parse_notes_body("0\t00\n", Style::Single) {
        Err(SscError::BadNoteRow {
            measure,
            row,
            reason,
        }) => {
            assert_eq!((measure, row), (0, 0));
            assert_eq!(reason, "unknown note character '\\t' at panel 1");
        }
        _ => panic!("a tab is no note"),
    }
    match parse_notes_body("0000\n010\n", Style::Single) {
        Err(SscError::BadNoteRow { reason, .. }) => {
            assert_eq!(reason, "expected 4 chars for Single, got 3: \"010\"");
        }
        _ => panic!("a row has four characters"),
    }
}

#[test]
fn titles_keep_their_characters() {
    let song = parse("#TITLE:蒼い衝動 \\: café;\n#ARTIST:Ω;\n").unwrap();
    assert_eq!(song.title.as_deref(), Some("蒼い衝動 : café"));
    assert_eq!(song.artist.as_deref(), Some("Ω"));
}

#[test]
fn holds_last_until_their_tails() {
    let notes = parse_notes_body("2200\n3000\n0301\n0000\n", Style::Single).unwrap();
    assert_eq!(notes.len(), 2);
    assert_eq!(
        notes[0].kind,
        NoteKind::HoldHead {
            length: Beat::from_measure_ticks(2048).unwrap()
        }
    );
    assert_eq!(notes[1].kind, NoteKind::Tap);
}
