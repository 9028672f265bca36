use ddr_chart_tools::model::{
    Rational, Beat, Style, Difficulty, PanelSet, ShockSide, Note, NoteKind, Chart,
};
use ddr_chart_tools::ssc::SscError;
use ddr_chart_tools::ssc::notes::{
    parse_difficulty, parse_notes_body, parse_stepstype, write_notedata, write_notes_body,
};

// ---------- stepstype / difficulty ----------

#[test]
fn stepstype_single() {
    assert_eq!(parse_stepstype("dance-single").unwrap(), Style::Single);
}

#[test]
fn stepstype_double() {
    assert_eq!(parse_stepstype("dance-double").unwrap(), Style::Double);
}

#[test]
fn stepstype_unsupported_is_rejected() {
    let err = parse_stepstype("pump-single").unwrap_err();
    assert!(matches!(err, SscError::UnsupportedStepsType(_)));
}

#[test]
fn all_five_difficulties() {
    assert_eq!(parse_difficulty("Beginner").unwrap(), Difficulty::Beginner);
    assert_eq!(parse_difficulty("Easy").unwrap(), Difficulty::Basic);
    assert_eq!(parse_difficulty("Medium").unwrap(), Difficulty::Difficult);
    assert_eq!(parse_difficulty("Hard").unwrap(), Difficulty::Expert);
    assert_eq!(
        parse_difficulty("Challenge").unwrap(),
        Difficulty::Challenge
    );
}

#[test]
fn edit_difficulty_rejected_distinctly() {
    let err = parse_difficulty("Edit").unwrap_err();
    assert!(matches!(err, SscError::EditChartSkipped));
}

#[test]
fn unknown_difficulty_rejected() {
    let err = parse_difficulty("Standard").unwrap_err();
    assert!(matches!(err, SscError::UnknownDifficulty(_)));
}

// ---------- parse_notes_body ----------

#[test]
fn empty_notes_body() {
    let notes = parse_notes_body("", Style::Single).unwrap();
    assert!(notes.is_empty());
}

#[test]
fn one_measure_four_taps_on_left() {
    let body = "\
1000
1000
1000
1000
";
    let notes = parse_notes_body(body, Style::Single).unwrap();
    assert_eq!(notes.len(), 4);
    for (i, n) in notes.iter().enumerate() {
        assert_eq!(n.panels.bits(), 0x01);
        assert_eq!(n.kind, NoteKind::Tap);
        assert_eq!(n.beat.as_rational(), Rational::from_integer(i as i64));
    }
}

#[test]
fn hold_head_and_tail_form_holdhead_note() {
    let body = "\
2000
0000
0000
3000
";
    let notes = parse_notes_body(body, Style::Single).unwrap();
    assert_eq!(notes.len(), 1);
    assert_eq!(notes[0].beat, Beat::from_rational(Rational::zero()));
    assert_eq!(notes[0].panels.bits(), 0x01);
    match notes[0].kind {
        NoteKind::HoldHead { length } => {
            assert_eq!(length.as_rational(), Rational::from_integer(3));
        }
        _ => panic!("expected HoldHead, got {:?}", notes[0].kind),
    }
}

#[test]
fn multi_panel_row_produces_one_multi_bit_note() {
    let body = "\
1010
0000
0000
0000
";
    let notes = parse_notes_body(body, Style::Single).unwrap();
    assert_eq!(notes.len(), 1);
    assert_eq!(notes[0].panels.bits(), 0x05);
}

#[test]
fn double_mode_uses_8_chars_per_row() {
    let body = "\
00000001
";
    let notes = parse_notes_body(body, Style::Double).unwrap();
    assert_eq!(notes.len(), 1);
    assert_eq!(notes[0].panels.bits(), 0x80);
}

#[test]
fn roll_treated_as_hold() {
    let body = "4000\n0000\n0000\n3000\n";
    let notes = parse_notes_body(body, Style::Single).unwrap();
    assert_eq!(notes.len(), 1);
    assert!(matches!(notes[0].kind, NoteKind::HoldHead { .. }));
}

#[test]
fn single_mine_on_single_produces_mine_note() {
    let body = "M000\n0000\n0000\n0000\n";
    let notes = parse_notes_body(body, Style::Single).unwrap();
    assert_eq!(notes.len(), 1);
    assert_eq!(notes[0].kind, NoteKind::Mine);
    assert_eq!(notes[0].panels.bits(), 0x01);
}

#[test]
fn wrong_row_width_is_rejected() {
    let body = "100\n100\n100\n100\n";
    let err = parse_notes_body(body, Style::Single).unwrap_err();
    assert!(matches!(err, SscError::BadNoteRow { .. }));
}

#[test]
fn unclosed_hold_is_rejected() {
    let body = "2000\n0000\n0000\n0000\n";
    let err = parse_notes_body(body, Style::Single).unwrap_err();
    assert!(matches!(err, SscError::UnclosedHold { .. }));
}

#[test]
fn tail_without_head_is_rejected() {
    let body = "0000\n3000\n0000\n0000\n";
    let err = parse_notes_body(body, Style::Single).unwrap_err();
    assert!(matches!(err, SscError::BadNoteRow { .. }));
}

#[test]
fn fake_and_lift_are_dropped_silently() {
    let body = "F000\n0L00\n0000\n0000\n";
    let notes = parse_notes_body(body, Style::Single).unwrap();
    assert!(notes.is_empty());
}

#[test]
fn two_measure_body_with_comma_separator() {
    let body = "\
1000
0000
0000
0000
,
0000
0000
0000
0001
";
    let notes = parse_notes_body(body, Style::Single).unwrap();
    assert_eq!(notes.len(), 2);
    assert_eq!(notes[0].beat.as_rational(), Rational::zero());
    assert_eq!(notes[1].beat.as_rational(), Rational::from_integer(7));
    assert_eq!(notes[1].panels.bits(), 0x08);
}

// ---------- shock (full-row mine) parsing ----------

#[test]
fn full_row_mines_on_single_become_bothsides_shock() {
    let body = "MMMM\n0000\n0000\n0000\n";
    let notes = parse_notes_body(body, Style::Single).unwrap();
    assert_eq!(notes.len(), 1);
    assert_eq!(
        notes[0].kind,
        NoteKind::Shock {
            side: ShockSide::BothSides
        }
    );
}

#[test]
fn all_eight_mines_on_double_is_bothsides_shock() {
    let body = "MMMMMMMM\n00000000\n00000000\n00000000\n";
    let notes = parse_notes_body(body, Style::Double).unwrap();
    assert_eq!(notes.len(), 1);
    assert_eq!(
        notes[0].kind,
        NoteKind::Shock {
            side: ShockSide::BothSides
        }
    );
}

#[test]
fn p1_only_mines_on_double_is_p1_shock() {
    let body = "MMMM0000\n00000000\n00000000\n00000000\n";
    let notes = parse_notes_body(body, Style::Double).unwrap();
    assert_eq!(
        notes[0].kind,
        NoteKind::Shock {
            side: ShockSide::P1Only
        }
    );
}

#[test]
fn p2_only_mines_on_double_is_p2_shock() {
    let body = "0000MMMM\n00000000\n00000000\n00000000\n";
    let notes = parse_notes_body(body, Style::Double).unwrap();
    assert_eq!(
        notes[0].kind,
        NoteKind::Shock {
            side: ShockSide::P2Only
        }
    );
}

#[test]
fn mixed_mine_and_tap_produces_two_notes_at_same_beat() {
    // `M100` on Single: mine on Left (bit 0), tap on Down (bit 1).
    // Both notes at the same beat, different panels.
    let body = "M100\n0000\n0000\n0000\n";
    let notes = parse_notes_body(body, Style::Single).unwrap();
    assert_eq!(notes.len(), 2);
    // Parser emits the mine first, then the tap (decode_row order).
    assert_eq!(notes[0].kind, NoteKind::Mine);
    assert_eq!(notes[0].panels.bits(), 0x01);
    assert_eq!(notes[1].kind, NoteKind::Tap);
    assert_eq!(notes[1].panels.bits(), 0x02);
    // Both at beat 0.
    assert_eq!(notes[0].beat, notes[1].beat);
}

#[test]
fn partial_mines_on_double_produces_mine_note() {
    // 3 mines on P1 isn't any recognized shock side; becomes a
    // per-panel mine with mask 0x07.
    let body = "MMM00000\n00000000\n00000000\n00000000\n";
    let notes = parse_notes_body(body, Style::Double).unwrap();
    assert_eq!(notes.len(), 1);
    assert_eq!(notes[0].kind, NoteKind::Mine);
    assert_eq!(notes[0].panels.bits(), 0x07);
}

#[test]
fn single_down_mine_on_single_produces_0x02_mask() {
    // `0M00` on Single: mine on Down (bit 1).
    let body = "0M00\n0000\n0000\n0000\n";
    let notes = parse_notes_body(body, Style::Single).unwrap();
    assert_eq!(notes.len(), 1);
    assert_eq!(notes[0].kind, NoteKind::Mine);
    assert_eq!(notes[0].panels.bits(), 0x02);
}

#[test]
fn mine_mixed_with_taps_on_both_sides_produces_two_notes() {
    // `M10M` on Single: Left mine (bit 0), Down tap (bit 1),
    // Up stays 0, Right mine (bit 3).
    // Expect: Mine with 0x09 (bits 0+3) + Tap with 0x02.
    let body = "M10M\n0000\n0000\n0000\n";
    let notes = parse_notes_body(body, Style::Single).unwrap();
    assert_eq!(notes.len(), 2);
    assert_eq!(notes[0].kind, NoteKind::Mine);
    assert_eq!(notes[0].panels.bits(), 0x09);
    assert_eq!(notes[1].kind, NoteKind::Tap);
    assert_eq!(notes[1].panels.bits(), 0x02);
}

#[test]
fn partial_mines_on_single_below_full_row_produces_mine_note() {
    // `MM00` on Single: two mines on Left + Down.
    // Mask 0x03; not a full-row shock; becomes a Mine note.
    let body = "MM00\n0000\n0000\n0000\n";
    let notes = parse_notes_body(body, Style::Single).unwrap();
    assert_eq!(notes.len(), 1);
    assert_eq!(notes[0].kind, NoteKind::Mine);
    assert_eq!(notes[0].panels.bits(), 0x03);
}

#[test]
fn single_p1_left_mine_on_double_produces_0x01_mask() {
    // `M0000000` on Double: mine on P1 Left only.
    let body = "M0000000\n00000000\n00000000\n00000000\n";
    let notes = parse_notes_body(body, Style::Double).unwrap();
    assert_eq!(notes.len(), 1);
    assert_eq!(notes[0].kind, NoteKind::Mine);
    assert_eq!(notes[0].panels.bits(), 0x01);
}

// ---------- writer (write_notes_body / write_notedata) ----------

fn write_body_string(chart: &Chart) -> String {
    let mut buf = String::new();
    write_notes_body(chart, &mut buf).unwrap();
    buf
}

#[test]
fn writes_empty_chart_as_single_empty_measure() {
    let chart = Chart {
        style: Style::Single,
        difficulty: Difficulty::Basic,
        notes: Vec::new(),
    };
    let body = write_body_string(&chart);
    assert_eq!(body, "0000\n0000\n0000\n0000\n");
}

#[test]
fn writes_single_tap_at_beat_zero() {
    let chart = Chart {
        style: Style::Single,
        difficulty: Difficulty::Basic,
        notes: vec![Note {
            beat: Beat::from_rational(Rational::zero()),
            kind: NoteKind::Tap,
            panels: PanelSet::from_bits(Style::Single, 0x01),
        }],
    };
    let body = write_body_string(&chart);
    assert_eq!(body, "1000\n0000\n0000\n0000\n");
}

#[test]
fn writes_multi_panel_tap_row() {
    let chart = Chart {
        style: Style::Single,
        difficulty: Difficulty::Basic,
        notes: vec![Note {
            beat: Beat::from_rational(Rational::zero()),
            kind: NoteKind::Tap,
            panels: PanelSet::from_bits(Style::Single, 0x05),
        }],
    };
    let body = write_body_string(&chart);
    assert_eq!(body, "1010\n0000\n0000\n0000\n");
}

#[test]
fn writes_hold_head_with_tail_in_same_measure() {
    let chart = Chart {
        style: Style::Single,
        difficulty: Difficulty::Basic,
        notes: vec![Note {
            beat: Beat::from_rational(Rational::zero()),
            kind: NoteKind::HoldHead {
                length: Beat::from_rational(Rational::from_integer(3)),
            },
            panels: PanelSet::from_bits(Style::Single, 0x01),
        }],
    };
    let body = write_body_string(&chart);
    assert_eq!(body, "2000\n0000\n0000\n3000\n");
}

#[test]
fn writes_hold_spanning_two_measures() {
    // Head at beat 2, length 4 → tail at beat 6 (row 2 of measure 1).
    let chart = Chart {
        style: Style::Single,
        difficulty: Difficulty::Basic,
        notes: vec![Note {
            beat: Beat::from_rational(Rational::from_integer(2)),
            kind: NoteKind::HoldHead {
                length: Beat::from_rational(Rational::from_integer(4)),
            },
            panels: PanelSet::from_bits(Style::Single, 0x01),
        }],
    };
    let body = write_body_string(&chart);
    assert_eq!(body, "0000\n0000\n2000\n0000\n,\n0000\n0000\n3000\n0000\n");
}

#[test]
fn writes_shock_bothsides_as_full_mine_row_single() {
    let chart = Chart {
        style: Style::Single,
        difficulty: Difficulty::Basic,
        notes: vec![Note {
            beat: Beat::from_rational(Rational::zero()),
            kind: NoteKind::Shock {
                side: ShockSide::BothSides,
            },
            panels: PanelSet::empty(),
        }],
    };
    let body = write_body_string(&chart);
    assert_eq!(body, "MMMM\n0000\n0000\n0000\n");
}

#[test]
fn writes_shock_p1_only_as_half_mine_row_double() {
    let chart = Chart {
        style: Style::Double,
        difficulty: Difficulty::Expert,
        notes: vec![Note {
            beat: Beat::from_rational(Rational::zero()),
            kind: NoteKind::Shock {
                side: ShockSide::P1Only,
            },
            panels: PanelSet::empty(),
        }],
    };
    let body = write_body_string(&chart);
    assert_eq!(body, "MMMM0000\n00000000\n00000000\n00000000\n");
}

#[test]
fn writes_single_mine_at_beat_zero() {
    let chart = Chart {
        style: Style::Single,
        difficulty: Difficulty::Basic,
        notes: vec![Note {
            beat: Beat::from_rational(Rational::zero()),
            kind: NoteKind::Mine,
            panels: PanelSet::from_bits(Style::Single, 0x01),
        }],
    };
    let body = write_body_string(&chart);
    assert_eq!(body, "M000\n0000\n0000\n0000\n");
}

#[test]
fn writes_multi_panel_mine_on_same_row() {
    // A single Mine note with panels 0x0A (Down + Right) must
    // produce `0M0M` — one 'M' per active panel bit.
    let chart = Chart {
        style: Style::Single,
        difficulty: Difficulty::Basic,
        notes: vec![Note {
            beat: Beat::from_rational(Rational::zero()),
            kind: NoteKind::Mine,
            panels: PanelSet::from_bits(Style::Single, 0x0A),
        }],
    };
    let body = write_body_string(&chart);
    assert_eq!(body, "0M0M\n0000\n0000\n0000\n");
}

#[test]
fn writes_mine_and_tap_on_same_row_different_panels() {
    // Mine on Left + Up (0x05) + Tap on Down + Right (0x0A),
    // both at beat 0. Expect row `M1M1`.
    let chart = Chart {
        style: Style::Single,
        difficulty: Difficulty::Basic,
        notes: vec![
            Note {
                beat: Beat::from_rational(Rational::zero()),
                kind: NoteKind::Mine,
                panels: PanelSet::from_bits(Style::Single, 0x05),
            },
            Note {
                beat: Beat::from_rational(Rational::zero()),
                kind: NoteKind::Tap,
                panels: PanelSet::from_bits(Style::Single, 0x0A),
            },
        ],
    };
    let body = write_body_string(&chart);
    assert_eq!(body, "M1M1\n0000\n0000\n0000\n");
}

#[test]
fn quantize_unchanged_by_mine_row() {
    // Adding a Mine note to a row that already has a Tap must
    // not change the picked quantize. Both charts have a note
    // at beat 1.0 → expected quantize is 4 (rows=4 per measure).
    let chart_tap_only = Chart {
        style: Style::Single,
        difficulty: Difficulty::Basic,
        notes: vec![Note {
            beat: Beat::from_rational(Rational::from_integer(1)),
            kind: NoteKind::Tap,
            panels: PanelSet::from_bits(Style::Single, 0x01),
        }],
    };
    let chart_tap_and_mine = Chart {
        style: Style::Single,
        difficulty: Difficulty::Basic,
        notes: vec![
            Note {
                beat: Beat::from_rational(Rational::from_integer(1)),
                kind: NoteKind::Tap,
                panels: PanelSet::from_bits(Style::Single, 0x01),
            },
            Note {
                beat: Beat::from_rational(Rational::from_integer(1)),
                kind: NoteKind::Mine,
                panels: PanelSet::from_bits(Style::Single, 0x02),
            },
        ],
    };
    let body_tap = write_body_string(&chart_tap_only);
    let body_tap_mine = write_body_string(&chart_tap_and_mine);

    // Row count must match — both produce a 4-row measure.
    let rows_tap = body_tap.lines().count();
    let rows_tap_mine = body_tap_mine.lines().count();
    assert_eq!(
        rows_tap, rows_tap_mine,
        "mine note must not change the picked quantize"
    );
    assert_eq!(rows_tap, 4, "sanity: a beat-1.0 note fits a 4-row measure");
    // The tap+mine body must have the mine on row 1 (beat 1.0)
    // at panel 1 (Down) alongside the tap at panel 0 (Left):
    // row = `1M00`.
    let second_row = body_tap_mine.lines().nth(1).unwrap();
    assert_eq!(second_row, "1M00");
}

#[test]
fn picks_8_row_quantize_for_half_beat_note() {
    // Note at beat 0.5 needs rows divisible by 8.
    let chart = Chart {
        style: Style::Single,
        difficulty: Difficulty::Basic,
        notes: vec![Note {
            beat: Beat::from_rational(Rational::new(1, 2).unwrap()),
            kind: NoteKind::Tap,
            panels: PanelSet::from_bits(Style::Single, 0x01),
        }],
    };
    let body = write_body_string(&chart);
    let lines: Vec<&str> = body.lines().collect();
    assert_eq!(lines.len(), 8); // 8 rows for the one measure
    assert_eq!(lines[0], "0000");
    assert_eq!(lines[1], "1000");
}

#[test]
fn picks_12_row_quantize_for_third_beat_note() {
    // Note at beat 1/3 needs rows divisible by 12.
    let chart = Chart {
        style: Style::Single,
        difficulty: Difficulty::Basic,
        notes: vec![Note {
            beat: Beat::from_rational(Rational::new(1, 3).unwrap()),
            kind: NoteKind::Tap,
            panels: PanelSet::from_bits(Style::Single, 0x01),
        }],
    };
    let body = write_body_string(&chart);
    let lines: Vec<&str> = body.lines().collect();
    assert_eq!(lines.len(), 12);
    assert_eq!(lines[1], "1000");
}

// ---------- parse → write → parse round-trip ----------

#[test]
fn roundtrip_taps_and_holds_single() {
    let original = "\
1000
0000
0020
0000
,
0000
0030
0000
1000
";
    let notes = parse_notes_body(original, Style::Single).unwrap();
    let chart = Chart {
        style: Style::Single,
        difficulty: Difficulty::Basic,
        notes,
    };
    let written = write_body_string(&chart);
    let re_parsed = parse_notes_body(&written, Style::Single).unwrap();
    assert_eq!(re_parsed.len(), chart.notes.len());
    for (a, b) in re_parsed.iter().zip(chart.notes.iter()) {
        assert_eq!(a.beat, b.beat);
        assert_eq!(a.kind, b.kind);
        assert_eq!(a.panels.bits(), b.panels.bits());
    }
}

#[test]
fn roundtrip_shock_bothsides_double() {
    let original = "\
MMMMMMMM
00000000
00000000
00000000
";
    let notes = parse_notes_body(original, Style::Double).unwrap();
    let chart = Chart {
        style: Style::Double,
        difficulty: Difficulty::Challenge,
        notes,
    };
    let written = write_body_string(&chart);
    let re_parsed = parse_notes_body(&written, Style::Double).unwrap();
    assert_eq!(re_parsed.len(), 1);
    assert_eq!(
        re_parsed[0].kind,
        NoteKind::Shock {
            side: ShockSide::BothSides
        }
    );
}

#[test]
fn write_notedata_emits_section_with_tags() {
    let chart = Chart {
        style: Style::Single,
        difficulty: Difficulty::Basic,
        notes: vec![Note {
            beat: Beat::from_rational(Rational::zero()),
            kind: NoteKind::Tap,
            panels: PanelSet::from_bits(Style::Single, 0x01),
        }],
    };
    let mut buf = String::new();
    write_notedata(&chart, &mut buf).unwrap();
    let s = buf;
    assert!(s.starts_with("#NOTEDATA:;\n"));
    assert!(s.contains("#STEPSTYPE:dance-single;\n"));
    assert!(s.contains("#DIFFICULTY:Easy;\n"));
    assert!(s.contains("#NOTES:\n"));
    assert!(s.contains("1000\n"));
    assert!(s.trim_end().ends_with(';'));
}

#[test]
fn shock_p1_only_on_single_style_is_rejected_by_writer() {
    // Construct an invalid combination directly and verify the writer
    // catches it rather than silently producing broken output.
    let chart = Chart {
        style: Style::Single,
        difficulty: Difficulty::Basic,
        notes: vec![Note {
            beat: Beat::from_rational(Rational::zero()),
            kind: NoteKind::Shock {
                side: ShockSide::P1Only,
            },
            panels: PanelSet::empty(),
        }],
    };
    let mut buf = String::new();
    let err = write_notes_body(&chart, &mut buf).unwrap_err();
    assert!(matches!(
        err,
        SscError::ShockSideIncompatibleWithStyle { .. }
    ));
}
