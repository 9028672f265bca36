//! StepMania 5 SSC simfile parser.
//!
//! Accepts MSD-syntax `.ssc` files and decodes them into the common
//! `Song` model. Song-level tags populate the song; each `#NOTEDATA`
//! section becomes one `Chart`.

pub mod chart_round_trip;
pub mod decimal;
pub mod drawing;
pub mod file_round_trip;
pub mod laws;
pub mod meaning;
pub mod msd;
pub mod note_laws;
pub mod notes;
pub mod order;
pub mod round_trip;
pub mod row_order;
pub mod rows;
pub mod scan_round_trip;
pub mod tag_laws;
pub mod text_round_trip;
pub mod warnings;
pub mod writer;

use self::decimal::{decimal_text, decimal_value, format_decimal, parse_decimal};
use self::msd::{param_of, tag_of, tokenize, tokens, values_view, MsdValue};
use self::notes::{
    body_outcome, difficulty_outcome, parse_difficulty, parse_notes_body, parse_stepstype,
    stepstype_outcome,
};
use self::writer::{notedata_written, tag_text, write_notedata, write_str_tag};
use crate::model::{
    charts_view, group_model_values, text_view, AudioBuffer, Beat, Bpm, Chart, ChartView,
    Difficulty, PreviewSlice, Rational, Song, SongView, Stop, Style, TempoSegment,
};
use crate::util::chars::{
    chars_of, reads, split, split_at, split_first, split_once, string_of, texts, trim, trimmed,
};
use crate::util::text::{
    debug_text, dec, dec_string, quoted, signed_dec, signed_dec_string, with_number,
};
use vstd::prelude::*;
use vstd::string::StringExecFns;

verus! {

#[derive(Debug, Clone)]
pub enum SscError {
    UnsupportedStepsType(String),
    UnknownDifficulty(String),
    EditChartSkipped,
    BadNoteRow { measure: usize, row: usize, reason: String },
    UnclosedHold { panel: u8, note_index: usize },
    UnsupportedRoll { measure: usize, row: usize, panel: u8 },
    InvalidValue { tag: String, reason: String },
    MissingRequiredNotedataTag { tag: String },
    Write(String),
    UnrepresentableBeat { measure: usize, num: i64, den: u64 },
    ShockSideIncompatibleWithStyle { side: String },
}

/// An `SscError` with its texts as character sequences.
#[verifier::ext_equal]
pub enum SscErrorView {
    UnsupportedStepsType(Seq<char>),
    UnknownDifficulty(Seq<char>),
    EditChartSkipped,
    BadNoteRow { measure: int, row: int, reason: Seq<char> },
    UnclosedHold { panel: int, note_index: int },
    UnsupportedRoll { measure: int, row: int, panel: int },
    InvalidValue { tag: Seq<char>, reason: Seq<char> },
    MissingRequiredNotedataTag { tag: Seq<char> },
    Write(Seq<char>),
    UnrepresentableBeat { measure: int, num: int, den: int },
    ShockSideIncompatibleWithStyle { side: Seq<char> },
}

impl View for SscError {
    type V = SscErrorView;

    open spec fn view(&self) -> SscErrorView {
        match self {
            SscError::UnsupportedStepsType(s) => SscErrorView::UnsupportedStepsType(s@),
            SscError::UnknownDifficulty(s) => SscErrorView::UnknownDifficulty(s@),
            SscError::EditChartSkipped => SscErrorView::EditChartSkipped,
            SscError::BadNoteRow { measure, row, reason } => SscErrorView::BadNoteRow {
                measure: *measure as int,
                row: *row as int,
                reason: reason@,
            },
            SscError::UnclosedHold { panel, note_index } => SscErrorView::UnclosedHold {
                panel: *panel as int,
                note_index: *note_index as int,
            },
            SscError::UnsupportedRoll { measure, row, panel } => SscErrorView::UnsupportedRoll {
                measure: *measure as int,
                row: *row as int,
                panel: *panel as int,
            },
            SscError::InvalidValue { tag, reason } => SscErrorView::InvalidValue {
                tag: tag@,
                reason: reason@,
            },
            SscError::MissingRequiredNotedataTag { tag } => {
                SscErrorView::MissingRequiredNotedataTag { tag: tag@ }
            },
            SscError::Write(s) => SscErrorView::Write(s@),
            SscError::UnrepresentableBeat { measure, num, den } => {
                SscErrorView::UnrepresentableBeat {
                    measure: *measure as int,
                    num: *num as int,
                    den: *den as int,
                }
            },
            SscError::ShockSideIncompatibleWithStyle { side } => {
                SscErrorView::ShockSideIncompatibleWithStyle { side: side@ }
            },
        }
    }
}

impl SscErrorView {
    /// The text of the error.
    pub open spec fn text(self) -> Seq<char> {
        match self {
            SscErrorView::UnsupportedStepsType(s) => "unsupported stepstype "@ + debug_text(s)
                + " (only dance-single and dance-double are handled)"@,
            SscErrorView::UnknownDifficulty(s) => "unknown difficulty "@ + debug_text(s),
            SscErrorView::EditChartSkipped => "Edit chart skipped"@,
            SscErrorView::BadNoteRow { measure, row, reason } => "malformed note row at measure "@
                + dec(measure as nat) + ", row "@ + dec(row as nat) + ": "@ + reason,
            SscErrorView::UnclosedHold { panel, note_index } => "hold head at panel "@ + dec(
                panel as nat,
            ) + " (note index "@ + dec(note_index as nat)
                + ") was never closed by a matching `3` tail"@,
            SscErrorView::UnsupportedRoll { measure, row, panel } =>
            "roll arrow (`4`) at measure "@ + dec(measure as nat) + ", row "@ + dec(row as nat)
                + ", panel "@ + dec(panel as nat) + " is not supported"@,
            SscErrorView::InvalidValue { tag, reason } => "invalid value for tag "@ + tag + ": "@
                + reason,
            SscErrorView::MissingRequiredNotedataTag { tag } =>
            "#NOTEDATA section is missing required tag #"@ + tag,
            SscErrorView::Write(s) => "I/O error while writing SSC: "@ + s,
            SscErrorView::UnrepresentableBeat { measure, num, den } => "note at beat "@
                + signed_dec(num) + "/"@ + dec(den as nat)
                + " is not representable at any standard SSC quantize in measure "@ + dec(
                measure as nat,
            ),
            SscErrorView::ShockSideIncompatibleWithStyle { side } => "shock side "@ + debug_text(
                side,
            ) + " cannot be written without a P2 half (style is Single)"@,
        }
    }
}

impl SscError {
    /// The error in words.
    pub fn message(&self) -> (text: String)
        ensures
            text@ == self@.text(),
    {
        match self {
            SscError::UnsupportedStepsType(s) => "unsupported stepstype ".to_owned().concat(
                quoted(s.as_str()).as_str(),
            ).concat(" (only dance-single and dance-double are handled)"),
            SscError::UnknownDifficulty(s) => "unknown difficulty ".to_owned().concat(
                quoted(s.as_str()).as_str(),
            ),
            SscError::EditChartSkipped => "Edit chart skipped".to_owned(),
            SscError::BadNoteRow { measure, row, reason } => with_number(
                "malformed note row at measure ",
                *measure as u128,
                ", row ",
            ).concat(dec_string(*row as u128).as_str()).concat(": ").concat(reason.as_str()),
            SscError::UnclosedHold { panel, note_index } => with_number(
                "hold head at panel ",
                *panel as u128,
                " (note index ",
            ).concat(dec_string(*note_index as u128).as_str()).concat(
                ") was never closed by a matching `3` tail",
            ),
            SscError::UnsupportedRoll { measure, row, panel } => with_number(
                "roll arrow (`4`) at measure ",
                *measure as u128,
                ", row ",
            ).concat(dec_string(*row as u128).as_str()).concat(", panel ").concat(
                dec_string(*panel as u128).as_str(),
            ).concat(" is not supported"),
            SscError::InvalidValue { tag, reason } => "invalid value for tag ".to_owned().concat(
                tag.as_str(),
            ).concat(": ").concat(reason.as_str()),
            SscError::MissingRequiredNotedataTag { tag } =>
            "#NOTEDATA section is missing required tag #".to_owned().concat(tag.as_str()),
            SscError::Write(s) => "I/O error while writing SSC: ".to_owned().concat(s.as_str()),
            SscError::UnrepresentableBeat { measure, num, den } => "note at beat ".to_owned().concat(
                signed_dec_string(*num).as_str(),
            ).concat("/").concat(dec_string(*den as u128).as_str()).concat(
                " is not representable at any standard SSC quantize in measure ",
            ).concat(dec_string(*measure as u128).as_str()),
            SscError::ShockSideIncompatibleWithStyle { side } => "shock side ".to_owned().concat(
                quoted(side.as_str()).as_str(),
            ).concat(" cannot be written without a P2 half (style is Single)"),
        }
    }
}

/// A song without any tags.
pub open spec fn bare_song() -> SongView {
    SongView {
        title: None,
        artist: None,
        tps: 1000,
        tempo_segments: Seq::empty(),
        stops: Seq::empty(),
        charts: Seq::empty(),
        audio: (Seq::empty(), 0, 0),
        audio_sync_offset_seconds: Rational::of((0, 1)),
        preview: PreviewSlice {
            start_seconds: Rational::of((30, 1)),
            length_seconds: Rational::of((10, 1)),
        },
    }
}

/// An `InvalidValue`.
pub open spec fn invalid(tag: Seq<char>, reason: Seq<char>) -> SscErrorView {
    SscErrorView::InvalidValue { tag, reason }
}

/// The value of a tag that holds a decimal number.
pub open spec fn seconds_outcome(tag: Seq<char>, s: Seq<char>) -> Result<Rational, SscErrorView> {
    match decimal_value(s) {
        Some(q) => Ok(Rational::of(q)),
        None => Err(invalid(tag, "not a decimal number: "@ + debug_text(s))),
    }
}

/// The entries `beat=value` from `i` on, added to `done`.
pub open spec fn pairs_from(
    entries: Seq<Seq<char>>,
    i: int,
    tag: Seq<char>,
    what: Seq<char>,
    done: Seq<(Rational, Rational)>,
) -> Result<Seq<(Rational, Rational)>, SscErrorView>
    decreases entries.len() - i,
{
    if i >= entries.len() {
        Ok(done)
    } else {
        let place = "entry "@ + dec(i as nat);
        match split_once(entries[i], '=') {
            None => Err(invalid(tag, place + " missing `=`: "@ + debug_text(entries[i]))),
            Some((a, b)) => match (decimal_value(a), decimal_value(b)) {
                (None, _) => Err(
                    invalid(tag, place + " "@ + "beat"@ + " is not a decimal: "@ + debug_text(a)),
                ),
                (_, None) => Err(
                    invalid(tag, place + " "@ + what + " is not a decimal: "@ + debug_text(b)),
                ),
                (Some(x), Some(y)) => pairs_from(
                    entries,
                    i + 1,
                    tag,
                    what,
                    done.push((Rational::of(x), Rational::of(y))),
                ),
            },
        }
    }
}

/// The entries of a list `beat=value,beat=value,...`.
pub open spec fn pairs_outcome(tag: Seq<char>, what: Seq<char>, s: Seq<char>) -> Result<
    Seq<(Rational, Rational)>,
    SscErrorView,
> {
    if trimmed(s).len() == 0 {
        Ok(Seq::empty())
    } else {
        pairs_from(split(s, ','), 0, tag, what, Seq::empty())
    }
}

pub open spec fn segment_of(p: (Rational, Rational)) -> TempoSegment {
    TempoSegment { start_beat: Beat::of(p.0@), bpm: Bpm::of(p.1@) }
}

pub open spec fn stop_of(p: (Rational, Rational)) -> Stop {
    Stop { at_beat: Beat::of(p.0@), duration_seconds: p.1 }
}

/// The song behind one more song-level tag.
#[verifier::opaque]
pub open spec fn song_tag_outcome(song: SongView, value: Seq<Seq<char>>) -> Result<
    SongView,
    SscErrorView,
> {
    let tag = tag_of(value);
    let v = trimmed(param_of(value, 1));
    if tag == "TITLE"@ {
        Ok(
            if v.len() > 0 {
                SongView { title: Some(v), ..song }
            } else {
                song
            },
        )
    } else if tag == "ARTIST"@ {
        Ok(
            if v.len() > 0 {
                SongView { artist: Some(v), ..song }
            } else {
                song
            },
        )
    } else if tag == "OFFSET"@ {
        match seconds_outcome(tag, v) {
            Ok(q) => Ok(SongView { audio_sync_offset_seconds: q, ..song }),
            Err(e) => Err(e),
        }
    } else if tag == "BPMS"@ {
        match pairs_outcome("BPMS"@, "bpm"@, v) {
            Ok(pairs) => Ok(
                SongView {
                    tempo_segments: Seq::new(pairs.len(), |i: int| segment_of(pairs[i])),
                    ..song
                },
            ),
            Err(e) => Err(e),
        }
    } else if tag == "STOPS"@ {
        match pairs_outcome("STOPS"@, "duration"@, v) {
            Ok(pairs) => Ok(
                SongView { stops: Seq::new(pairs.len(), |i: int| stop_of(pairs[i])), ..song },
            ),
            Err(e) => Err(e),
        }
    } else if tag == "SAMPLESTART"@ {
        match seconds_outcome(tag, v) {
            Ok(q) => Ok(
                SongView { preview: PreviewSlice { start_seconds: q, ..song.preview }, ..song },
            ),
            Err(e) => Err(e),
        }
    } else if tag == "SAMPLELENGTH"@ {
        match seconds_outcome(tag, v) {
            Ok(q) => Ok(
                SongView { preview: PreviewSlice { length_seconds: q, ..song.preview }, ..song },
            ),
            Err(e) => Err(e),
        }
    } else {
        Ok(song)
    }
}

/// What a `#NOTEDATA` section holds so far.
#[verifier::ext_equal]
pub struct DraftView {
    pub stepstype: Option<Style>,
    pub difficulty: Option<Difficulty>,
    pub notes_body: Option<Seq<char>>,
    /// Whether the section holds an Edit chart.
    pub skip: bool,
}

pub open spec fn empty_draft() -> DraftView {
    DraftView { stepstype: None, difficulty: None, notes_body: None, skip: false }
}

/// The section behind one more tag.
#[verifier::opaque]
pub open spec fn draft_tag_outcome(draft: DraftView, value: Seq<Seq<char>>) -> Result<
    DraftView,
    SscErrorView,
> {
    let tag = tag_of(value);
    let v = param_of(value, 1);
    if tag == "STEPSTYPE"@ {
        match stepstype_outcome(v) {
            Ok(style) => Ok(DraftView { stepstype: Some(style), ..draft }),
            Err(e) => Err(e),
        }
    } else if tag == "DIFFICULTY"@ {
        match difficulty_outcome(v) {
            Ok(d) => Ok(DraftView { difficulty: Some(d), ..draft }),
            Err(e) => if e == SscErrorView::EditChartSkipped {
                Ok(DraftView { skip: true, ..draft })
            } else {
                Err(e)
            },
        }
    } else if tag == "NOTES"@ || tag == "NOTES2"@ {
        Ok(DraftView { notes_body: Some(v), ..draft })
    } else {
        Ok(draft)
    }
}

/// The chart that a finished section describes; none for an Edit chart.
pub open spec fn draft_outcome(draft: DraftView) -> Result<Option<ChartView>, SscErrorView> {
    if draft.skip {
        Ok(None)
    } else {
        match (draft.stepstype, draft.difficulty, draft.notes_body) {
            (None, _, _) => Err(
                SscErrorView::MissingRequiredNotedataTag { tag: "STEPSTYPE"@ },
            ),
            (_, None, _) => Err(
                SscErrorView::MissingRequiredNotedataTag { tag: "DIFFICULTY"@ },
            ),
            (_, _, None) => Err(SscErrorView::MissingRequiredNotedataTag { tag: "NOTES"@ }),
            (Some(style), Some(difficulty), Some(body)) => match body_outcome(body, style) {
                Ok(notes) => Ok(Some(ChartView { style, difficulty, notes })),
                Err(e) => Err(e),
            },
        }
    }
}

/// The chart of a `#NOTES` value with all its fields in one tag; none where the
/// steps type is not supported or the chart is an Edit chart.
pub open spec fn inline_chart(value: Seq<Seq<char>>) -> Result<Option<ChartView>, SscErrorView> {
    match stepstype_outcome(param_of(value, 1)) {
        Err(_) => Ok(None),
        Ok(style) => match difficulty_outcome(param_of(value, 3)) {
            Err(e) => if e == SscErrorView::EditChartSkipped {
                Ok(None)
            } else {
                Err(e)
            },
            Ok(difficulty) => match body_outcome(param_of(value, 6), style) {
                Err(e) => Err(e),
                Ok(notes) => Ok(Some(ChartView { style, difficulty, notes })),
            },
        },
    }
}

/// `song` with one more chart, if there is one.
pub open spec fn with_chart(song: SongView, chart: Option<ChartView>) -> SongView {
    match chart {
        Some(c) => SongView { charts: song.charts.push(c), ..song },
        None => song,
    }
}

/// The song behind a section that has ended.
pub open spec fn section_ended(song: SongView, draft: Option<DraftView>) -> Result<
    SongView,
    SscErrorView,
> {
    match draft {
        None => Ok(song),
        Some(d) => match draft_outcome(d) {
            Err(e) => Err(e),
            Ok(chart) => Ok(with_chart(song, chart)),
        },
    }
}

/// The song and the open section behind one more value.
pub open spec fn value_outcome(
    value: Seq<Seq<char>>,
    song: SongView,
    draft: Option<DraftView>,
) -> Result<(SongView, Option<DraftView>), SscErrorView> {
    if tag_of(value) == "NOTEDATA"@ {
        match section_ended(song, draft) {
            Err(e) => Err(e),
            Ok(next) => Ok((next, Some(empty_draft()))),
        }
    } else {
        match draft {
            Some(d) => match draft_tag_outcome(d, value) {
                Err(e) => Err(e),
                Ok(next) => Ok((song, Some(next))),
            },
            None => if tag_of(value) == "NOTES"@ && value.len() == 7 {
                match inline_chart(value) {
                    Err(e) => Err(e),
                    Ok(chart) => Ok((with_chart(song, chart), None)),
                }
            } else {
                match song_tag_outcome(song, value) {
                    Err(e) => Err(e),
                    Ok(next) => Ok((next, None)),
                }
            },
        }
    }
}

/// The song that the values from `i` on complete.
pub open spec fn values_from(
    values: Seq<Seq<Seq<char>>>,
    i: int,
    song: SongView,
    draft: Option<DraftView>,
) -> Result<SongView, SscErrorView>
    decreases values.len() - i,
{
    if i >= values.len() {
        section_ended(song, draft)
    } else {
        match value_outcome(values[i], song, draft) {
            Err(e) => Err(e),
            Ok((next, open)) => values_from(values, i + 1, next, open),
        }
    }
}

/// What an SSC file parses to.
pub open spec fn ssc_outcome(text: Seq<char>) -> Result<SongView, SscErrorView> {
    values_from(tokens(text), 0, bare_song(), None)
}

pub(crate) fn empty_song() -> (song: Song)
    ensures
        song@ == bare_song(),
{
    broadcast use group_model_values;

    let song = Song {
        title: None,
        artist: None,
        tps: 1000,
        tempo_segments: Vec::new(),
        stops: Vec::new(),
        charts: Vec::new(),
        audio: AudioBuffer { samples: Vec::new(), sample_rate: 0, channels: 0 },
        audio_sync_offset_seconds: Rational::zero(),
        preview: PreviewSlice::default_window(),
    };
    assert(song@ =~= bare_song());
    song
}

/// Read the value of a tag that holds a decimal number.
fn parse_decimal_seconds(tag: &str, s: &Vec<char>) -> (r: Result<Rational, SscError>)
    ensures
        match seconds_outcome(tag@, s@) {
            Ok(q) => r is Ok && r->Ok_0 == q,
            Err(e) => r is Err && r->Err_0@ == e,
        },
{
    broadcast use group_model_values;

    match parse_decimal(s) {
        Some(q) => Ok(q),
        None => Err(
            SscError::InvalidValue {
                tag: tag.to_owned(),
                reason: "not a decimal number: ".to_owned().concat(
                    quoted(string_of(s).as_str()).as_str(),
                ),
            },
        ),
    }
}

/// The error for a part of an entry that is not a decimal number.
fn not_a_decimal(tag: &str, i: usize, what: &str, s: &Vec<char>) -> (e: SscError)
    ensures
        e@ == invalid(
            tag@,
            "entry "@ + dec(i as nat) + " "@ + what@ + " is not a decimal: "@ + debug_text(s@),
        ),
{
    SscError::InvalidValue {
        tag: tag.to_owned(),
        reason: with_number("entry ", i as u128, " ").concat(what).concat(
            " is not a decimal: ",
        ).concat(quoted(string_of(s).as_str()).as_str()),
    }
}

/// Read a list `beat=value,beat=value,...`.
fn parse_pairs(tag: &str, what: &str, s: &Vec<char>) -> (r: Result<
    Vec<(Rational, Rational)>,
    SscError,
>)
    ensures
        match pairs_outcome(tag@, what@, s@) {
            Ok(pairs) => r is Ok && r->Ok_0@ == pairs,
            Err(e) => r is Err && r->Err_0@ == e,
        },
{
    broadcast use group_model_values;

    let mut out: Vec<(Rational, Rational)> = Vec::new();
    if trim(s).len() == 0 {
        assert(out@ =~= Seq::empty());
        return Ok(out);
    }
    let entries = split_at(s, ',');
    let ghost all = texts(entries@);
    let mut i: usize = 0;
    assert(out@ =~= Seq::empty());
    while i < entries.len()
        invariant
            i <= entries@.len(),
            all == texts(entries@),
            pairs_outcome(tag@, what@, s@) == pairs_from(all, i as int, tag@, what@, out@),
        decreases entries@.len() - i,
    {
        broadcast use group_model_values;

        let entry = &entries[i];
        assert(all[i as int] == entry@);
        let (beat_s, value_s) = match split_first(entry, '=') {
            Some(parts) => parts,
            None => {
                return Err(
                    SscError::InvalidValue {
                        tag: tag.to_owned(),
                        reason: with_number("entry ", i as u128, " missing `=`: ").concat(
                            quoted(string_of(entry).as_str()).as_str(),
                        ),
                    },
                );
            },
        };
        let beat = match parse_decimal(&beat_s) {
            Some(q) => q,
            None => {
                return Err(not_a_decimal(tag, i, "beat", &beat_s));
            },
        };
        let value = match parse_decimal(&value_s) {
            Some(q) => q,
            None => {
                return Err(not_a_decimal(tag, i, what, &value_s));
            },
        };
        out.push((beat, value));
        i = i + 1;
    }
    Ok(out)
}

/// Parse `"beat=bpm,beat=bpm,..."` into `TempoSegment`s.
fn parse_bpms(s: &Vec<char>) -> (r: Result<Vec<TempoSegment>, SscError>)
    ensures
        match pairs_outcome("BPMS"@, "bpm"@, s@) {
            Ok(pairs) => r is Ok && r->Ok_0@ == Seq::new(
                pairs.len(),
                |i: int| segment_of(pairs[i]),
            ),
            Err(e) => r is Err && r->Err_0@ == e,
        },
{
    broadcast use group_model_values;

    let pairs = match parse_pairs("BPMS", "bpm", s) {
        Ok(pairs) => pairs,
        Err(e) => {
            return Err(e);
        },
    };
    let mut out: Vec<TempoSegment> = Vec::new();
    let mut i: usize = 0;
    while i < pairs.len()
        invariant
            i <= pairs@.len(),
            out@ =~= Seq::new(i as nat, |k: int| segment_of(pairs@[k])),
        decreases pairs@.len() - i,
    {
        broadcast use group_model_values;

        let (beat, bpm) = pairs[i];
        let segment = TempoSegment {
            start_beat: Beat::from_rational(beat),
            bpm: Bpm::from_rational(bpm),
        };
        assert(segment == segment_of(pairs@[i as int]));
        out.push(segment);
        i = i + 1;
    }
    Ok(out)
}

/// Parse `"beat=duration,beat=duration,..."` into `Stop`s.
fn parse_stops(s: &Vec<char>) -> (r: Result<Vec<Stop>, SscError>)
    ensures
        match pairs_outcome("STOPS"@, "duration"@, s@) {
            Ok(pairs) => r is Ok && r->Ok_0@ == Seq::new(pairs.len(), |i: int| stop_of(pairs[i])),
            Err(e) => r is Err && r->Err_0@ == e,
        },
{
    broadcast use group_model_values;

    let pairs = match parse_pairs("STOPS", "duration", s) {
        Ok(pairs) => pairs,
        Err(e) => {
            return Err(e);
        },
    };
    let mut out: Vec<Stop> = Vec::new();
    let mut i: usize = 0;
    while i < pairs.len()
        invariant
            i <= pairs@.len(),
            out@ =~= Seq::new(i as nat, |k: int| stop_of(pairs@[k])),
        decreases pairs@.len() - i,
    {
        broadcast use group_model_values;

        let (beat, duration_seconds) = pairs[i];
        let stop = Stop { at_beat: Beat::from_rational(beat), duration_seconds };
        assert(stop == stop_of(pairs@[i as int]));
        out.push(stop);
        i = i + 1;
    }
    Ok(out)
}

/// Take one song-level tag into account. Unknown tags are silently ignored: SSC
/// files carry many optional tags (CDTITLE, BACKGROUND, etc.) that
/// aren't represented in the common model.
pub(crate) fn apply_song_tag(song: &mut Song, value: &MsdValue) -> (r: Result<(), SscError>)
    ensures
        match song_tag_outcome(old(song)@, value@) {
            Ok(next) => r is Ok && final(song)@ == next,
            Err(e) => r is Err && r->Err_0@ == e,
        },
{
    broadcast use group_model_values;

    proof {
        reveal(song_tag_outcome);
    }
    let tag_string = value.tag();
    let tag = chars_of(tag_string.as_str());
    let v = trim(&chars_of(value.param(1)));
    let ghost before = song@;
    if reads(&tag, "TITLE") {
        if v.len() > 0 {
            song.title = Some(string_of(&v));
            assert(song@ =~= SongView { title: Some(v@), ..before });
        }
    } else if reads(&tag, "ARTIST") {
        if v.len() > 0 {
            song.artist = Some(string_of(&v));
            assert(song@ =~= SongView { artist: Some(v@), ..before });
        }
    } else if reads(&tag, "OFFSET") {
        match parse_decimal_seconds(tag_string.as_str(), &v) {
            Ok(q) => {
                song.audio_sync_offset_seconds = q;
                assert(song@ =~= SongView { audio_sync_offset_seconds: q, ..before });
            },
            Err(e) => {
                return Err(e);
            },
        }
    } else if reads(&tag, "BPMS") {
        match parse_bpms(&v) {
            Ok(segments) => {
                let ghost list = segments@;
                song.tempo_segments = segments;
                assert(song@ =~= SongView { tempo_segments: list, ..before });
            },
            Err(e) => {
                return Err(e);
            },
        }
    } else if reads(&tag, "STOPS") {
        match parse_stops(&v) {
            Ok(stops) => {
                let ghost list = stops@;
                song.stops = stops;
                assert(song@ =~= SongView { stops: list, ..before });
            },
            Err(e) => {
                return Err(e);
            },
        }
    } else if reads(&tag, "SAMPLESTART") {
        match parse_decimal_seconds(tag_string.as_str(), &v) {
            Ok(q) => {
                song.preview.start_seconds = q;
                assert(song@ =~= SongView {
                    preview: PreviewSlice { start_seconds: q, ..before.preview },
                    ..before
                });
            },
            Err(e) => {
                return Err(e);
            },
        }
    } else if reads(&tag, "SAMPLELENGTH") {
        match parse_decimal_seconds(tag_string.as_str(), &v) {
            Ok(q) => {
                song.preview.length_seconds = q;
                assert(song@ =~= SongView {
                    preview: PreviewSlice { length_seconds: q, ..before.preview },
                    ..before
                });
            },
            Err(e) => {
                return Err(e);
            },
        }
    }
    Ok(())
}

/// Accumulates the fields of one `#NOTEDATA` section until the next
/// section begins or parsing ends.
#[derive(Debug)]
struct ChartDraft {
    stepstype: Option<Style>,
    difficulty: Option<Difficulty>,
    notes_body: Option<String>,
    /// If this chart was an Edit difficulty or otherwise skipped, this
    /// flag suppresses the usual missing-required-tag errors on
    /// finalization.
    skip: bool,
}

impl View for ChartDraft {
    type V = DraftView;

    closed spec fn view(&self) -> DraftView {
        DraftView {
            stepstype: self.stepstype,
            difficulty: self.difficulty,
            notes_body: text_view(self.notes_body),
            skip: self.skip,
        }
    }
}

spec fn draft_view(draft: Option<ChartDraft>) -> Option<DraftView> {
    match draft {
        Some(d) => Some(d@),
        None => None,
    }
}

impl ChartDraft {
    fn empty() -> (d: Self)
        ensures
            d@ == empty_draft(),
    {
        ChartDraft { stepstype: None, difficulty: None, notes_body: None, skip: false }
    }

    /// Take one tag of the section into account. Other per-chart tags
    /// (METER, RADARVALUES, CHARTNAME, CREDIT, chart-local timing overrides,
    /// etc.) are ignored for now.
    fn apply(&mut self, value: &MsdValue) -> (r: Result<(), SscError>)
        ensures
            match draft_tag_outcome(old(self)@, value@) {
                Ok(next) => r is Ok && final(self)@ == next,
                Err(e) => r is Err && r->Err_0@ == e,
            },
    {
        proof {
            reveal(draft_tag_outcome);
        }
        let tag = chars_of(value.tag().as_str());
        let v = value.param(1);
        if reads(&tag, "STEPSTYPE") {
            match parse_stepstype(v) {
                Ok(style) => {
                    self.stepstype = Some(style);
                },
                Err(e) => {
                    return Err(e);
                },
            }
        } else if reads(&tag, "DIFFICULTY") {
            match parse_difficulty(v) {
                Ok(d) => {
                    self.difficulty = Some(d);
                },
                Err(SscError::EditChartSkipped) => {
                    self.skip = true;
                },
                Err(e) => {
                    return Err(e);
                },
            }
        } else if reads(&tag, "NOTES") || reads(&tag, "NOTES2") {
            self.notes_body = Some(v.to_owned());
        }
        Ok(())
    }

    fn finalize(self) -> (r: Result<Option<Chart>, SscError>)
        ensures
            match draft_outcome(self@) {
                Ok(Some(chart)) => r is Ok && r->Ok_0 is Some && (r->Ok_0)->0@ == chart,
                Ok(None) => r is Ok && r->Ok_0 is None,
                Err(e) => r is Err && r->Err_0@ == e,
            },
    {
        if self.skip {
            return Ok(None);
        }
        let style = match self.stepstype {
            Some(style) => style,
            None => {
                return Err(
                    SscError::MissingRequiredNotedataTag { tag: "STEPSTYPE".to_owned() },
                );
            },
        };
        let difficulty = match self.difficulty {
            Some(d) => d,
            None => {
                return Err(
                    SscError::MissingRequiredNotedataTag { tag: "DIFFICULTY".to_owned() },
                );
            },
        };
        let body = match self.notes_body {
            Some(body) => body,
            None => {
                return Err(SscError::MissingRequiredNotedataTag { tag: "NOTES".to_owned() });
            },
        };
        match parse_notes_body(body.as_str(), style) {
            Ok(notes) => Ok(Some(Chart { style, difficulty, notes })),
            Err(e) => Err(e),
        }
    }
}

/// The chart of a `#NOTES` value with all its fields in one tag. Charts of other
/// steps types and Edit charts are skipped.
pub(crate) fn parse_inline_chart(value: &MsdValue) -> (r: Result<Option<Chart>, SscError>)
    ensures
        match inline_chart(value@) {
            Ok(Some(chart)) => r is Ok && r->Ok_0 is Some && (r->Ok_0)->0@ == chart,
            Ok(None) => r is Ok && r->Ok_0 is None,
            Err(e) => r is Err && r->Err_0@ == e,
        },
{
    let style = match parse_stepstype(value.param(1)) {
        Ok(style) => style,
        Err(_) => {
            return Ok(None);
        },
    };
    let difficulty = match parse_difficulty(value.param(3)) {
        Ok(d) => d,
        Err(SscError::EditChartSkipped) => {
            return Ok(None);
        },
        Err(e) => {
            return Err(e);
        },
    };
    match parse_notes_body(value.param(6), style) {
        Ok(notes) => Ok(Some(Chart { style, difficulty, notes })),
        Err(e) => Err(e),
    }
}

/// Add a chart to a song, if there is one.
pub(crate) fn push_chart(song: &mut Song, chart: Option<Chart>)
    ensures
        match chart {
            Some(c) => final(song)@ == with_chart(old(song)@, Some(c@)),
            None => final(song)@ == old(song)@,
        },
{
    match chart {
        Some(c) => {
            let ghost before = song@;
            let ghost v = c@;
            song.charts.push(c);
            assert(charts_view(song.charts@) =~= before.charts.push(v));
            assert(song@ =~= with_chart(before, Some(v)));
        },
        None => {},
    }
}

/// End the section that is open, if one is.
fn end_section(song: &mut Song, draft: Option<ChartDraft>) -> (r: Result<(), SscError>)
    ensures
        match section_ended(old(song)@, draft_view(draft)) {
            Ok(next) => r is Ok && final(song)@ == next,
            Err(e) => r is Err && r->Err_0@ == e,
        },
{
    match draft {
        Some(d) => match d.finalize() {
            Ok(chart) => {
                push_chart(song, chart);
                Ok(())
            },
            Err(e) => Err(e),
        },
        None => Ok(()),
    }
}

/// Parse a complete SSC file into a `Song`.
pub fn parse(text: &str) -> (r: Result<Song, SscError>)
    ensures
        match ssc_outcome(text@) {
            Ok(song) => r is Ok && r->Ok_0@ == song,
            Err(e) => r is Err && r->Err_0@ == e,
        },
{
    let values = tokenize(text);
    let ghost all = values_view(values@);
    let mut song = empty_song();
    let mut current_chart: Option<ChartDraft> = None;
    let mut i: usize = 0;
    while i < values.len()
        invariant
            i <= values@.len(),
            all == values_view(values@),
            all == tokens(text@),
            ssc_outcome(text@) == values_from(all, i as int, song@, draft_view(current_chart)),
        decreases values@.len() - i,
    {
        let value = &values[i];
        assert(all[i as int] == value@);
        let tag = chars_of(value.tag().as_str());
        let ghost before = song@;
        if reads(&tag, "NOTEDATA") {
            // `#NOTEDATA` starts a new chart section; flush the previous one.
            match end_section(&mut song, current_chart) {
                Ok(()) => {},
                Err(e) => {
                    return Err(e);
                },
            }
            current_chart = Some(ChartDraft::empty());
        } else {
            current_chart = match current_chart {
                Some(mut draft) => {
                    match draft.apply(value) {
                        Ok(()) => {},
                        Err(e) => {
                            return Err(e);
                        },
                    }
                    Some(draft)
                },
                None => {
                    if reads(&tag, "NOTES") && value.params.len() == 7 {
                        // SM-style `#NOTES:stepstype:desc:diff:meter:radar:notedata;`
                        // found at song level. Common in real-world .ssc files.
                        match parse_inline_chart(value) {
                            Ok(chart) => {
                                push_chart(&mut song, chart);
                            },
                            Err(e) => {
                                return Err(e);
                            },
                        }
                    } else {
                        match apply_song_tag(&mut song, value) {
                            Ok(()) => {},
                            Err(e) => {
                                return Err(e);
                            },
                        }
                    }
                    None
                },
            };
        }
        i = i + 1;
    }
    match end_section(&mut song, current_chart) {
        Ok(()) => Ok(song),
        Err(e) => Err(e),
    }
}

/// The list `beat=value,beat=value,...` of some entries.
pub open spec fn pairs_text(pairs: Seq<((int, int), (int, int))>) -> Seq<char>
    decreases pairs.len(),
{
    if pairs.len() == 0 {
        Seq::empty()
    } else {
        pairs_text(pairs.drop_last()) + (if pairs.len() > 1 {
            seq![',']
        } else {
            Seq::empty()
        }) + decimal_text(pairs.last().0) + seq!['='] + decimal_text(pairs.last().1)
    }
}

/// The beat and tempo of each segment.
pub open spec fn segment_pairs(segments: Seq<TempoSegment>) -> Seq<((int, int), (int, int))> {
    Seq::new(segments.len(), |i: int| (segments[i].start_beat@, segments[i].bpm@))
}

/// The beat and duration of each stop.
pub open spec fn stop_pairs(stops: Seq<Stop>) -> Seq<((int, int), (int, int))> {
    Seq::new(stops.len(), |i: int| (stops[i].at_beat@, stops[i].duration_seconds@))
}

pub open spec fn or_empty(s: Option<Seq<char>>) -> Seq<char> {
    match s {
        Some(t) => t,
        None => Seq::empty(),
    }
}

/// The song-level tags of a song.
pub open spec fn header_text(song: SongView) -> Seq<char> {
    tag_text("VERSION"@, "0.83"@) + tag_text("TITLE"@, or_empty(song.title)) + tag_text(
        "ARTIST"@,
        or_empty(song.artist),
    ) + tag_text("OFFSET"@, decimal_text(song.audio_sync_offset_seconds@)) + tag_text(
        "BPMS"@,
        pairs_text(segment_pairs(song.tempo_segments)),
    ) + tag_text("STOPS"@, pairs_text(stop_pairs(song.stops))) + tag_text(
        "SAMPLESTART"@,
        decimal_text(song.preview.start_seconds@),
    ) + tag_text("SAMPLELENGTH"@, decimal_text(song.preview.length_seconds@))
}

/// `text` with the sections of the charts from `i` on.
pub open spec fn sections_from(charts: Seq<ChartView>, i: int, text: Seq<char>) -> Result<
    Seq<char>,
    SscErrorView,
>
    decreases charts.len() - i,
{
    if i >= charts.len() {
        Ok(text)
    } else {
        match notedata_written(charts[i]) {
            Err(e) => Err(e),
            Ok(section) => sections_from(charts, i + 1, text + section),
        }
    }
}

/// The SSC file of a song.
pub open spec fn ssc_written(song: SongView) -> Result<Seq<char>, SscErrorView> {
    sections_from(song.charts, 0, header_text(song))
}

fn write_decimal_tag(out: &mut String, tag: &str, value: Rational)
    ensures
        final(out)@ == old(out)@ + tag_text(tag@, decimal_text(value@)),
{
    write_str_tag(out, tag, format_decimal(value).as_str());
}

/// Append one entry of a list.
fn push_pair(text: &mut String, first: bool, beat: Rational, value: Rational)
    ensures
        final(text)@ == old(text)@ + (if first {
            Seq::empty()
        } else {
            seq![',']
        }) + decimal_text(beat@) + seq!['='] + decimal_text(value@),
{
    if !first {
        text.push(',');
    }
    text.append(format_decimal(beat).as_str());
    text.push('=');
    text.append(format_decimal(value).as_str());
    assert(text@ =~= old(text)@ + (if first {
        Seq::empty()
    } else {
        seq![',']
    }) + decimal_text(beat@) + seq!['='] + decimal_text(value@));
}

fn write_bpms(out: &mut String, segments: &Vec<TempoSegment>)
    ensures
        final(out)@ == old(out)@ + tag_text("BPMS"@, pairs_text(segment_pairs(segments@))),
{
    let ghost all = segment_pairs(segments@);
    let mut text = String::new();
    let mut i: usize = 0;
    assert(text@ =~= pairs_text(all.subrange(0, 0)));
    while i < segments.len()
        invariant
            i <= segments@.len(),
            all == segment_pairs(segments@),
            text@ == pairs_text(all.subrange(0, i as int)),
        decreases segments@.len() - i,
    {
        let seg = segments[i];
        proof {
            let now = all.subrange(0, i + 1);
            assert(now.drop_last() =~= all.subrange(0, i as int));
        }
        push_pair(&mut text, i == 0, seg.start_beat.as_rational(), seg.bpm.as_rational());
        i = i + 1;
    }
    assert(all.subrange(0, i as int) =~= all);
    write_str_tag(out, "BPMS", text.as_str());
}

fn write_stops(out: &mut String, stops: &Vec<Stop>)
    ensures
        final(out)@ == old(out)@ + tag_text("STOPS"@, pairs_text(stop_pairs(stops@))),
{
    let ghost all = stop_pairs(stops@);
    let mut text = String::new();
    let mut i: usize = 0;
    assert(text@ =~= pairs_text(all.subrange(0, 0)));
    while i < stops.len()
        invariant
            i <= stops@.len(),
            all == stop_pairs(stops@),
            text@ == pairs_text(all.subrange(0, i as int)),
        decreases stops@.len() - i,
    {
        let stop = stops[i];
        proof {
            let now = all.subrange(0, i + 1);
            assert(now.drop_last() =~= all.subrange(0, i as int));
        }
        push_pair(&mut text, i == 0, stop.at_beat.as_rational(), stop.duration_seconds);
        i = i + 1;
    }
    assert(all.subrange(0, i as int) =~= all);
    write_str_tag(out, "STOPS", text.as_str());
}

fn text_or_empty(s: &Option<String>) -> (t: &str)
    ensures
        t@ == or_empty(text_view(*s)),
{
    match s {
        Some(t) => t.as_str(),
        None => {
            proof {
                reveal_strlit("");
            }
            assert(""@ =~= Seq::<char>::empty());
            ""
        },
    }
}

/// Serialize a `Song` into an SSC file. Song-level tags are emitted
/// first, followed by one `#NOTEDATA` section per `Chart`.
///
/// Decimal fields (`#OFFSET`, `#BPMS`, `#STOPS`, `#SAMPLESTART`,
/// `#SAMPLELENGTH`) are written with 6 fractional digits — enough
/// precision that parse → write → parse preserves any value whose
/// rational denominator divides `10^6` (which all human-authored SSC
/// values do). Nothing is written where a chart has no note grid.
pub fn write(song: &Song, out: &mut String) -> (r: Result<(), SscError>)
    ensures
        match ssc_written(song@) {
            Ok(text) => r is Ok && final(out)@ == old(out)@ + text,
            Err(e) => r is Err && r->Err_0@ == e && final(out)@ == old(out)@,
        },
{
    let mut text = String::new();
    write_str_tag(&mut text, "VERSION", "0.83");
    write_str_tag(&mut text, "TITLE", text_or_empty(&song.title));
    write_str_tag(&mut text, "ARTIST", text_or_empty(&song.artist));
    write_decimal_tag(&mut text, "OFFSET", song.audio_sync_offset_seconds);
    write_bpms(&mut text, &song.tempo_segments);
    write_stops(&mut text, &song.stops);
    write_decimal_tag(&mut text, "SAMPLESTART", song.preview.start_seconds);
    write_decimal_tag(&mut text, "SAMPLELENGTH", song.preview.length_seconds);
    assert(text@ =~= header_text(song@));
    let ghost charts = song@.charts;
    let mut i: usize = 0;
    while i < song.charts.len()
        invariant
            i <= song.charts@.len(),
            charts == charts_view(song.charts@),
            out@ == old(out)@,
            ssc_written(song@) == sections_from(charts, i as int, text@),
        decreases song.charts@.len() - i,
    {
        assert(charts[i as int] == song.charts@[i as int]@);
        match write_notedata(&song.charts[i], &mut text) {
            Ok(()) => {},
            Err(e) => {
                return Err(e);
            },
        }
        i = i + 1;
    }
    out.append(text.as_str());
    Ok(())
}

} // verus!
