//! Writing a chart as a note grid.

use super::notes::{difficulty_text, stepstype_text};
use super::{SscError, SscErrorView};
use crate::model::rational::{add_value, lemma_lowest, lowest, q_fits, q_same};
use crate::model::{
    group_model_values, has_panel, panels_of, Chart, ChartView, Difficulty, Note, NoteKind,
    PanelSet, Rational, ShockSide, Style,
};
use crate::util::text::{dec, dec_string, signed_dec, signed_dec_string};
use vstd::prelude::*;
use vstd::string::StringExecFns;

verus! {

/// A character to draw: in which measure, at which distance from its start,
/// and on which panel.
#[verifier::ext_equal]
pub struct Mark {
    pub measure: int,
    pub offset: (int, int),
    pub panel: int,
    pub c: char,
}

/// The measure that a beat falls into.
pub open spec fn measure_of(beat: (int, int)) -> int {
    beat.0 / beat.1 / 4
}

/// The distance of a beat from the start of its measure, in beats.
pub open spec fn offset_of(beat: (int, int)) -> (int, int) {
    lowest(beat.0 - 4 * measure_of(beat) * beat.1, beat.1)
}

/// The error for a beat before the first measure.
pub open spec fn negative_beat(beat: (int, int)) -> SscErrorView {
    SscErrorView::Write(
        "negative beat "@ + signed_dec(beat.0) + "/"@ + dec(beat.1 as nat)
            + " has no measure representation"@,
    )
}

/// A character at a beat, on a panel to be given.
pub open spec fn mark(beat: (int, int), panel: int, c: char) -> Mark {
    Mark { measure: measure_of(beat), offset: offset_of(beat), panel, c }
}

/// One character on each of the panels `bits` below `n`.
pub open spec fn marks(bits: u8, n: nat, beat: (int, int), c: char) -> Seq<Mark>
    decreases n,
{
    if n == 0 {
        Seq::empty()
    } else {
        let before = marks(bits, (n - 1) as nat, beat, c);
        if has_panel(bits, (n - 1) as u8) {
            before.push(mark(beat, n - 1, c))
        } else {
            before
        }
    }
}

/// A hold from `head` to `tail` on each of the panels `bits` below `n`.
pub open spec fn hold_marks(bits: u8, n: nat, head: (int, int), tail: (int, int)) -> Seq<Mark>
    decreases n,
{
    if n == 0 {
        Seq::empty()
    } else {
        let before = hold_marks(bits, (n - 1) as nat, head, tail);
        if has_panel(bits, (n - 1) as u8) {
            before.push(mark(head, n - 1, '2')).push(mark(tail, n - 1, '3'))
        } else {
            before
        }
    }
}

/// The panels that a shock covers.
pub open spec fn shock_bits(side: ShockSide, style: Style) -> Option<u8> {
    match (style, side) {
        (Style::Single, ShockSide::BothSides) => Some(0x0F),
        (Style::Double, ShockSide::BothSides) => Some(0xFF),
        (Style::Double, ShockSide::P1Only) => Some(0x0F),
        (Style::Double, ShockSide::P2Only) => Some(0xF0),
        (Style::Single, _) => None,
    }
}

/// The name of a shock side.
pub open spec fn side_text(side: ShockSide) -> Seq<char> {
    match side {
        ShockSide::BothSides => "BothSides"@,
        ShockSide::P1Only => "P1Only"@,
        ShockSide::P2Only => "P2Only"@,
    }
}

/// What one note draws, and the last measure that it reaches.
pub open spec fn note_marks(note: Note, style: Style) -> Result<(Seq<Mark>, int), SscErrorView> {
    let beat = note.beat@;
    let n = panels_of(style) as nat;
    if beat.0 < 0 {
        Err(negative_beat(beat))
    } else {
        match note.kind {
            NoteKind::Tap => Ok((marks(note.panels@, n, beat, '1'), measure_of(beat))),
            NoteKind::Mine => Ok((marks(note.panels@, n, beat, 'M'), measure_of(beat))),
            NoteKind::Shock { side } => match shock_bits(side, style) {
                Some(bits) => Ok((marks(bits, n, beat, 'M'), measure_of(beat))),
                None => Err(
                    SscErrorView::ShockSideIncompatibleWithStyle { side: side_text(side) },
                ),
            },
            NoteKind::HoldHead { length } => match add_value(beat, length@) {
                None => Err(SscErrorView::Write("hold tail beat overflow"@)),
                Some(tail) => if tail.0 < 0 {
                    Err(negative_beat(tail))
                } else {
                    Ok(
                        (
                            hold_marks(note.panels@, n, beat, tail),
                            larger(measure_of(beat), measure_of(tail)),
                        ),
                    )
                },
            },
        }
    }
}

pub open spec fn larger(a: int, b: int) -> int {
    if a < b {
        b
    } else {
        a
    }
}

/// What the notes from `i` on draw, added to `drawn`, and the last measure that
/// they reach, `last` at least.
pub open spec fn marks_from(
    notes: Seq<Note>,
    i: int,
    style: Style,
    drawn: Seq<Mark>,
    last: int,
) -> Result<(Seq<Mark>, int), SscErrorView>
    decreases notes.len() - i,
{
    if i >= notes.len() {
        Ok((drawn, last))
    } else {
        match note_marks(notes[i], style) {
            Err(e) => Err(e),
            Ok((more, reach)) => marks_from(notes, i + 1, style, drawn + more, larger(last, reach)),
        }
    }
}

/// The marks of one measure.
pub open spec fn in_measure(all: Seq<Mark>, measure: int) -> Seq<Mark>
    decreases all.len(),
{
    if all.len() == 0 {
        Seq::empty()
    } else {
        let before = in_measure(all.drop_last(), measure);
        if all.last().measure == measure {
            before.push(all.last())
        } else {
            before
        }
    }
}

/// Standard SSC row-quantization values.
pub open spec fn quantize(k: int) -> int {
    seq![4int, 8, 12, 16, 24, 32, 48, 64, 96, 192][k]
}

/// Whether an offset falls on a row of a measure of `rows` rows.
pub open spec fn on_row(offset: (int, int), rows: int) -> bool {
    (offset.0 * rows) % (offset.1 * 4) == 0
}

/// The row that an offset falls on.
pub open spec fn row_at(offset: (int, int), rows: int) -> int {
    (offset.0 * rows) / (offset.1 * 4)
}

pub open spec fn all_on_rows(all: Seq<Mark>, rows: int) -> bool {
    forall|i: int| 0 <= i < all.len() ==> on_row((#[trigger] all[i]).offset, rows)
}

/// The smallest quantize from the `k`th on that has a row for every mark.
pub open spec fn picked(all: Seq<Mark>, k: int) -> Option<int>
    decreases 10 - k,
{
    if k >= 10 {
        None
    } else if all_on_rows(all, quantize(k)) {
        Some(quantize(k))
    } else {
        picked(all, k + 1)
    }
}

/// The character at a row and panel: the last one drawn there.
pub open spec fn cell(all: Seq<Mark>, rows: int, row: int, panel: int) -> char
    decreases all.len(),
{
    if all.len() == 0 {
        '0'
    } else if row_at(all.last().offset, rows) == row && all.last().panel == panel {
        all.last().c
    } else {
        cell(all.drop_last(), rows, row, panel)
    }
}

/// The rows of a measure.
pub open spec fn measure_rows(all: Seq<Mark>, rows: int, panels: int) -> Seq<Seq<char>> {
    Seq::new(
        rows as nat,
        |row: int| Seq::new(panels as nat, |panel: int| cell(all, rows, row, panel)),
    )
}

/// The rows of each measure from `measure` to `last`, added to `done`.
pub open spec fn grid_from(
    all: Seq<Mark>,
    measure: int,
    last: int,
    panels: int,
    done: Seq<Seq<Seq<char>>>,
) -> Result<Seq<Seq<Seq<char>>>, SscErrorView>
    decreases last + 1 - measure,
{
    if measure > last {
        Ok(done)
    } else {
        let here = in_measure(all, measure);
        match picked(here, 0) {
            None => Err(
                SscErrorView::UnrepresentableBeat {
                    measure: measure as usize as int,
                    num: here[0].offset.0,
                    den: here[0].offset.1,
                },
            ),
            Some(rows) => grid_from(
                all,
                measure + 1,
                last,
                panels,
                done.push(measure_rows(here, rows, panels)),
            ),
        }
    }
}

/// The note grid of a chart.
pub open spec fn grid_written(chart: ChartView) -> Result<Seq<Seq<Seq<char>>>, SscErrorView> {
    match marks_from(chart.notes, 0, chart.style, Seq::empty(), 0) {
        Err(e) => Err(e),
        Ok((all, last)) => grid_from(all, 0, last, panels_of(chart.style), Seq::empty()),
    }
}

/// The rows of a measure, one line each.
pub open spec fn rows_text(rows: Seq<Seq<char>>) -> Seq<char>
    decreases rows.len(),
{
    if rows.len() == 0 {
        Seq::empty()
    } else {
        rows_text(rows.drop_last()) + rows.last() + seq!['\n']
    }
}

/// The measures of a grid, a comma line between them.
pub open spec fn grid_text(grid: Seq<Seq<Seq<char>>>) -> Seq<char>
    decreases grid.len(),
{
    if grid.len() == 0 {
        Seq::empty()
    } else {
        grid_text(grid.drop_last()) + (if grid.len() > 1 {
            seq![',', '\n']
        } else {
            Seq::empty()
        }) + rows_text(grid.last())
    }
}

/// The `#NOTES` body of a chart.
pub open spec fn body_written(chart: ChartView) -> Result<Seq<char>, SscErrorView> {
    match grid_written(chart) {
        Err(e) => Err(e),
        Ok(grid) => Ok(grid_text(grid)),
    }
}

/// One tag line.
pub open spec fn tag_text(tag: Seq<char>, value: Seq<char>) -> Seq<char> {
    seq!['#'] + tag + seq![':'] + value + seq![';', '\n']
}

/// The `#NOTEDATA` section of a chart.
pub open spec fn notedata_written(chart: ChartView) -> Result<Seq<char>, SscErrorView> {
    match body_written(chart) {
        Err(e) => Err(e),
        Ok(body) => Ok(
            tag_text("NOTEDATA"@, Seq::empty()) + tag_text(
                "STEPSTYPE"@,
                stepstype_text(chart.style),
            ) + tag_text("DIFFICULTY"@, difficulty_text(chart.difficulty)) + tag_text(
                "NOTES"@,
                seq!['\n'] + body,
            ),
        ),
    }
}

/// A character event of the note grid.
#[derive(Debug, Clone, Copy)]
struct GridEvent {
    measure: u64,
    offset: Rational,
    panel: usize,
    c: char,
}

impl View for GridEvent {
    type V = Mark;

    closed spec fn view(&self) -> Mark {
        Mark {
            measure: self.measure as int,
            offset: self.offset@,
            panel: self.panel as int,
            c: self.c,
        }
    }
}

spec fn events_view(events: Seq<GridEvent>) -> Seq<Mark> {
    Seq::new(events.len(), |i: int| events[i]@)
}

/// Whether a mark lies inside its measure and on a panel of the grid.
pub open spec fn in_grid(m: Mark, panels: int) -> bool {
    0 <= m.panel < panels && 0 <= m.offset.0 < 4 * m.offset.1
}

spec fn events_in_grid(events: Seq<GridEvent>, panels: int) -> bool {
    forall|i: int| 0 <= i < events.len() ==> in_grid((#[trigger] events[i])@, panels)
}

proof fn lemma_view_push(events: Seq<GridEvent>, e: GridEvent)
    ensures
        events_view(events.push(e)) == events_view(events).push(e@),
{
    assert(events_view(events.push(e)) =~= events_view(events).push(e@));
}

/// The offset of a beat in its measure, bounded.
pub proof fn lemma_offset(beat: (int, int))
    requires
        beat.0 >= 0,
        beat.1 > 0,
    ensures
        0 <= measure_of(beat),
        4 * measure_of(beat) * beat.1 <= beat.0,
        beat.0 - 4 * measure_of(beat) * beat.1 < 4 * beat.1,
        0 <= offset_of(beat).0 < 4 * offset_of(beat).1,
        offset_of(beat).1 > 0,
        q_same(offset_of(beat), (beat.0 - 4 * measure_of(beat) * beat.1, beat.1)),
{
    let (n, d) = beat;
    let m = measure_of(beat);
    let whole = n / d;
    vstd::arithmetic::div_mod::lemma_fundamental_div_mod(n, d);
    vstd::arithmetic::div_mod::lemma_mod_bound(n, d);
    vstd::arithmetic::div_mod::lemma_div_pos_is_pos(n, d);
    let rest = whole - 4 * m;
    assert(0 <= rest <= 3);
    assert(4 * m * d + rest * d == d * whole) by (nonlinear_arith)
        requires
            rest == whole - 4 * m,
    ;
    assert(0 <= rest * d <= 3 * d) by (nonlinear_arith)
        requires
            0 <= rest <= 3,
            d > 0,
    ;
    let o = n - 4 * m * d;
    assert(0 <= o < 4 * d);
    lemma_lowest(o, d);
    let (a, b) = offset_of(beat);
    assert(a * d == o * b);
    assert(a < 4 * b) by (nonlinear_arith)
        requires
            a * d == o * b,
            o < 4 * d,
            d > 0,
            b > 0,
    ;
}

/// Split an absolute beat into `(measure_index, offset_within_measure)`.
/// `offset_within_measure` is in `[0, 4)` as an exact rational.
fn split_beat_into_measure(beat: Rational) -> (r: Result<(u64, Rational), SscError>)
    ensures
        beat@.0 < 0 ==> r is Err && r->Err_0@ == negative_beat(beat@),
        beat@.0 >= 0 ==> r is Ok && (r->Ok_0).0 == measure_of(beat@) && (r->Ok_0).1@ == offset_of(
            beat@,
        ),
{
    let num: i64 = beat.num();
    let den: u64 = beat.den();
    if num < 0 {
        return Err(
            SscError::Write(
                "negative beat ".to_owned().concat(signed_dec_string(num).as_str()).concat(
                    "/",
                ).concat(dec_string(den as u128).as_str()).concat(
                    " has no measure representation",
                ),
            ),
        );
    }
    let measure: u64 = num as u64 / den / 4;
    proof {
        lemma_offset(beat@);
        let m = measure_of(beat@);
        let o = num - 4 * m * den;
        assert(4 * m <= 4 * m * den) by (nonlinear_arith)
            requires
                m >= 0,
                den >= 1,
        ;
        lemma_lowest(o, den as int);
        assert(num * 1 + (-(4 * m)) * den == o) by (nonlinear_arith)
            requires
                o == num - 4 * m * den,
        ;
    }
    let start = Rational::from_integer((4 * measure) as i64);
    match beat.sub(&start) {
        Ok(offset) => Ok((measure, offset)),
        Err(e) => Err(
            SscError::Write("measure offset: ".to_owned().concat(e.message().as_str())),
        ),
    }
}

/// The name of a shock side.
pub fn shock_side_name(side: ShockSide) -> (s: &'static str)
    ensures
        s@ == side_text(side),
{
    match side {
        ShockSide::BothSides => "BothSides",
        ShockSide::P1Only => "P1Only",
        ShockSide::P2Only => "P2Only",
    }
}

/// Convert a `ShockSide` + style into the mine bitmask the shock paints
/// on a single row. Errors if the side mentions a half that doesn't
/// exist in the target style (P1Only/P2Only on Single have no
/// natural mapping, so the caller is told to check input data).
fn shock_side_to_bits(side: ShockSide, style: Style) -> (r: Result<u8, SscError>)
    ensures
        match shock_bits(side, style) {
            Some(bits) => r is Ok && r->Ok_0 == bits,
            None => r is Err && r->Err_0@ == (SscErrorView::ShockSideIncompatibleWithStyle {
                side: side_text(side),
            }),
        },
{
    match (style, side) {
        (Style::Single, ShockSide::BothSides) => Ok(0x0F),
        (Style::Double, ShockSide::BothSides) => Ok(0xFF),
        (Style::Double, ShockSide::P1Only) => Ok(0x0F),
        (Style::Double, ShockSide::P2Only) => Ok(0xF0),
        (Style::Single, s) => Err(
            SscError::ShockSideIncompatibleWithStyle { side: shock_side_name(s).to_owned() },
        ),
    }
}

/// Add one character on each active panel.
fn push_marks(
    panels: PanelSet,
    style: Style,
    beat: Rational,
    at: (u64, Rational),
    c: char,
    events: &mut Vec<GridEvent>,
)
    requires
        beat@.0 >= 0,
        at.0 == measure_of(beat@),
        at.1@ == offset_of(beat@),
        events_in_grid(old(events)@, panels_of(style)),
    ensures
        events_in_grid(final(events)@, panels_of(style)),
        events_view(final(events)@) == events_view(old(events)@) + marks(
            panels@,
            panels_of(style) as nat,
            beat@,
            c,
        ),
{
    let (measure, offset) = at;
    let count: u8 = style.panel_count();
    let mut p: u8 = 0;
    proof {
        use_type_invariant(&beat);
        lemma_offset(beat@);
    }
    assert(events_view(events@) =~= events_view(old(events)@) + marks(panels@, 0, beat@, c));
    while p < count
        invariant
            p <= count == panels_of(style),
            beat@.0 >= 0,
            measure == measure_of(beat@),
            offset@ == offset_of(beat@),
            0 <= offset@.0 < 4 * offset@.1,
            events_in_grid(events@, panels_of(style)),
            events_view(events@) == events_view(old(events)@) + marks(
                panels@,
                p as nat,
                beat@,
                c,
            ),
        decreases count - p,
    {
        if panels.contains(p) {
            let e = GridEvent { measure, offset, panel: p as usize, c };
            proof {
                lemma_view_push(events@, e);
                assert(e@ =~= mark(beat@, p as int, c));
            }
            events.push(e);
        }
        assert(events_view(events@) =~= events_view(old(events)@) + marks(
            panels@,
            p as nat + 1,
            beat@,
            c,
        ));
        p = p + 1;
    }
}

/// Add the start and the end of a hold on each active panel.
fn push_hold_marks(
    panels: PanelSet,
    style: Style,
    head: Rational,
    head_at: (u64, Rational),
    tail: Rational,
    tail_at: (u64, Rational),
    events: &mut Vec<GridEvent>,
)
    requires
        head@.0 >= 0,
        tail@.0 >= 0,
        head_at.0 == measure_of(head@),
        head_at.1@ == offset_of(head@),
        tail_at.0 == measure_of(tail@),
        tail_at.1@ == offset_of(tail@),
        events_in_grid(old(events)@, panels_of(style)),
    ensures
        events_in_grid(final(events)@, panels_of(style)),
        events_view(final(events)@) == events_view(old(events)@) + hold_marks(
            panels@,
            panels_of(style) as nat,
            head@,
            tail@,
        ),
{
    let count: u8 = style.panel_count();
    let mut p: u8 = 0;
    proof {
        use_type_invariant(&head);
        use_type_invariant(&tail);
        lemma_offset(head@);
        lemma_offset(tail@);
    }
    assert(events_view(events@) =~= events_view(old(events)@) + hold_marks(
        panels@,
        0,
        head@,
        tail@,
    ));
    while p < count
        invariant
            p <= count == panels_of(style),
            head_at.0 == measure_of(head@),
            head_at.1@ == offset_of(head@),
            tail_at.0 == measure_of(tail@),
            tail_at.1@ == offset_of(tail@),
            0 <= head_at.1@.0 < 4 * head_at.1@.1,
            0 <= tail_at.1@.0 < 4 * tail_at.1@.1,
            events_in_grid(events@, panels_of(style)),
            events_view(events@) == events_view(old(events)@) + hold_marks(
                panels@,
                p as nat,
                head@,
                tail@,
            ),
        decreases count - p,
    {
        if panels.contains(p) {
            let a = GridEvent { measure: head_at.0, offset: head_at.1, panel: p as usize, c: '2' };
            let b = GridEvent { measure: tail_at.0, offset: tail_at.1, panel: p as usize, c: '3' };
            proof {
                lemma_view_push(events@, a);
                lemma_view_push(events@.push(a), b);
                assert(a@ =~= mark(head@, p as int, '2'));
                assert(b@ =~= mark(tail@, p as int, '3'));
            }
            events.push(a);
            events.push(b);
        }
        assert(events_view(events@) =~= events_view(old(events)@) + hold_marks(
            panels@,
            p as nat + 1,
            head@,
            tail@,
        ));
        p = p + 1;
    }
}

fn max_of(a: u64, b: u64) -> (m: u64)
    ensures
        m == larger(a as int, b as int),
{
    if a < b {
        b
    } else {
        a
    }
}

/// Add what one note draws; gives the last measure that it reaches.
fn place_note_events(note: &Note, style: Style, events: &mut Vec<GridEvent>) -> (r: Result<
    u64,
    SscError,
>)
    requires
        events_in_grid(old(events)@, panels_of(style)),
    ensures
        match note_marks(*note, style) {
            Err(e) => r is Err && r->Err_0@ == e,
            Ok((more, reach)) => r is Ok && r->Ok_0 == reach && events_view(final(events)@)
                == events_view(old(events)@) + more && events_in_grid(
                final(events)@,
                panels_of(style),
            ),
        },
{
    broadcast use group_model_values;

    let beat = note.beat.as_rational();
    let at = match split_beat_into_measure(beat) {
        Ok(at) => at,
        Err(e) => {
            return Err(e);
        },
    };
    match note.kind {
        NoteKind::Tap => {
            push_marks(note.panels, style, beat, at, '1', events);
            Ok(at.0)
        },
        NoteKind::HoldHead { length } => {
            let tail = match beat.add(&length.as_rational()) {
                Ok(tail) => tail,
                Err(_) => {
                    return Err(SscError::Write("hold tail beat overflow".to_owned()));
                },
            };
            let tail_at = match split_beat_into_measure(tail) {
                Ok(at) => at,
                Err(e) => {
                    return Err(e);
                },
            };
            push_hold_marks(note.panels, style, beat, at, tail, tail_at, events);
            Ok(max_of(at.0, tail_at.0))
        },
        NoteKind::Shock { side } => {
            let bits: u8 = match shock_side_to_bits(side, style) {
                Ok(bits) => bits,
                Err(e) => {
                    return Err(e);
                },
            };
            proof {
                assert(0xFFu8 & 0xFFu8 == 0xFFu8 && 0x0Fu8 & 0xFFu8 == 0x0Fu8 && 0xF0u8 & 0xFFu8
                    == 0xF0u8 && 0x0Fu8 & 0x0Fu8 == 0x0Fu8) by (bit_vector);
            }
            push_marks(PanelSet::from_bits(style, bits), style, beat, at, 'M', events);
            Ok(at.0)
        },
        NoteKind::Mine => {
            push_marks(note.panels, style, beat, at, 'M', events);
            Ok(at.0)
        },
    }
}

/// The events of one measure.
fn events_of_measure(events: &Vec<GridEvent>, measure: u64, Ghost(panels): Ghost<int>) -> (here:
    Vec<GridEvent>)
    requires
        events_in_grid(events@, panels),
    ensures
        events_in_grid(here@, panels),
        events_view(here@) == in_measure(events_view(events@), measure as int),
{
    let mut here: Vec<GridEvent> = Vec::new();
    let mut i: usize = 0;
    let ghost all = events_view(events@);
    assert(events_view(here@) =~= in_measure(all.subrange(0, 0), measure as int));
    while i < events.len()
        invariant
            i <= events@.len(),
            all == events_view(events@),
            events_in_grid(events@, panels),
            events_in_grid(here@, panels),
            events_view(here@) == in_measure(all.subrange(0, i as int), measure as int),
        decreases events@.len() - i,
    {
        let e: GridEvent = events[i];
        proof {
            let now = all.subrange(0, i + 1);
            assert(now.drop_last() =~= all.subrange(0, i as int));
            assert(now.last() == e@);
            lemma_view_push(here@, e);
        }
        if e.measure == measure {
            here.push(e);
        }
        i = i + 1;
    }
    assert(all.subrange(0, i as int) =~= all);
    here
}

/// Whether every event falls on a row.
fn all_events_on_rows(events: &Vec<GridEvent>, rows: u32, Ghost(panels): Ghost<int>) -> (b: bool)
    requires
        events_in_grid(events@, panels),
        rows <= 192,
    ensures
        b == all_on_rows(events_view(events@), rows as int),
{
    let mut i: usize = 0;
    while i < events.len()
        invariant
            i <= events@.len(),
            rows <= 192,
            events_in_grid(events@, panels),
            forall|k: int|
                0 <= k < i ==> on_row((#[trigger] events_view(events@)[k]).offset, rows as int),
        decreases events@.len() - i,
    {
        let offset = events[i].offset;
        assert(events_view(events@)[i as int].offset == offset@);
        proof {
            use_type_invariant(&offset);
            lemma_row_products(offset@, rows as int);
        }
        let num: i128 = (offset.num() as i128) * (rows as i128);
        let den: i128 = (offset.den() as i128) * 4;
        assert(num >= 0) by {
            assert(in_grid(events@[i as int]@, panels));
        }
        if num % den != 0 {
            return false;
        }
        i = i + 1;
    }
    true
}

proof fn lemma_row_products(offset: (int, int), rows: int)
    requires
        q_fits(offset),
        0 <= rows <= 192,
    ensures
        i128::MIN <= offset.0 * rows <= i128::MAX,
        0 <= offset.0 ==> 0 <= offset.0 * rows,
        0 < offset.1 * 4 <= i128::MAX,
{
    let n = offset.0;
    assert(-0x8000_0000_0000_0000 * 192 <= n * rows <= 0x8000_0000_0000_0000 * 192)
        by (nonlinear_arith)
        requires
            -0x8000_0000_0000_0000 <= n <= 0x7fff_ffff_ffff_ffff,
            0 <= rows <= 192,
    ;
    assert(0 <= n ==> 0 <= n * rows) by (nonlinear_arith)
        requires
            0 <= rows,
    ;
}

fn standard_quantize(k: usize) -> (rows: u32)
    requires
        k < 10,
    ensures
        rows == quantize(k as int),
        4 <= rows <= 192,
{
    match k {
        0 => 4,
        1 => 8,
        2 => 12,
        3 => 16,
        4 => 24,
        5 => 32,
        6 => 48,
        7 => 64,
        8 => 96,
        _ => 192,
    }
}

/// Pick the smallest standard quantize that represents every event in
/// the measure exactly (i.e. `offset * rows / 4` is an integer
/// for every event).
fn pick_quantize(events: &Vec<GridEvent>, measure: u64, Ghost(panels): Ghost<int>) -> (r: Result<
    u32,
    SscError,
>)
    requires
        events_in_grid(events@, panels),
    ensures
        match picked(events_view(events@), 0) {
            Some(rows) => r is Ok && r->Ok_0 == rows && 4 <= rows <= 192 && all_on_rows(
                events_view(events@),
                rows,
            ),
            None => r is Err && r->Err_0@ == (SscErrorView::UnrepresentableBeat {
                measure: measure as usize as int,
                num: events_view(events@)[0].offset.0,
                den: events_view(events@)[0].offset.1,
            }),
        },
{
    let mut k: usize = 0;
    while k < 10
        invariant
            k <= 10,
            k > 0 ==> events@.len() > 0,
            events_in_grid(events@, panels),
            picked(events_view(events@), 0) == picked(events_view(events@), k as int),
        decreases 10 - k,
    {
        let rows: u32 = standard_quantize(k);
        if all_events_on_rows(events, rows, Ghost(panels)) {
            return Ok(rows);
        }
        k = k + 1;
    }
    // No standard quantize fits — caller has an unusual note in this
    // measure. Surface the first offender.
    let offset = events[0].offset;
    assert(events_view(events@)[0].offset == offset@);
    Err(
        SscError::UnrepresentableBeat {
            measure: measure as usize,
            num: offset.num(),
            den: offset.den(),
        },
    )
}

/// The contents of a list of rows.
pub open spec fn rows_view(rows: Seq<Vec<char>>) -> Seq<Seq<char>> {
    Seq::new(rows.len(), |i: int| rows[i]@)
}

/// The row of an event lies in the grid.
pub proof fn lemma_row_at(offset: (int, int), rows: int)
    requires
        0 <= offset.0 < 4 * offset.1,
        rows > 0,
    ensures
        0 <= row_at(offset, rows) < rows,
{
    let (a, b) = offset;
    assert(0 <= a * rows < (4 * b) * rows) by (nonlinear_arith)
        requires
            0 <= a < 4 * b,
            rows > 0,
    ;
    assert((4 * b) * rows == rows * (b * 4)) by (nonlinear_arith);
    vstd::arithmetic::div_mod::lemma_div_pos_is_pos(a * rows, b * 4);
    vstd::arithmetic::div_mod::lemma_multiply_divide_lt(a * rows, b * 4, rows);
}

/// The rows of a measure.
fn draw_rows(events: &Vec<GridEvent>, rows: u32, panel_count: usize) -> (grid: Vec<Vec<char>>)
    requires
        events_in_grid(events@, panel_count as int),
        4 <= rows <= 192,
    ensures
        rows_view(grid@) == measure_rows(events_view(events@), rows as int, panel_count as int),
{
    let ghost all = events_view(events@);
    let mut grid: Vec<Vec<char>> = Vec::new();
    let mut r: u32 = 0;
    while r < rows
        invariant
            r <= rows,
            grid@.len() == r,
            forall|i: int|
                0 <= i < r ==> (#[trigger] grid@[i])@ == Seq::new(panel_count as nat, |p: int| '0'),
        decreases rows - r,
    {
        let row: Vec<char> = vec!['0'; panel_count];
        assert(row@ =~= Seq::new(panel_count as nat, |p: int| '0'));
        grid.push(row);
        r = r + 1;
    }
    let mut k: usize = 0;
    proof {
        let want = measure_rows(all.subrange(0, 0), rows as int, panel_count as int);
        assert forall|i: int| 0 <= i < rows implies rows_view(grid@)[i] =~= #[trigger] want[i] by {}
        assert(rows_view(grid@) =~= want);
    }
    while k < events.len()
        invariant
            k <= events@.len(),
            4 <= rows <= 192,
            all == events_view(events@),
            events_in_grid(events@, panel_count as int),
            rows_view(grid@) == measure_rows(
                all.subrange(0, k as int),
                rows as int,
                panel_count as int,
            ),
        decreases events@.len() - k,
    {
        let e: GridEvent = events[k];
        let ghost done = all.subrange(0, k as int);
        let ghost now = all.subrange(0, k + 1);
        let offset = e.offset;
        proof {
            use_type_invariant(&offset);
            lemma_row_products(offset@, rows as int);
            assert(in_grid(events@[k as int]@, panel_count as int));
            lemma_row_at(offset@, rows as int);
            assert(now.drop_last() =~= done);
            assert(now.last() == e@);
        }
        let num: i128 = (offset.num() as i128) * (rows as i128);
        let den: i128 = (offset.den() as i128) * 4;
        let row: i128 = num / den;
        assert(row == row_at(offset@, rows as int));
        let row: usize = row as usize;
        let ghost before = grid@;
        assert(rows_view(before).len() == rows);
        assert(rows_view(before)[row as int].len() == panel_count);
        let mut line: Vec<char> = clone_row(&grid[row]);
        line.set(e.panel, e.c);
        let ghost drawn = line@;
        grid.set(row, line);
        proof {
            let want = measure_rows(now, rows as int, panel_count as int);
            assert forall|i: int| 0 <= i < rows implies rows_view(grid@)[i] =~= #[trigger] want[i] by {
                assert(rows_view(before)[i] == before[i]@);
                assert(want[i].len() == panel_count);
                assert forall|p: int| 0 <= p < panel_count implies rows_view(grid@)[i][p]
                    == want[i][p] by {
                    assert(want[i][p] == cell(now, rows as int, i, p));
                    assert(rows_view(before)[i][p] == cell(done, rows as int, i, p));
                }
            }
            assert(rows_view(grid@) =~= want);
        }
        k = k + 1;
    }
    assert(all.subrange(0, k as int) =~= all);
    grid
}

fn clone_row(row: &Vec<char>) -> (c: Vec<char>)
    ensures
        c@ == row@,
{
    let mut c: Vec<char> = Vec::new();
    let mut i: usize = 0;
    while i < row.len()
        invariant
            i <= row@.len(),
            c@ =~= row@.subrange(0, i as int),
        decreases row@.len() - i,
    {
        c.push(row[i]);
        i = i + 1;
    }
    assert(row@.subrange(0, i as int) =~= row@);
    c
}

/// Append the rows of a measure.
fn push_rows(out: &mut String, rows: &Vec<Vec<char>>)
    ensures
        final(out)@ == old(out)@ + rows_text(rows_view(rows@)),
{
    let ghost all = rows_view(rows@);
    let mut r: usize = 0;
    assert(out@ =~= old(out)@ + rows_text(all.subrange(0, 0)));
    while r < rows.len()
        invariant
            r <= rows@.len(),
            all == rows_view(rows@),
            out@ == old(out)@ + rows_text(all.subrange(0, r as int)),
        decreases rows@.len() - r,
    {
        let ghost start = out@;
        let row = &rows[r];
        let mut p: usize = 0;
        while p < row.len()
            invariant
                p <= row@.len(),
                out@ =~= start + row@.subrange(0, p as int),
            decreases row@.len() - p,
        {
            out.push(row[p]);
            p = p + 1;
        }
        out.push('\n');
        proof {
            let now = all.subrange(0, r + 1);
            assert(now.drop_last() =~= all.subrange(0, r as int));
            assert(now.last() == row@);
            assert(row@.subrange(0, p as int) =~= row@);
            assert(out@ =~= old(out)@ + rows_text(now));
        }
        r = r + 1;
    }
    assert(all.subrange(0, r as int) =~= all);
}

/// Everything that the notes of a chart draw, and the last measure reached.
fn chart_events(chart: &Chart) -> (r: Result<(Vec<GridEvent>, u64), SscError>)
    ensures
        match marks_from(chart.notes@, 0, chart.style, Seq::empty(), 0) {
            Err(e) => r is Err && r->Err_0@ == e,
            Ok((all, last)) => r is Ok && events_view((r->Ok_0).0@) == all && (r->Ok_0).1 == last
                && events_in_grid((r->Ok_0).0@, panels_of(chart.style)),
        },
{
    let mut events: Vec<GridEvent> = Vec::new();
    let mut last: u64 = 0;
    let mut i: usize = 0;
    assert(events_view(events@) =~= Seq::empty());
    while i < chart.notes.len()
        invariant
            i <= chart.notes@.len(),
            events_in_grid(events@, panels_of(chart.style)),
            marks_from(chart.notes@, 0, chart.style, Seq::empty(), 0) == marks_from(
                chart.notes@,
                i as int,
                chart.style,
                events_view(events@),
                last as int,
            ),
        decreases chart.notes@.len() - i,
    {
        match place_note_events(&chart.notes[i], chart.style, &mut events) {
            Ok(reach) => {
                last = max_of(last, reach);
            },
            Err(e) => {
                return Err(e);
            },
        }
        i = i + 1;
    }
    Ok((events, last))
}

/// Write just the grid body — used by `write_notedata` below and
/// reusable by callers that want the grid in isolation. Nothing is written
/// where the chart has no grid.
pub fn write_notes_body(chart: &Chart, out: &mut String) -> (r: Result<(), SscError>)
    ensures
        match body_written(chart@) {
            Ok(text) => r is Ok && final(out)@ == old(out)@ + text,
            Err(e) => r is Err && r->Err_0@ == e && final(out)@ == old(out)@,
        },
{
    let panel_count: usize = chart.style.panel_count() as usize;
    let ghost panels = panels_of(chart.style);
    let (events, last) = match chart_events(chart) {
        Ok(found) => found,
        Err(e) => {
            return Err(e);
        },
    };
    let ghost all = events_view(events@);
    let mut text = String::new();
    let ghost mut done: Seq<Seq<Seq<char>>> = Seq::empty();
    assert(text@ =~= grid_text(done));
    let mut measure: u64 = 0;
    let mut more = true;
    while more
        invariant
            measure <= last,
            more ==> measure == done.len(),
            panel_count == panels == panels_of(chart.style),
            events_in_grid(events@, panels),
            all == events_view(events@),
            out@ == old(out)@,
            grid_written(chart@) == grid_from(all, 0, last as int, panels, Seq::empty()),
            more ==> grid_from(all, 0, last as int, panels, Seq::empty()) == grid_from(
                all,
                measure as int,
                last as int,
                panels,
                done,
            ),
            !more ==> grid_from(all, 0, last as int, panels, Seq::empty()) == Ok::<
                Seq<Seq<Seq<char>>>,
                SscErrorView,
            >(done),
            text@ == grid_text(done),
        decreases last - measure, (if more { 1int } else { 0 }),
    {
        if measure > 0 {
            text.push(',');
            text.push('\n');
        }
        let ghost begun = text@;
        let here = events_of_measure(&events, measure, Ghost(panels));
        let rows: u32 = match pick_quantize(&here, measure, Ghost(panels)) {
            Ok(rows) => rows,
            Err(e) => {
                return Err(e);
            },
        };
        let grid = draw_rows(&here, rows, panel_count);
        push_rows(&mut text, &grid);
        proof {
            let next = done.push(rows_view(grid@));
            assert(next.drop_last() =~= done);
            assert(text@ =~= grid_text(next));
            done = next;
        }
        if measure < last {
            measure = measure + 1;
        } else {
            assert(grid_from(all, measure + 1, last as int, panels, done) == Ok::<
                Seq<Seq<Seq<char>>>,
                SscErrorView,
            >(done));
            more = false;
        }
    }
    out.append(text.as_str());
    Ok(())
}

fn stepstype_name(style: Style) -> (s: &'static str)
    ensures
        s@ == stepstype_text(style),
{
    match style {
        Style::Single => "dance-single",
        Style::Double => "dance-double",
    }
}

fn difficulty_name(d: Difficulty) -> (s: &'static str)
    ensures
        s@ == difficulty_text(d),
{
    match d {
        Difficulty::Beginner => "Beginner",
        Difficulty::Basic => "Easy",
        Difficulty::Difficult => "Medium",
        Difficulty::Expert => "Hard",
        Difficulty::Challenge => "Challenge",
    }
}

/// Append one tag line.
pub fn write_str_tag(out: &mut String, tag: &str, value: &str)
    ensures
        final(out)@ == old(out)@ + tag_text(tag@, value@),
{
    out.push('#');
    out.append(tag);
    out.push(':');
    out.append(value);
    out.push(';');
    out.push('\n');
    assert(out@ =~= old(out)@ + tag_text(tag@, value@));
}

/// Serialize one `Chart` as a complete `#NOTEDATA` section (opening
/// `#NOTEDATA:;` marker, per-chart tags, `#NOTES:…;` body). Nothing is written
/// where the chart has no grid.
pub fn write_notedata(chart: &Chart, out: &mut String) -> (r: Result<(), SscError>)
    ensures
        match notedata_written(chart@) {
            Ok(text) => r is Ok && final(out)@ == old(out)@ + text,
            Err(e) => r is Err && r->Err_0@ == e && final(out)@ == old(out)@,
        },
{
    let mut body = String::new();
    body.push('\n');
    assert(body@ =~= seq!['\n']);
    match write_notes_body(chart, &mut body) {
        Ok(()) => {},
        Err(e) => {
            return Err(e);
        },
    }
    proof {
        reveal_strlit("");
        assert(""@ =~= Seq::<char>::empty());
    }
    write_str_tag(out, "NOTEDATA", "");
    write_str_tag(out, "STEPSTYPE", stepstype_name(chart.style));
    write_str_tag(out, "DIFFICULTY", difficulty_name(chart.difficulty));
    write_str_tag(out, "NOTES", body.as_str());
    assert(out@ =~= old(out)@ + notedata_written(chart@)->Ok_0);
    Ok(())
}

} // verus!
