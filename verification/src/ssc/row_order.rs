//! The order that notes have when they are read from a note grid.
//!
//! A stepfile lists the mines of a tick behind its other notes and gives a shock
//! its panels. A note grid gives the mines of a row first, and a shock has no
//! panels of its own. What is drawn is the same.

use super::drawing::{
    all_drawable, drawable, drawer, drawing, drawn_at, drawn_from, draws, lemma_cell_drawn,
    lemma_drawing, lemma_in_measure, lemma_picked, reach, tail_of,
};
use super::round_trip::{legible, lemma_one_drawer};
use super::rows::moment;
use super::writer::{
    all_on_rows, body_written, cell, grid_from, grid_written, in_measure, larger, mark, marks_from,
    measure_of, measure_rows, note_marks, notedata_written, picked, quantize, Mark,
};
use super::{header_text, sections_from, ssc_written};
use crate::model::{panels_of, ChartView, Note, PanelSet, SongView, Style};
use vstd::prelude::*;

verus! {

/// A note without the panels of a shock.
pub open spec fn unmarked(note: Note) -> Note {
    if note.kind is Shock {
        Note { panels: PanelSet::of(0), ..note }
    } else {
        note
    }
}

/// `s` with `x` behind it, a mine in front of the other notes of its beat.
pub open spec fn row_placed(s: Seq<Note>, x: Note) -> Seq<Note>
    decreases s.len(),
{
    if x.kind is Mine && s.len() > 0 && !(s.last().kind is Mine) && s.last().beat == x.beat {
        row_placed(s.drop_last(), x).push(s.last())
    } else {
        s.push(x)
    }
}

/// Notes in the order and form that a note grid gives them.
pub open spec fn row_ordered(notes: Seq<Note>) -> Seq<Note>
    decreases notes.len(),
{
    if notes.len() == 0 {
        notes
    } else {
        row_placed(row_ordered(notes.drop_last()), unmarked(notes.last()))
    }
}

/// A chart as a note grid gives it.
pub open spec fn row_ordered_chart(chart: ChartView) -> ChartView {
    ChartView { notes: row_ordered(chart.notes), ..chart }
}

/// Charts as note grids give them.
pub open spec fn row_ordered_charts(charts: Seq<ChartView>) -> Seq<ChartView> {
    Seq::new(charts.len(), |i: int| row_ordered_chart(charts[i]))
}

/// A song as a simfile gives it.
pub open spec fn row_ordered_song(song: SongView) -> SongView {
    SongView { charts: row_ordered_charts(song.charts), ..song }
}

proof fn lemma_placed_contains(s: Seq<Note>, x: Note, n: Note)
    ensures
        row_placed(s, x).contains(n) <==> s.contains(n) || n == x,
    decreases s.len(),
{
    let all = row_placed(s, x);
    if x.kind is Mine && s.len() > 0 && !(s.last().kind is Mine) && s.last().beat == x.beat {
        let init = s.drop_last();
        lemma_placed_contains(init, x, n);
        let rest = row_placed(init, x);
        lemma_push_contains(rest, s.last(), n);
        lemma_push_contains(init, s.last(), n);
        assert(init.push(s.last()) =~= s);
    } else {
        lemma_push_contains(s, x, n);
    }
}

proof fn lemma_push_contains(s: Seq<Note>, x: Note, n: Note)
    ensures
        s.push(x).contains(n) <==> s.contains(n) || n == x,
{
    let all = s.push(x);
    if s.contains(n) {
        let k = choose|k: int| 0 <= k < s.len() && s[k] == n;
        assert(all[k] == n);
    }
    assert(all[s.len() as int] == x);
    if all.contains(n) {
        let k = choose|k: int| 0 <= k < all.len() && all[k] == n;
        if k < s.len() {
            assert(s[k] == n);
        }
    }
}

/// The notes without the panels of shocks.
spec fn all_unmarked(notes: Seq<Note>) -> Seq<Note> {
    Seq::new(notes.len(), |i: int| unmarked(notes[i]))
}

/// Ordering keeps the notes.
proof fn lemma_ordered_contains(notes: Seq<Note>, n: Note)
    ensures
        row_ordered(notes).contains(n) <==> all_unmarked(notes).contains(n),
    decreases notes.len(),
{
    if notes.len() > 0 {
        let init = notes.drop_last();
        lemma_ordered_contains(init, n);
        lemma_placed_contains(row_ordered(init), unmarked(notes.last()), n);
        lemma_push_contains(all_unmarked(init), unmarked(notes.last()), n);
        assert(all_unmarked(init).push(unmarked(notes.last())) =~= all_unmarked(notes));
    } else {
        assert(all_unmarked(notes) =~= notes);
    }
}

/// A shock draws the same without its panels.
proof fn lemma_unmarked_draws(
    notes: Seq<Note>,
    i: int,
    style: Style,
    drawn: Seq<Mark>,
    last: int,
)
    requires
        0 <= i <= notes.len(),
    ensures
        marks_from(all_unmarked(notes), i, style, drawn, last) == marks_from(
            notes,
            i,
            style,
            drawn,
            last,
        ),
    decreases notes.len() - i,
{
    if i < notes.len() {
        assert(note_marks(unmarked(notes[i]), style) == note_marks(notes[i], style));
        if let Ok((more, top)) = note_marks(notes[i], style) {
            lemma_unmarked_draws(notes, i + 1, style, drawn + more, larger(last, top));
        }
    }
}

/// Whether a note starts or ends in a measure.
spec fn touches(note: Note, m: int) -> bool {
    measure_of(note.beat@) == m || (note.kind is HoldHead && measure_of(tail_of(note)) == m)
}

/// The last measure is one that a note touches.
proof fn lemma_reach_touched(
    notes: Seq<Note>,
    i: int,
    style: Style,
    drawn: Seq<Mark>,
    last: int,
)
    requires
        all_drawable(notes, style),
        0 <= i <= notes.len(),
        marks_from(notes, i, style, drawn, last) is Ok,
    ensures
        ({
            let top = (marks_from(notes, i, style, drawn, last)->Ok_0).1;
            top == last || exists|j: int| i <= j < notes.len() && touches(#[trigger] notes[j], top)
        }),
    decreases notes.len() - i,
{
    if i < notes.len() {
        assert(drawable(notes[i], style));
        let (more, to) = note_marks(notes[i], style)->Ok_0;
        if notes[i].kind is HoldHead {
            super::drawing::lemma_tail(notes[i], style);
        }
        assert(touches(notes[i], to));
        lemma_reach_touched(notes, i + 1, style, drawn + more, larger(last, to));
        let top = (marks_from(notes, i, style, drawn, last)->Ok_0).1;
        if top == to {
            assert(touches(notes[i], top));
        }
    }
}

/// Whether two lists hold the same notes.
spec fn same_notes(a: Seq<Note>, b: Seq<Note>) -> bool {
    forall|n: Note| #[trigger] a.contains(n) <==> b.contains(n)
}

proof fn lemma_same_reach(a: Seq<Note>, b: Seq<Note>, style: Style)
    requires
        all_drawable(a, style),
        all_drawable(b, style),
        same_notes(a, b),
    ensures
        reach(a, style) <= reach(b, style),
{
    lemma_drawing(a, style, mark((0, 1), 0, '0'));
    lemma_drawing(b, style, mark((0, 1), 0, '0'));
    lemma_reach_touched(a, 0, style, Seq::empty(), 0);
    let top = reach(a, style);
    if top != 0 {
        let j = choose|j: int| 0 <= j < a.len() && touches(#[trigger] a[j], top);
        assert(a.contains(a[j]));
        assert(b.contains(a[j]));
        let k = choose|k: int| 0 <= k < b.len() && b[k] == a[j];
        assert(touches(b[k], top));
    }
}

/// The same notes draw the same marks.
proof fn lemma_same_marks(a: Seq<Note>, b: Seq<Note>, style: Style, mu: Mark)
    requires
        all_drawable(a, style),
        all_drawable(b, style),
        same_notes(a, b),
    ensures
        drawing(a, style).contains(mu) ==> drawing(b, style).contains(mu),
{
    lemma_drawing(a, style, mu);
    lemma_drawing(b, style, mu);
    if drawn_from(a, style, 0, mu) {
        let j = choose|j: int| 0 <= j < a.len() && draws(#[trigger] a[j], style, mu);
        assert(a.contains(a[j]));
        assert(b.contains(a[j]));
        let k = choose|k: int| 0 <= k < b.len() && b[k] == a[j];
        assert(draws(b[k], style, mu));
    }
}

/// The marks of one measure fall on the same rows.
proof fn lemma_same_rows(a: Seq<Note>, b: Seq<Note>, style: Style, m: int, rows: int)
    requires
        all_drawable(a, style),
        all_drawable(b, style),
        same_notes(a, b),
        all_on_rows(in_measure(drawing(b, style), m), rows),
    ensures
        all_on_rows(in_measure(drawing(a, style), m), rows),
{
    let x = in_measure(drawing(a, style), m);
    let y = in_measure(drawing(b, style), m);
    assert forall|i: int| 0 <= i < x.len() implies super::writer::on_row(
        (#[trigger] x[i]).offset,
        rows,
    ) by {
        let mu = x[i];
        assert(x.contains(mu));
        lemma_in_measure(drawing(a, style), m, mu);
        lemma_same_marks(a, b, style, mu);
        lemma_in_measure(drawing(b, style), m, mu);
        let k = choose|k: int| 0 <= k < y.len() && y[k] == mu;
        assert(super::writer::on_row(y[k].offset, rows));
    }
}

proof fn lemma_same_picked(a: Seq<Note>, b: Seq<Note>, style: Style, m: int, k: int)
    requires
        all_drawable(a, style),
        all_drawable(b, style),
        same_notes(a, b),
        0 <= k,
    ensures
        picked(in_measure(drawing(a, style), m), k) == picked(in_measure(drawing(b, style), m), k),
    decreases 10 - k,
{
    if k < 10 {
        if all_on_rows(in_measure(drawing(b, style), m), quantize(k)) {
            lemma_same_rows(a, b, style, m, quantize(k));
        }
        if all_on_rows(in_measure(drawing(a, style), m), quantize(k)) {
            lemma_same_rows(b, a, style, m, quantize(k));
        }
        lemma_same_picked(a, b, style, m, k + 1);
    }
}

/// A cell shows the same character, whatever the order of the notes.
proof fn lemma_same_cell(a: Seq<Note>, b: Seq<Note>, style: Style, m: int, rows: int, r: int, p: int)
    requires
        legible(b, style),
        all_drawable(a, style),
        same_notes(a, b),
        m >= 0,
        rows > 0,
        0 <= r < rows,
        0 <= p < panels_of(style),
        all_on_rows(in_measure(drawing(a, style), m), rows),
        all_on_rows(in_measure(drawing(b, style), m), rows),
    ensures
        cell(in_measure(drawing(a, style), m), rows, r, p) == cell(
            in_measure(drawing(b, style), m),
            rows,
            r,
            p,
        ),
{
    let t = moment(m, r, rows);
    let ca = cell(in_measure(drawing(a, style), m), rows, r, p);
    let cb = cell(in_measure(drawing(b, style), m), rows, r, p);
    lemma_cell_drawn(a, style, m, rows, r, p);
    lemma_cell_drawn(b, style, m, rows, r, p);
    if exists|i: int| #[trigger]
        drawer(a, style, t, p, i) && drawn_at(a[i], style, t, p) == Some(ca) {
        let i = choose|i: int| #[trigger]
            drawer(a, style, t, p, i) && drawn_at(a[i], style, t, p) == Some(ca);
        assert(a.contains(a[i]));
        assert(b.contains(a[i]));
        let k = choose|k: int| 0 <= k < b.len() && b[k] == a[i];
        assert(drawer(b, style, t, p, k));
        let j = choose|j: int| #[trigger]
            drawer(b, style, t, p, j) && drawn_at(b[j], style, t, p) == Some(cb);
        lemma_one_drawer(b, style, t, p, k, j);
    } else {
        assert forall|j: int| !#[trigger] drawer(b, style, t, p, j) by {
            if drawer(b, style, t, p, j) {
                assert(b.contains(b[j]));
                assert(a.contains(b[j]));
                let k = choose|k: int| 0 <= k < a.len() && a[k] == b[j];
                assert(drawer(a, style, t, p, k));
            }
        }
    }
}

/// The measures from `m` on, drawn in either order.
proof fn lemma_same_grid(
    a: Seq<Note>,
    b: Seq<Note>,
    style: Style,
    m: int,
    last: int,
    done: Seq<Seq<Seq<char>>>,
)
    requires
        legible(b, style),
        all_drawable(a, style),
        same_notes(a, b),
        m >= 0,
        grid_from(drawing(b, style), m, last, panels_of(style), done) is Ok,
    ensures
        grid_from(drawing(a, style), m, last, panels_of(style), done) == grid_from(
            drawing(b, style),
            m,
            last,
            panels_of(style),
            done,
        ),
    decreases last + 1 - m,
{
    if m <= last {
        let x = in_measure(drawing(a, style), m);
        let y = in_measure(drawing(b, style), m);
        lemma_same_picked(a, b, style, m, 0);
        lemma_picked(y, 0);
        let rows = picked(y, 0)->0;
        lemma_same_rows(a, b, style, m, rows);
        let panels = panels_of(style);
        assert forall|r: int| 0 <= r < rows implies #[trigger] measure_rows(x, rows, panels)[r]
            == measure_rows(y, rows, panels)[r] by {
            assert forall|p: int| 0 <= p < panels implies measure_rows(x, rows, panels)[r][p]
                == measure_rows(y, rows, panels)[r][p] by {
                lemma_same_cell(a, b, style, m, rows, r, p);
            }
            assert(measure_rows(x, rows, panels)[r] =~= measure_rows(y, rows, panels)[r]);
        }
        assert(measure_rows(x, rows, panels) =~= measure_rows(y, rows, panels));
        lemma_same_grid(a, b, style, m + 1, last, done.push(measure_rows(y, rows, panels)));
    }
}

/// The order of a row's notes does not show in the grid.
pub proof fn lemma_same_body(chart: ChartView)
    requires
        legible(row_ordered(chart.notes), chart.style),
        body_written(row_ordered_chart(chart)) is Ok,
    ensures
        body_written(chart) == body_written(row_ordered_chart(chart)),
{
    let a = all_unmarked(chart.notes);
    let b = row_ordered(chart.notes);
    let style = chart.style;
    assert forall|n: Note| #[trigger] a.contains(n) <==> b.contains(n) by {
        lemma_ordered_contains(chart.notes, n);
    }
    assert forall|i: int| 0 <= i < a.len() implies drawable(#[trigger] a[i], style) by {
        assert(a.contains(a[i]));
        assert(b.contains(a[i]));
        let k = choose|k: int| 0 <= k < b.len() && b[k] == a[i];
        assert(drawable(b[k], style));
    }
    lemma_unmarked_draws(chart.notes, 0, style, Seq::empty(), 0);
    lemma_drawing(a, style, mark((0, 1), 0, '0'));
    lemma_drawing(b, style, mark((0, 1), 0, '0'));
    lemma_same_reach(a, b, style);
    lemma_same_reach(b, a, style);
    assert(grid_written(row_ordered_chart(chart)) is Ok);
    lemma_same_grid(a, b, style, 0, reach(b, style), Seq::empty());
}

/// The sections of the charts from `i` on, with the notes in either order.
proof fn lemma_same_sections(charts: Seq<ChartView>, i: int, done: Seq<char>)
    requires
        0 <= i <= charts.len(),
        forall|k: int|
            0 <= k < charts.len() ==> legible(
                row_ordered((#[trigger] charts[k]).notes),
                charts[k].style,
            ),
        sections_from(row_ordered_charts(charts), i, done) is Ok,
    ensures
        sections_from(charts, i, done) == sections_from(row_ordered_charts(charts), i, done),
    decreases charts.len() - i,
{
    if i < charts.len() {
        assert(legible(row_ordered(charts[i].notes), charts[i].style));
        assert(row_ordered_charts(charts)[i] == row_ordered_chart(charts[i]));
        assert(notedata_written(row_ordered_chart(charts[i])) is Ok);
        assert(body_written(row_ordered_chart(charts[i])) is Ok);
        lemma_same_body(charts[i]);
        lemma_same_sections(
            charts,
            i + 1,
            done + notedata_written(row_ordered_chart(charts[i]))->Ok_0,
        );
    }
}

/// A simfile does not show in which order a chart listed the notes of a row, nor
/// the panels that it gave a shock.
pub proof fn law_simfile_hides_note_order(song: SongView)
    requires
        forall|k: int|
            0 <= k < song.charts.len() ==> legible(
                row_ordered((#[trigger] song.charts[k]).notes),
                song.charts[k].style,
            ),
        ssc_written(row_ordered_song(song)) is Ok,
    ensures
        ssc_written(song) == ssc_written(row_ordered_song(song)),
{
    assert(header_text(row_ordered_song(song)) == header_text(song));
    lemma_same_sections(song.charts, 0, header_text(song));
}

} // verus!
