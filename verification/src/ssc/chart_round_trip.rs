//! Reading a written chart, measure by measure.

use super::drawing::{
    all_drawable, drawable, drawer, drawing, drawn_at, drawn_bits, draws, head_char,
    lemma_cell_drawn, lemma_drawing, lemma_in_measure, lemma_picked, lemma_tail, reach, tail_of,
};
use super::notes::{
    body_outcome, closed_outcome, empty_board, first_open, grid_outcome, measures_from, row_beat,
    rows_from, Board,
};
use super::round_trip::{
    beats_coarse, board_at, count, lemma_count_from, lemma_drawn_panels, lemma_holder_from,
    lemma_row, lemma_same_state, legible, passed, shows,
};
use super::rows::{
    lemma_moments_ordered, lemma_next_measure, lemma_no_beat_between, lemma_on_row_is_moment,
    moment,
};
use super::text_round_trip::{law_grid_text_round_trip, plain_grid, plain_row, plain_rows};
use super::writer::{
    body_written, cell, grid_from, grid_written, in_measure, larger, lemma_offset, mark, marks_from,
    measure_of, measure_rows, note_marks, offset_of, on_row, picked, Mark,
};
use super::SscErrorView;
use crate::model::rational::{is_lowest, lemma_lowest, lemma_lt_lowest, q_lt};
use crate::model::{has_panel, panels_of, ChartView, Note, Style};
use crate::util::chars::is_space;
use vstd::prelude::*;
use vstd::utf8::{encode_utf8, is_ascii_chars, is_ascii_chars_encode_utf8};

verus! {

/// The number of rows that a measure is drawn with.
pub open spec fn rows_in(notes: Seq<Note>, style: Style, m: int) -> int {
    picked(in_measure(drawing(notes, style), m), 0)->0
}

/// Whether the measures from `m` on are drawn from the marks.
pub open spec fn drawn_measures(all: Seq<Mark>, m: int, panels: int, grid: Seq<Seq<Seq<char>>>) -> bool {
    forall|i: int|
        m <= i < grid.len() ==> picked(in_measure(all, i), 0) is Some && #[trigger] grid[i]
            == measure_rows(in_measure(all, i), picked(in_measure(all, i), 0)->0, panels)
}

/// The measures that have been drawn stay as they are.
proof fn lemma_grid_from(
    all: Seq<Mark>,
    m: int,
    last: int,
    panels: int,
    done: Seq<Seq<Seq<char>>>,
    grid: Seq<Seq<Seq<char>>>,
)
    requires
        0 <= m <= last + 1,
        done.len() == m,
        grid_from(all, m, last, panels, done) == Ok::<Seq<Seq<Seq<char>>>, SscErrorView>(grid),
    ensures
        grid.len() == last + 1,
        grid.subrange(0, m) == done,
        drawn_measures(all, m, panels, grid),
    decreases last + 1 - m,
{
    if m <= last {
        let here = in_measure(all, m);
        let next = done.push(measure_rows(here, picked(here, 0)->0, panels));
        lemma_grid_from(all, m + 1, last, panels, next, grid);
        assert(grid.subrange(0, m + 1)[m] == next[m]);
        assert(grid[m] == next[m]);
        assert(picked(in_measure(all, m), 0) is Some);
        assert forall|i: int| m <= i < grid.len() implies picked(in_measure(all, i), 0) is Some by {
            let g = grid[i];
        }
        assert forall|i: int| m <= i < grid.len() implies #[trigger] grid[i] == measure_rows(
            in_measure(all, i),
            picked(in_measure(all, i), 0)->0,
            panels,
        ) by {}
        assert(grid.subrange(0, m) =~= done) by {
            assert forall|i: int| 0 <= i < m implies grid.subrange(0, m)[i] == done[i] by {
                assert(grid.subrange(0, m + 1)[i] == next[i]);
            }
        }
    } else {
        assert(grid.subrange(0, m) =~= done);
    }
}

proof fn lemma_reach_bound(notes: Seq<Note>, i: int, style: Style, drawn: Seq<Mark>, last: int, top: int)
    requires
        all_drawable(notes, style),
        0 <= i <= notes.len(),
        last <= top,
        forall|j: int|
            0 <= j < notes.len() ==> measure_of((#[trigger] notes[j]).beat@) <= top && (
            notes[j].kind is HoldHead ==> measure_of(tail_of(notes[j])) <= top),
        marks_from(notes, i, style, drawn, last) is Ok,
    ensures
        (marks_from(notes, i, style, drawn, last)->Ok_0).1 <= top,
    decreases notes.len() - i,
{
    if i < notes.len() {
        let note = notes[i];
        assert(drawable(note, style));
        if note.kind is HoldHead {
            lemma_tail(note, style);
        }
        let (more, reach) = note_marks(note, style)->Ok_0;
        lemma_reach_bound(notes, i + 1, style, drawn + more, larger(last, reach), top);
    }
}

/// Whether the notes of a chart are written as the measures of `grid`.
pub open spec fn drawn_as(notes: Seq<Note>, style: Style, grid: Seq<Seq<Seq<char>>>) -> bool {
    &&& legible(notes, style)
    &&& grid.len() == reach(notes, style) + 1
    &&& reach(notes, style) >= 0
    &&& reach(notes, style) <= 0x20_0000_0000_0000
    &&& drawn_measures(drawing(notes, style), 0, panels_of(style), grid)
}

/// A moment at which a note starts or ends falls on a row of its measure.
proof fn lemma_on_rows(
    notes: Seq<Note>,
    style: Style,
    grid: Seq<Seq<Seq<char>>>,
    i: int,
    tail: bool,
)
    requires
        drawn_as(notes, style, grid),
        0 <= i < notes.len(),
        tail ==> notes[i].kind is HoldHead,
    ensures
        ({
            let q = if tail {
                tail_of(notes[i])
            } else {
                notes[i].beat@
            };
            let m = measure_of(q);
            &&& is_lowest(q)
            &&& q.0 >= 0
            &&& 0 <= m < grid.len()
            &&& on_row(offset_of(q), rows_in(notes, style, m))
            &&& q.1 <= 192
        }),
{
    let note = notes[i];
    assert(drawable(note, style));
    let q = if tail {
        lemma_tail(note, style);
        tail_of(note)
    } else {
        note.beat@
    };
    let m = measure_of(q);
    lemma_offset(q);
    lemma_drawn_panels(note, style);
    let p = choose|p: u8| p < panels_of(style) && #[trigger] has_panel(drawn_bits(note, style), p);
    let c = if tail {
        '3'
    } else {
        head_char(note)
    };
    let mu = mark(q, p as int, c);
    assert(draws(note, style, mu));
    let all = drawing(notes, style);
    lemma_drawing(notes, style, mu);
    lemma_in_measure(all, m, mu);
    let here = in_measure(all, m);
    let g = grid[m];
    lemma_picked(here, 0);
    let k = choose|k: int| 0 <= k < here.len() && here[k] == mu;
    assert(on_row(here[k].offset, rows_in(notes, style, m)));
    let rows = rows_in(notes, style, m);
    lemma_on_row_is_moment(q, rows);
    let r = crate::ssc::writer::row_at(offset_of(q), rows);
    lemma_lowest((m * rows + r) * 4, rows);
}

/// A character that a grid is drawn with.
pub open spec fn is_drawn_char(c: char) -> bool {
    c == '0' || c == '1' || c == '2' || c == '3' || c == 'M'
}

/// Whether a row is drawn with these characters only.
pub open spec fn drawn_row(row: Seq<char>) -> bool {
    forall|p: int| 0 <= p < row.len() ==> is_drawn_char(#[trigger] row[p])
}

/// Whether every row of a grid is.
pub open spec fn drawn_grid(grid: Seq<Seq<Seq<char>>>) -> bool {
    forall|m: int, r: int|
        0 <= m < grid.len() && 0 <= r < grid[m].len() ==> drawn_row(#[trigger] grid[m][r])
}

/// A row of the grid shows what the notes draw at its moment, and is plain text.
proof fn lemma_row_shows(
    notes: Seq<Note>,
    style: Style,
    grid: Seq<Seq<Seq<char>>>,
    m: int,
    r: int,
)
    requires
        drawn_as(notes, style, grid),
        0 <= m < grid.len(),
        0 <= r < rows_in(notes, style, m),
    ensures
        grid[m].len() == rows_in(notes, style, m),
        4 <= rows_in(notes, style, m) <= 192,
        shows(notes, style, moment(m, r, rows_in(notes, style, m)), grid[m][r]),
        plain_row(grid[m][r]),
        drawn_row(grid[m][r]),
        encode_utf8(grid[m][r]).len() == panels_of(style),
{
    let rows = rows_in(notes, style, m);
    let here = in_measure(drawing(notes, style), m);
    let g = grid[m];
    lemma_picked(here, 0);
    let row = g[r];
    let t = moment(m, r, rows);
    assert forall|p: int|
        #![trigger row[p]]
        0 <= p < row.len() implies {
        ||| (exists|i: int| #[trigger]
            drawer(notes, style, t, p, i) && drawn_at(notes[i], style, t, p) == Some(row[p]))
        ||| (row[p] == '0' && forall|i: int| !#[trigger] drawer(notes, style, t, p, i))
    } by {
        lemma_cell_drawn(notes, style, m, rows, r, p);
        assert(row[p] == cell(here, rows, r, p));
    }
    assert forall|p: int| 0 <= p < row.len() implies !is_space(#[trigger] row[p]) && row[p] != ','
        && is_drawn_char(row[p]) by {
        lemma_cell_drawn(notes, style, m, rows, r, p);
        let c = row[p];
        assert(c == cell(here, rows, r, p));
        if exists|i: int| #[trigger]
            drawer(notes, style, t, p, i) && drawn_at(notes[i], style, t, p) == Some(c) {
            let i = choose|i: int| #[trigger]
                drawer(notes, style, t, p, i) && drawn_at(notes[i], style, t, p) == Some(c);
            assert(c == '3' || c == head_char(notes[i]));
        }
    }
    assert(is_ascii_chars(row));
    is_ascii_chars_encode_utf8(row);
}

/// The beats of a drawn chart have small denominators.
proof fn lemma_coarse(notes: Seq<Note>, style: Style, grid: Seq<Seq<Seq<char>>>)
    requires
        drawn_as(notes, style, grid),
    ensures
        beats_coarse(notes),
{
    assert forall|i: int| 0 <= i < notes.len() implies (#[trigger] notes[i]).beat@.1 <= 192 by {
        lemma_on_rows(notes, style, grid, i, false);
    }
}

/// Reading the rows of a measure from `r` on brings the board to the next
/// measure.
proof fn lemma_rows_from(
    notes: Seq<Note>,
    style: Style,
    grid: Seq<Seq<Seq<char>>>,
    m: int,
    r: int,
)
    requires
        drawn_as(notes, style, grid),
        0 <= m < grid.len(),
        0 <= r <= rows_in(notes, style, m),
    ensures
        ({
            let rows = rows_in(notes, style, m);
            rows_from(
                grid[m],
                r,
                m,
                style,
                board_at(notes, style, moment(m, r, rows), false),
            ) == Ok::<Board, SscErrorView>(board_at(notes, style, moment(m, rows, rows), false))
        }),
    decreases rows_in(notes, style, m) - r,
{
    let rows = rows_in(notes, style, m);
    let here = in_measure(drawing(notes, style), m);
    let g = grid[m];
    lemma_picked(here, 0);
    assert(g.len() == rows);
    if r < rows {
        let t = moment(m, r, rows);
        let u = moment(m, r + 1, rows);
        lemma_row_shows(notes, style, grid, m, r);
        lemma_coarse(notes, style, grid);
        lemma_moments_ordered(m, r, r + 1, rows);
        lemma_moments_ordered(m, r + 1, r, rows);
        let x = (m * rows + r) * 4;
        lemma_lowest(x, rows);
        assert(0 <= x <= (0x20_0000_0000_0000 + 1) * 768) by (nonlinear_arith)
            requires
                x == (m * rows + r) * 4,
                0 <= m <= 0x20_0000_0000_0000,
                0 <= r < rows <= 192,
        ;
        assert(row_beat(m, r, rows) == Some(t));
        lemma_row(notes, style, t, g[r], m, r, rows);
        assert forall|i: int| 0 <= i < notes.len() implies (passed(
            (#[trigger] notes[i]).beat@,
            t,
            true,
        ) <==> passed(notes[i].beat@, u, false)) && (notes[i].kind is HoldHead ==> (passed(
            tail_of(notes[i]),
            t,
            true,
        ) <==> passed(tail_of(notes[i]), u, false))) by {
            lemma_on_rows(notes, style, grid, i, false);
            lemma_no_beat_between(notes[i].beat@, m, r, rows);
            if notes[i].kind is HoldHead {
                lemma_on_rows(notes, style, grid, i, true);
                lemma_no_beat_between(tail_of(notes[i]), m, r, rows);
            }
        }
        lemma_same_state(notes, style, t, u);
        lemma_rows_from(notes, style, grid, m, r + 1);
    }
}

/// Reading the measures from `m` on brings the board to the end.
proof fn lemma_measures_from(
    notes: Seq<Note>,
    style: Style,
    grid: Seq<Seq<Seq<char>>>,
    m: int,
)
    requires
        drawn_as(notes, style, grid),
        0 <= m <= grid.len(),
    ensures
        measures_from(grid, m, style, board_at(notes, style, moment(m, 0, 4), false)) == Ok::<
            Board,
            SscErrorView,
        >(board_at(notes, style, moment(grid.len() as int, 0, 4), false)),
    decreases grid.len() - m,
{
    if m < grid.len() {
        let rows = rows_in(notes, style, m);
        let g = grid[m];
        lemma_picked(in_measure(drawing(notes, style), m), 0);
        lemma_rows_from(notes, style, grid, m, 0);
        lemma_next_measure(m - 1, rows, rows);
        lemma_next_measure(m - 1, rows, 4);
        lemma_next_measure(m, rows, 4);
        lemma_measures_from(notes, style, grid, m + 1);
    }
}

proof fn lemma_none_open(open: Seq<Option<int>>, p: int)
    requires
        0 <= p,
        forall|q: int| 0 <= q < open.len() ==> #[trigger] open[q] is None,
    ensures
        first_open(open, p) is None,
    decreases open.len() - p,
{
    if p < open.len() {
        lemma_none_open(open, p + 1);
    }
}

/// Before the first row nothing is known, and behind the last one everything.
proof fn lemma_ends(notes: Seq<Note>, style: Style, grid: Seq<Seq<Seq<char>>>)
    requires
        drawn_as(notes, style, grid),
    ensures
        board_at(notes, style, moment(0, 0, 4), false) == empty_board(style),
        closed_outcome(board_at(notes, style, moment(grid.len() as int, 0, 4), false)) == Ok::<
            Seq<Note>,
            SscErrorView,
        >(notes),
{
    let s = moment(0, 0, 4);
    let e = moment(grid.len() as int, 0, 4);
    let n = grid.len() as int;
    lemma_moments_ordered(0, 0, 0, 4);
    lemma_moments_ordered(n, 0, 0, 4);
    lemma_count_from(notes, style, s, false, 0);
    lemma_count_from(notes, style, e, false, 0);
    let first = board_at(notes, style, s, false);
    let last = board_at(notes, style, e, false);
    assert forall|i: int| 0 <= i < notes.len() implies !passed(
        (#[trigger] notes[i]).beat@,
        s,
        false,
    ) && passed(notes[i].beat@, e, false) && (notes[i].kind is HoldHead ==> passed(
        tail_of(notes[i]),
        e,
        false,
    )) by {
        let q = notes[i].beat@;
        lemma_on_rows(notes, style, grid, i, false);
        lemma_lt_lowest(0, 4, q);
        lemma_before_measure(q, n);
        if notes[i].kind is HoldHead {
            lemma_on_rows(notes, style, grid, i, true);
            lemma_before_measure(tail_of(notes[i]), n);
        }
    }
    if count(notes, s, false, 0) > 0 {
        assert(passed(notes[0].beat@, s, false));
    }
    if count(notes, e, false, 0) < notes.len() {
        let i = count(notes, e, false, 0);
        assert(passed(notes[i].beat@, e, false));
    }
    assert forall|p: int| 0 <= p < panels_of(style) implies first.open[p] is None && last.open[p] is None by {
        lemma_holder_from(notes, s, false, p, 0);
        lemma_holder_from(notes, e, false, p, 0);
    }
    assert(first.notes =~= empty_board(style).notes);
    assert(first.open =~= empty_board(style).open);
    assert(last.notes =~= notes);
    lemma_none_open(last.open, 0);
}

/// A beat comes before the measures behind its own.
proof fn lemma_before_measure(q: (int, int), n: int)
    requires
        is_lowest(q),
        q.0 >= 0,
        measure_of(q) < n,
    ensures
        q_lt(q, moment(n, 0, 4)),
{
    let (x, d) = q;
    let m = measure_of(q);
    lemma_offset(q);
    lemma_lt_lowest((n * 4 + 0) * 4, 4, q);
    assert(x * 4 < ((n * 4 + 0) * 4) * d) by (nonlinear_arith)
        requires
            x - 4 * m * d < 4 * d,
            m + 1 <= n,
            d > 0,
    {
        assert(4 * (m + 1) * d <= 4 * n * d) by (nonlinear_arith)
            requires
                m + 1 <= n,
                d > 0,
        ;
        assert(4 * (m + 1) * d == 4 * m * d + 4 * d) by (nonlinear_arith);
        assert(((n * 4 + 0) * 4) * d == (4 * n * d) * 4) by (nonlinear_arith);
    }
}

/// Whether no note lies so far behind that its rows could not be counted.
pub open spec fn within_reach(notes: Seq<Note>) -> bool {
    forall|i: int|
        0 <= i < notes.len() ==> measure_of((#[trigger] notes[i]).beat@) <= 0x20_0000_0000_0000 && (
        notes[i].kind is HoldHead ==> measure_of(tail_of(notes[i])) <= 0x20_0000_0000_0000)
}

proof fn lemma_written_grid(chart: ChartView)
    requires
        legible(chart.notes, chart.style),
        within_reach(chart.notes),
        grid_written(chart) is Ok,
    ensures
        drawn_as(chart.notes, chart.style, grid_written(chart)->Ok_0),
{
    let notes = chart.notes;
    let style = chart.style;
    lemma_drawing(notes, style, mark((0, 1), 0, '0'));
    lemma_reach_bound(notes, 0, style, Seq::empty(), 0, 0x20_0000_0000_0000);
    lemma_grid_from(
        drawing(notes, style),
        0,
        reach(notes, style),
        panels_of(style),
        Seq::empty(),
        grid_written(chart)->Ok_0,
    );
}

/// Writing a legible chart as a note grid and reading the grid gives the notes
/// back.
pub proof fn law_chart_round_trip(chart: ChartView)
    requires
        legible(chart.notes, chart.style),
        within_reach(chart.notes),
        grid_written(chart) is Ok,
    ensures
        grid_outcome(grid_written(chart)->Ok_0, chart.style) == Ok::<Seq<Note>, SscErrorView>(
            chart.notes,
        ),
        plain_grid(grid_written(chart)->Ok_0),
        drawn_grid(grid_written(chart)->Ok_0),
{
    let notes = chart.notes;
    let style = chart.style;
    let grid = grid_written(chart)->Ok_0;
    lemma_written_grid(chart);
    lemma_ends(notes, style, grid);
    lemma_measures_from(notes, style, grid, 0);
    assert forall|m: int| 0 <= m < grid.len() implies plain_rows(#[trigger] grid[m]) by {
        let g = grid[m];
        lemma_picked(in_measure(drawing(notes, style), m), 0);
        assert(grid[m].len() == rows_in(notes, style, m));
        assert forall|r: int| 0 <= r < grid[m].len() implies plain_row(#[trigger] grid[m][r]) by {
            lemma_row_shows(notes, style, grid, m, r);
        }
    }
    assert forall|m: int, r: int| 0 <= m < grid.len() && 0 <= r < grid[m].len() implies drawn_row(
        #[trigger] grid[m][r],
    ) by {
        let g = grid[m];
        lemma_picked(in_measure(drawing(notes, style), m), 0);
        lemma_row_shows(notes, style, grid, m, r);
    }
}

/// Writing the notes of a legible chart as a `#NOTES` body and reading the body
/// gives the notes back, with or without a line break before it.
pub proof fn law_notes_body_round_trip(chart: ChartView, led: bool)
    requires
        legible(chart.notes, chart.style),
        within_reach(chart.notes),
        body_written(chart) is Ok,
    ensures
        ({
            let head: Seq<char> = if led {
                seq!['\n']
            } else {
                Seq::empty()
            };
            body_outcome(head + body_written(chart)->Ok_0, chart.style) == Ok::<
                Seq<Note>,
                SscErrorView,
            >(chart.notes)
        }),
{
    law_chart_round_trip(chart);
    law_grid_text_round_trip(grid_written(chart)->Ok_0, led);
}

} // verus!
