//! The notes of a parsed chart come in the order of their beats, and its holds
//! take time.

use super::notes::{
    body_outcome, cell_outcome, cells_from, empty_board, grid_of, measures_from, row_beat,
    row_outcome, rows_from, with_hits, with_mines, Board,
};
use super::rows::{lemma_moments_ordered, lemma_next_measure, moment};
use crate::model::rational::{is_lowest, law_order_is_total, lemma_lowest, q_fits, q_lt, sub_value};
use crate::model::{group_model_values, Beat, Note, NoteKind, Style};
use vstd::prelude::*;

verus! {

/// Whether notes come in the order of their beats.
pub open spec fn in_beat_order(notes: Seq<Note>) -> bool {
    forall|i: int, j: int|
        0 <= i < j < notes.len() ==> !q_lt((#[trigger] notes[j]).beat@, (#[trigger] notes[i]).beat@)
}

/// Whether notes come in order, all before `t`, or at it where that counts.
spec fn ordered_until(notes: Seq<Note>, t: (int, int), at: bool) -> bool {
    &&& in_beat_order(notes)
    &&& forall|i: int|
        0 <= i < notes.len() ==> is_lowest((#[trigger] notes[i]).beat@) && (q_lt(
            notes[i].beat@,
            t,
        ) || (at && notes[i].beat@ == t))
}

/// Open holds start at notes.
pub open spec fn holds_known(board: Board) -> bool {
    forall|p: int|
        0 <= p < board.open.len() && #[trigger] board.open[p] is Some ==> 0 <= board.open[p]->0
            < board.notes.len()
}

proof fn lemma_push(notes: Seq<Note>, note: Note, t: (int, int), at: bool)
    requires
        ordered_until(notes, t, at),
        is_lowest(t),
        note.beat@ == t,
    ensures
        ordered_until(notes.push(note), t, true),
{
    let all = notes.push(note);
    assert forall|i: int, j: int| 0 <= i < j < all.len() implies !q_lt(
        (#[trigger] all[j]).beat@,
        (#[trigger] all[i]).beat@,
    ) by {
        assert(all[i] == notes[i]);
        if j == notes.len() {
            law_order_is_total(notes[i].beat@, t, t);
        } else {
            assert(all[j] == notes[j]);
        }
    }
    assert forall|i: int| 0 <= i < all.len() implies is_lowest((#[trigger] all[i]).beat@) && (q_lt(
        all[i].beat@,
        t,
    ) || all[i].beat@ == t) by {
        if i < notes.len() {
            assert(all[i] == notes[i]);
        }
    }
}

pub proof fn lemma_cells_keep_beats(
    text: Seq<char>,
    p: int,
    beat: (int, int),
    m: int,
    r: int,
    board: Board,
)
    requires
        0 <= p,
        text.len() <= board.open.len(),
        holds_known(board),
        cells_from(text, p, beat, m, r, board) is Ok,
    ensures
        ({
            let next = cells_from(text, p, beat, m, r, board)->Ok_0;
            &&& next.notes.len() == board.notes.len()
            &&& next.open.len() == board.open.len()
            &&& holds_known(next)
            &&& forall|i: int|
                0 <= i < board.notes.len() ==> (#[trigger] next.notes[i]).beat == board.notes[i].beat
        }),
    decreases text.len() - p,
{
    if p < text.len() {
        let step = cell_outcome(text[p], p, beat, m, r, board)->Ok_0;
        assert(holds_known(step)) by {
            assert forall|q: int| 0 <= q < step.open.len() && #[trigger] step.open[q] is Some implies 0
                <= step.open[q]->0 < step.notes.len() by {
                assert(board.open[q] == step.open[q]);
            }
        }
        assert forall|i: int| 0 <= i < board.notes.len() implies (#[trigger] step.notes[i]).beat
            == board.notes[i].beat by {}
        lemma_cells_keep_beats(text, p + 1, beat, m, r, step);
        let next = cells_from(text, p, beat, m, r, board)->Ok_0;
        assert forall|i: int| 0 <= i < board.notes.len() implies (#[trigger] next.notes[i]).beat
            == board.notes[i].beat by {
            assert(next.notes[i].beat == step.notes[i].beat);
        }
    }
}

/// Whether every hold takes time.
pub open spec fn holds_last(notes: Seq<Note>) -> bool {
    forall|i: int|
        0 <= i < notes.len() ==> match (#[trigger] notes[i]).kind {
            NoteKind::HoldHead { length } => length@.0 > 0,
            _ => true,
        }
}

/// Whether every open hold started before `t`.
spec fn opened_before(board: Board, t: (int, int)) -> bool {
    forall|p: int|
        0 <= p < board.open.len() && #[trigger] board.open[p] is Some ==> 0 <= board.open[p]->0
            < board.notes.len() && is_lowest(board.notes[board.open[p]->0].beat@) && q_lt(
            board.notes[board.open[p]->0].beat@,
            t,
        )
}

/// From one moment to a later one it takes time.
proof fn lemma_span(a: (int, int), t: (int, int))
    requires
        is_lowest(a),
        is_lowest(t),
        q_lt(a, t),
    ensures
        sub_value(t, a) matches Some(q) ==> q.0 > 0 && q_fits(q),
{
    let n = t.0 * a.1 + (-a.0) * t.1;
    assert((-a.0) * t.1 == -(a.0 * t.1)) by (nonlinear_arith);
    assert(t.1 * a.1 > 0) by (nonlinear_arith)
        requires
            t.1 > 0,
            a.1 > 0,
    ;
    lemma_lowest(n, t.1 * a.1);
}

proof fn lemma_cells_last(text: Seq<char>, p: int, t: (int, int), m: int, r: int, board: Board)
    requires
        0 <= p,
        text.len() <= board.open.len(),
        is_lowest(t),
        opened_before(board, t),
        holds_last(board.notes),
        cells_from(text, p, t, m, r, board) is Ok,
    ensures
        holds_last((cells_from(text, p, t, m, r, board)->Ok_0).notes),
    decreases text.len() - p,
{
    broadcast use group_model_values;

    if p < text.len() {
        let step = cell_outcome(text[p], p, t, m, r, board)->Ok_0;
        if text[p] == '3' {
            let head = board.open[p]->0;
            lemma_span(board.notes[head].beat@, t);
            assert forall|q: int| 0 <= q < step.open.len() && #[trigger] step.open[q] is Some implies 0
                <= step.open[q]->0 < step.notes.len() && is_lowest(
                step.notes[step.open[q]->0].beat@,
            ) && q_lt(step.notes[step.open[q]->0].beat@, t) by {
                assert(board.open[q] == step.open[q]);
            }
            assert forall|i: int| 0 <= i < step.notes.len() implies match (
            #[trigger] step.notes[i]).kind {
                NoteKind::HoldHead { length } => length@.0 > 0,
                _ => true,
            } by {
                if i != head {
                    assert(step.notes[i] == board.notes[i]);
                }
            }
        }
        lemma_cells_last(text, p + 1, t, m, r, step);
    }
}

proof fn lemma_row_in_order(
    text: Seq<char>,
    m: int,
    r: int,
    rows: int,
    style: Style,
    board: Board,
)
    requires
        0 <= m,
        0 <= r < rows,
        text.len() <= board.open.len(),
        holds_known(board),
        ordered_until(board.notes, moment(m, r, rows), false),
        row_outcome(text, m, r, rows, style, board) is Ok,
    ensures
        ({
            let next = row_outcome(text, m, r, rows, style, board)->Ok_0;
            &&& next.open.len() == board.open.len()
            &&& holds_known(next)
            &&& ordered_until(next.notes, moment(m, r, rows), true)
            &&& holds_last(board.notes) ==> holds_last(next.notes)
        }),
{
    broadcast use group_model_values;

    let t = moment(m, r, rows);
    let x = (m * rows + r) * 4;
    lemma_lowest(x, rows);
    assert(row_beat(m, r, rows) == Some(t));
    assert(x >= 0) by (nonlinear_arith)
        requires
            x == (m * rows + r) * 4,
            m >= 0,
            rows > 0,
            r >= 0,
    ;
    assert(q_fits(t));
    assert(Beat::of(t)@ == t);
    let next = row_outcome(text, m, r, rows, style, board)->Ok_0;
    if super::notes::shock_of(super::notes::mine_bits(text, text.len()), style) is Some {
        let note = next.notes.last();
        assert(next.notes =~= board.notes.push(note));
        lemma_push(board.notes, note, t, false);
    } else {
        let mined = with_mines(text, t, style, board);
        if mined.notes.len() > board.notes.len() {
            let note = mined.notes.last();
            assert(mined.notes =~= board.notes.push(note));
            lemma_push(board.notes, note, t, false);
        }
        assert(ordered_until(mined.notes, t, true));
        lemma_cells_keep_beats(text, 0, t, m, r, mined);
        if holds_last(board.notes) {
            assert(opened_before(mined, t)) by {
                assert forall|p: int| 0 <= p < mined.open.len() && #[trigger] mined.open[p] is Some implies 0
                    <= mined.open[p]->0 < mined.notes.len() && is_lowest(
                    mined.notes[mined.open[p]->0].beat@,
                ) && q_lt(mined.notes[mined.open[p]->0].beat@, t) by {
                    assert(board.open[p] == mined.open[p]);
                    assert(mined.notes[mined.open[p]->0] == board.notes[board.open[p]->0]);
                }
            }
            lemma_cells_last(text, 0, t, m, r, mined);
        }
        let closed = cells_from(text, 0, t, m, r, mined)->Ok_0;
        assert(ordered_until(closed.notes, t, true)) by {
            assert forall|i: int, j: int| 0 <= i < j < closed.notes.len() implies !q_lt(
                (#[trigger] closed.notes[j]).beat@,
                (#[trigger] closed.notes[i]).beat@,
            ) by {
                assert(closed.notes[i].beat == mined.notes[i].beat);
                assert(closed.notes[j].beat == mined.notes[j].beat);
            }
            assert forall|i: int| 0 <= i < closed.notes.len() implies is_lowest(
                (#[trigger] closed.notes[i]).beat@,
            ) && (q_lt(closed.notes[i].beat@, t) || closed.notes[i].beat@ == t) by {
                assert(closed.notes[i].beat == mined.notes[i].beat);
            }
        }
        assert(next == with_hits(text, t, style, closed));
        if next.notes.len() > closed.notes.len() {
            let note = next.notes.last();
            assert(next.notes =~= closed.notes.push(note));
            lemma_push(closed.notes, note, t, true);
        }
    }
}

proof fn lemma_later(notes: Seq<Note>, t: (int, int), at: bool, u: (int, int))
    requires
        ordered_until(notes, t, at),
        is_lowest(t),
        is_lowest(u),
        q_lt(t, u),
    ensures
        ordered_until(notes, u, false),
{
    assert forall|i: int| 0 <= i < notes.len() implies is_lowest((#[trigger] notes[i]).beat@) && q_lt(
        notes[i].beat@,
        u,
    ) by {
        law_order_is_total(notes[i].beat@, t, u);
    }
}

proof fn lemma_rows_in_order(
    rows: Seq<Seq<char>>,
    r: int,
    m: int,
    style: Style,
    board: Board,
)
    requires
        0 <= m,
        0 <= r <= rows.len(),
        rows.len() > 0,
        board.open.len() == crate::model::panels_of(style),
        holds_known(board),
        ordered_until(board.notes, moment(m, r, rows.len() as int), false),
        rows_from(rows, r, m, style, board) is Ok,
    ensures
        ({
            let next = rows_from(rows, r, m, style, board)->Ok_0;
            &&& next.open.len() == board.open.len()
            &&& holds_known(next)
            &&& ordered_until(next.notes, moment(m, rows.len() as int, rows.len() as int), false)
            &&& holds_last(board.notes) ==> holds_last(next.notes)
        }),
    decreases rows.len() - r,
{
    let n = rows.len() as int;
    if r < n {
        super::notes::lemma_chars_within_bytes(rows[r]);
        lemma_row_in_order(rows[r], m, r, n, style, board);
        let next = row_outcome(rows[r], m, r, n, style, board)->Ok_0;
        lemma_moments_ordered(m, r, r + 1, n);
        lemma_moments_ordered(m, r + 1, r, n);
        lemma_later(next.notes, moment(m, r, n), true, moment(m, r + 1, n));
        lemma_rows_in_order(rows, r + 1, m, style, next);
    }
}

proof fn lemma_measures_in_order(
    grid: Seq<Seq<Seq<char>>>,
    m: int,
    style: Style,
    board: Board,
)
    requires
        0 <= m <= grid.len(),
        board.open.len() == crate::model::panels_of(style),
        holds_known(board),
        ordered_until(board.notes, moment(m, 0, 4), false),
        measures_from(grid, m, style, board) is Ok,
    ensures
        in_beat_order((measures_from(grid, m, style, board)->Ok_0).notes),
        holds_last(board.notes) ==> holds_last(
            (measures_from(grid, m, style, board)->Ok_0).notes,
        ),
    decreases grid.len() - m,
{
    if m < grid.len() {
        let rows = grid[m];
        let n = rows.len() as int;
        let next = rows_from(rows, 0, m, style, board)->Ok_0;
        lemma_moments_ordered(m, 0, 4, 4);
        lemma_moments_ordered(m, 4, 0, 4);
        lemma_next_measure(m, 4, 4);
        if n == 0 {
            assert(next == board);
            lemma_later(board.notes, moment(m, 0, 4), false, moment(m + 1, 0, 4));
        } else {
            lemma_next_measure(m - 1, 4, n);
            lemma_next_measure(m - 1, 4, 4);
            lemma_next_measure(m, n, 4);
            lemma_rows_in_order(rows, 0, m, style, board);
        }
        lemma_measures_in_order(grid, m + 1, style, next);
    }
}

/// The notes of every `#NOTES` body that parses come in the order of their beats.
pub proof fn law_parsed_notes_are_sorted(body: Seq<char>, style: Style)
    requires
        body_outcome(body, style) is Ok,
    ensures
        in_beat_order(body_outcome(body, style)->Ok_0),
{
    let grid = grid_of(body);
    let board = empty_board(style);
    assert(ordered_until(board.notes, moment(0, 0, 4), false));
    lemma_measures_in_order(grid, 0, style, board);
}

/// The holds of every `#NOTES` body that parses take time.
pub proof fn law_parsed_holds_take_time(body: Seq<char>, style: Style)
    requires
        body_outcome(body, style) is Ok,
    ensures
        holds_last(body_outcome(body, style)->Ok_0),
{
    let grid = grid_of(body);
    let board = empty_board(style);
    assert(ordered_until(board.notes, moment(0, 0, 4), false));
    lemma_measures_in_order(grid, 0, style, board);
}

} // verus!
