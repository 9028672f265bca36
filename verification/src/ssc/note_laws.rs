//! The panels that the notes of a parsed chart are on.

use super::order::{holds_known, lemma_cells_keep_beats};
use super::notes::{
    body_outcome, cell_outcome, cells_from, empty_board, grid_of, lemma_chars_within_bytes,
    measures_from, mine_bits, row_outcome, rows_from, shock_of, with_hits, with_mines, Board,
};
use crate::model::{group_model_values, panels_of, style_mask, Note, Style};
use vstd::prelude::*;

verus! {

/// Whether a note is on panels of the style, and no mine makes up a shock.
pub open spec fn well_placed(note: Note, style: Style) -> bool {
    &&& note.panels@ & style_mask(style) == note.panels@
    &&& note.kind is Mine ==> shock_of(note.panels@, style) is None
}

spec fn all_placed(notes: Seq<Note>, style: Style) -> bool {
    forall|i: int| 0 <= i < notes.len() ==> well_placed(#[trigger] notes[i], style)
}

proof fn lemma_masked(bits: u8, style: Style)
    ensures
        (bits & style_mask(style)) & style_mask(style) == bits & style_mask(style),
{
    let m = style_mask(style);
    assert((bits & m) & m == bits & m) by (bit_vector);
}

/// The mines of a row are on its panels.
proof fn lemma_mine_bits_fit(row: Seq<char>, n: nat, style: Style)
    requires
        n <= row.len(),
        n <= panels_of(style),
    ensures
        mine_bits(row, n) & style_mask(style) == mine_bits(row, n),
    decreases n,
{
    let m = style_mask(style);
    if n == 0 {
        assert(0u8 & m == 0u8) by (bit_vector);
    } else {
        lemma_mine_bits_fit(row, (n - 1) as nat, style);
        let b = mine_bits(row, (n - 1) as nat);
        let k = (n - 1) as u8;
        match style {
            Style::Single => {
                assert(b & 0x0F == b && k < 4 ==> (b | (1u8 << k)) & 0x0F == b | (1u8 << k))
                    by (bit_vector);
            },
            Style::Double => {
                assert((b | (1u8 << k)) & 0xFF == b | (1u8 << k)) by (bit_vector);
            },
        }
    }
}

proof fn lemma_cells_placed(
    text: Seq<char>,
    p: int,
    beat: (int, int),
    m: int,
    r: int,
    style: Style,
    board: Board,
)
    requires
        0 <= p,
        text.len() <= board.open.len(),
        holds_known(board),
        all_placed(board.notes, style),
        cells_from(text, p, beat, m, r, board) is Ok,
    ensures
        all_placed((cells_from(text, p, beat, m, r, board)->Ok_0).notes, style),
    decreases text.len() - p,
{
    if p < text.len() {
        let step = cell_outcome(text[p], p, beat, m, r, board)->Ok_0;
        assert forall|i: int| 0 <= i < step.notes.len() implies well_placed(
            #[trigger] step.notes[i],
            style,
        ) by {
            assert(well_placed(board.notes[i], style));
        }
        assert forall|q: int| 0 <= q < step.open.len() && #[trigger] step.open[q] is Some implies 0
            <= step.open[q]->0 < step.notes.len() by {
            assert(board.open[q] == step.open[q]);
        }
        lemma_cells_placed(text, p + 1, beat, m, r, style, step);
    }
}

proof fn lemma_row_placed(text: Seq<char>, m: int, r: int, rows: int, style: Style, board: Board)
    requires
        text.len() <= panels_of(style),
        board.open.len() == panels_of(style),
        holds_known(board),
        all_placed(board.notes, style),
        row_outcome(text, m, r, rows, style, board) is Ok,
    ensures
        (row_outcome(text, m, r, rows, style, board)->Ok_0).open.len() == board.open.len(),
        holds_known(row_outcome(text, m, r, rows, style, board)->Ok_0),
        all_placed((row_outcome(text, m, r, rows, style, board)->Ok_0).notes, style),
{
    broadcast use group_model_values;

    let t = super::notes::row_beat(m, r, rows)->0;
    let bits = mine_bits(text, text.len());
    lemma_mine_bits_fit(text, text.len(), style);
    lemma_masked(super::notes::hit_bits(text, text.len()), style);
    if shock_of(bits, style) is Some {
        assert(0u8 & style_mask(style) == 0u8) by {
            let m = style_mask(style);
            assert(0u8 & m == 0u8) by (bit_vector);
        }
    } else {
        let mined = with_mines(text, t, style, board);
        assert(all_placed(mined.notes, style));
        lemma_cells_placed(text, 0, t, m, r, style, mined);
        lemma_cells_keep_beats(text, 0, t, m, r, mined);
        let closed = cells_from(text, 0, t, m, r, mined)->Ok_0;
        assert(all_placed(with_hits(text, t, style, closed).notes, style));
    }
}

proof fn lemma_rows_placed(rows: Seq<Seq<char>>, r: int, m: int, style: Style, board: Board)
    requires
        0 <= r <= rows.len(),
        board.open.len() == panels_of(style),
        holds_known(board),
        all_placed(board.notes, style),
        rows_from(rows, r, m, style, board) is Ok,
    ensures
        (rows_from(rows, r, m, style, board)->Ok_0).open.len() == board.open.len(),
        holds_known(rows_from(rows, r, m, style, board)->Ok_0),
        all_placed((rows_from(rows, r, m, style, board)->Ok_0).notes, style),
    decreases rows.len() - r,
{
    if r < rows.len() {
        lemma_chars_within_bytes(rows[r]);
        lemma_row_placed(rows[r], m, r, rows.len() as int, style, board);
        let next = row_outcome(rows[r], m, r, rows.len() as int, style, board)->Ok_0;
        lemma_rows_placed(rows, r + 1, m, style, next);
    }
}

proof fn lemma_measures_placed(grid: Seq<Seq<Seq<char>>>, m: int, style: Style, board: Board)
    requires
        0 <= m <= grid.len(),
        board.open.len() == panels_of(style),
        holds_known(board),
        all_placed(board.notes, style),
        measures_from(grid, m, style, board) is Ok,
    ensures
        all_placed((measures_from(grid, m, style, board)->Ok_0).notes, style),
    decreases grid.len() - m,
{
    if m < grid.len() {
        lemma_rows_placed(grid[m], 0, m, style, board);
        let next = rows_from(grid[m], 0, m, style, board)->Ok_0;
        lemma_measures_placed(grid, m + 1, style, next);
    }
}

/// The notes of every `#NOTES` body that parses are on panels of the style.
pub proof fn law_parsed_notes_fit_the_style(body: Seq<char>, style: Style)
    ensures
        body_outcome(body, style) matches Ok(notes) ==> forall|i: int|
            0 <= i < notes.len() ==> (#[trigger] notes[i]).panels@ & style_mask(style)
                == notes[i].panels@,
{
    if body_outcome(body, style) is Ok {
        lemma_measures_placed(grid_of(body), 0, style, empty_board(style));
    }
}

/// No `#NOTES` body parses to a mine on all the panels of a side: such a row is a
/// shock.
pub proof fn law_parsed_mines_are_partial(body: Seq<char>, style: Style)
    ensures
        body_outcome(body, style) matches Ok(notes) ==> forall|i: int|
            0 <= i < notes.len() && (#[trigger] notes[i]).kind is Mine ==> shock_of(
                notes[i].panels@,
                style,
            ) is None,
{
    if body_outcome(body, style) is Ok {
        lemma_measures_placed(grid_of(body), 0, style, empty_board(style));
    }
}

} // verus!
