//! What the text of a simfile means: when a row comes, what its characters stand for,
//! and which numbers its decimals are.

use super::decimal::{
    decimal_text, decimal_value, lemma_first_at, lemma_micros_text, lemma_trimmed_fixed,
    micros_text, point_parts, round_half_even, unsigned,
};
use super::msd::{line_end, scanned, Scan};
use super::notes::{
    cell_outcome, cells_from, difficulty_text, hit_bits, mine_bits, row_beat, row_outcome,
    rows_from, shock_of, stepstype_text, with_hits, with_mines, Board,
};
use super::round_trip::{lemma_hit_bits, lemma_mine_bits};
use super::writer::{all_on_rows, measure_of, offset_of, on_row, picked, quantize, row_at, Mark};
use super::SscErrorView;
use crate::model::rational::{
    is_lowest, law_arithmetic_is_exact, law_sub_undoes_add, lemma_lowest, q_fits, sub_value,
};
use crate::model::{
    group_model_values, has_panel, panels_of, style_mask, Beat, Difficulty, NoteKind, ShockSide,
    Style,
};
use crate::ssq::step_meaning::{ends_at, law_panels_are_bits, pow2_of};
use crate::ssq::tempo_meaning::is_fraction;
use crate::util::bits::{lemma_bits_ops, lemma_some_bit};
use crate::util::number::{all_digits, is_digit, lemma_digits_parse, number_of};
use vstd::arithmetic::power::pow;
use vstd::prelude::*;

verus! {

/// A measure is four beats, and its rows divide it evenly.
pub proof fn law_rows_divide_a_measure(measure: int, row: int, rows: int)
    requires
        0 <= measure,
        0 <= row < rows,
    ensures
        row_beat(measure, row, rows) matches Some(q) ==> is_fraction(
            q,
            4 * measure * rows + 4 * row,
            rows,
        ),
        4 * (measure * rows + row) <= i64::MAX && rows <= i64::MAX ==> row_beat(measure, row, rows)
            is Some,
{
    lemma_lowest((measure * rows + row) * 4, rows);
    assert(4 * measure * rows == 4 * (measure * rows)) by (nonlinear_arith);
}

/// Whether the panels from `a` to `b` of a row all show mines.
pub open spec fn mined(row: Seq<char>, a: int, b: int) -> bool {
    forall|p: int| a <= p < b ==> #[trigger] row[p] == 'M'
}

/// Whether none of the panels from `a` to `b` of a row shows a mine.
pub open spec fn unmined(row: Seq<char>, a: int, b: int) -> bool {
    forall|p: int| a <= p < b ==> #[trigger] row[p] != 'M'
}

/// Panels that show `M` are mines, and those that show `1`, `2` or `4` are steps.
pub proof fn law_row_panels(row: Seq<char>, p: u8)
    requires
        row.len() <= 8,
        p < row.len(),
    ensures
        has_panel(mine_bits(row, row.len()), p) <==> row[p as int] == 'M',
        has_panel(hit_bits(row, row.len()), p) <==> row[p as int] == '1' || row[p as int] == '2'
            || row[p as int] == '4',
{
    lemma_mine_bits(row, row.len(), p);
    lemma_hit_bits(row, row.len(), p);
}

/// Mines on all panels of a side, and on no other, are a shock on it; mines on all
/// panels are one on both.
pub proof fn law_whole_sides_of_mines_are_shocks(row: Seq<char>, style: Style)
    requires
        row.len() == panels_of(style),
    ensures
        ({
            let shock = shock_of(mine_bits(row, row.len()), style);
            match style {
                Style::Single => if mined(row, 0, 4) {
                    shock == Some(ShockSide::BothSides)
                } else {
                    shock is None
                },
                Style::Double => if mined(row, 0, 8) {
                    shock == Some(ShockSide::BothSides)
                } else if mined(row, 0, 4) && unmined(row, 4, 8) {
                    shock == Some(ShockSide::P1Only)
                } else if unmined(row, 0, 4) && mined(row, 4, 8) {
                    shock == Some(ShockSide::P2Only)
                } else {
                    shock is None
                },
            }
        }),
{
    let n = row.len();
    let bits = mine_bits(row, n);
    assert forall|p: u8| p < 8 implies (#[trigger] has_panel(bits, p) <==> p < n && row[p as int]
        == 'M') by {
        lemma_mine_bits(row, n, p);
    }
    lemma_eight_bits(bits);
    assert(has_panel(bits, 0) == (row[0] == 'M') && has_panel(bits, 1) == (row[1] == 'M')
        && has_panel(bits, 2) == (row[2] == 'M') && has_panel(bits, 3) == (row[3] == 'M'));
    assert(mined(row, 0, 4) <==> row[0] == 'M' && row[1] == 'M' && row[2] == 'M' && row[3] == 'M');
    assert(unmined(row, 0, 4) <==> row[0] != 'M' && row[1] != 'M' && row[2] != 'M' && row[3]
        != 'M');
    if style is Double {
        assert(has_panel(bits, 4) == (row[4] == 'M') && has_panel(bits, 5) == (row[5] == 'M')
            && has_panel(bits, 6) == (row[6] == 'M') && has_panel(bits, 7) == (row[7] == 'M'));
        assert(mined(row, 4, 8) <==> row[4] == 'M' && row[5] == 'M' && row[6] == 'M' && row[7]
            == 'M');
        assert(unmined(row, 4, 8) <==> row[4] != 'M' && row[5] != 'M' && row[6] != 'M' && row[7]
            != 'M');
        assert(mined(row, 0, 8) <==> mined(row, 0, 4) && mined(row, 4, 8));
    } else {
        assert(!has_panel(bits, 4) && !has_panel(bits, 5) && !has_panel(bits, 6) && !has_panel(
            bits,
            7,
        ));
    }
}

proof fn lemma_halves(x: int)
    requires
        0 <= x < 256,
    ensures
        x == 2 * (x / 2) + (x / 1) % 2,
        x / 2 == 2 * (x / 4) + (x / 2) % 2,
        x / 4 == 2 * (x / 8) + (x / 4) % 2,
        x / 8 == 2 * (x / 16) + (x / 8) % 2,
        x / 16 == 2 * (x / 32) + (x / 16) % 2,
        x / 32 == 2 * (x / 64) + (x / 32) % 2,
        x / 64 == 2 * (x / 128) + (x / 64) % 2,
        x / 128 == (x / 128) % 2,
{
}

/// A byte is the sum of its bits.
proof fn lemma_eight_bits(bits: u8)
    ensures
        bits == (if has_panel(bits, 0) { 1int } else { 0 }) + (if has_panel(bits, 1) { 2int } else {
            0
        }) + (if has_panel(bits, 2) { 4int } else { 0 }) + (if has_panel(bits, 3) { 8int } else { 0 })
            + (if has_panel(bits, 4) { 16int } else { 0 }) + (if has_panel(bits, 5) { 32int } else {
            0
        }) + (if has_panel(bits, 6) { 64int } else { 0 }) + (if has_panel(bits, 7) { 128int } else {
            0
        }),
{
    assert(pow2_of(0) == 1 && pow2_of(1) == 2 && pow2_of(2) == 4 && pow2_of(3) == 8 && pow2_of(4)
        == 16 && pow2_of(5) == 32 && pow2_of(6) == 64 && pow2_of(7) == 128);
    law_panels_are_bits(bits, 0);
    law_panels_are_bits(bits, 1);
    law_panels_are_bits(bits, 2);
    law_panels_are_bits(bits, 3);
    law_panels_are_bits(bits, 4);
    law_panels_are_bits(bits, 5);
    law_panels_are_bits(bits, 6);
    law_panels_are_bits(bits, 7);
    lemma_halves(bits as int);
}

/// Whether a row, from a panel on, has a tail on a panel where note `k` is held.
pub open spec fn ends_hold(row: Seq<char>, from: int, open: Seq<Option<int>>, k: int) -> bool {
    exists|p: int| from <= p < row.len() && #[trigger] row[p] == '3' && open[p] == Some(k)
}

/// What the tails of a row do to the notes before it.
proof fn lemma_tails(
    text: Seq<char>,
    from: int,
    beat: (int, int),
    measure: int,
    row: int,
    board: Board,
    k: int,
    p: int,
)
    requires
        0 <= from <= text.len(),
        text.len() == board.open.len(),
        0 <= k < board.notes.len(),
        0 <= p < text.len(),
        forall|q: int|
            0 <= q < board.open.len() && (#[trigger] board.open[q]) is Some ==> 0
                <= board.open[q]->0 < board.notes.len(),
    ensures
        cells_from(text, from, beat, measure, row, board) matches Ok(b) ==> {
            &&& b.notes.len() == board.notes.len()
            &&& b.open.len() == board.open.len()
            &&& b.notes[k].beat == board.notes[k].beat
            &&& b.notes[k].panels == board.notes[k].panels
            &&& ends_hold(text, from, board.open, k) ==> (sub_value(beat, board.notes[k].beat@)
                matches Some(length) && b.notes[k].kind == (NoteKind::HoldHead {
                length: Beat::of(length),
            }))
            &&& !ends_hold(text, from, board.open, k) ==> b.notes[k] == board.notes[k]
            &&& from <= p && text[p] == '3' ==> board.open[p] is Some && b.open[p] is None
            &&& p < from || text[p] != '3' ==> b.open[p] == board.open[p]
        },
    decreases text.len() - from,
{
    if from < text.len() {
        let c = text[from];
        match cell_outcome(c, from, beat, measure, row, board) {
            Err(_) => {},
            Ok(next) => {
                lemma_tails(text, from + 1, beat, measure, row, next, k, p);
                if c == '3' {
                    assert(board.open[from] is Some);
                    let head = board.open[from]->0;
                    assert(next.open == board.open.update(from, None));
                    assert(ends_hold(text, from, board.open, head));
                    if ends_hold(text, from + 1, next.open, k) {
                        let q = choose|q: int|
                            from + 1 <= q < text.len() && #[trigger] text[q] == '3' && next.open[q]
                                == Some(k);
                        assert(board.open[q] == Some(k));
                        assert(ends_hold(text, from, board.open, k));
                    } else if ends_hold(text, from, board.open, k) {
                        let q = choose|q: int|
                            from <= q < text.len() && #[trigger] text[q] == '3' && board.open[q]
                                == Some(k);
                        if q > from {
                            assert(next.open[q] == board.open[q]);
                            assert(ends_hold(text, from + 1, next.open, k));
                        }
                    }
                } else {
                    assert(next == board);
                    if ends_hold(text, from, board.open, k) {
                        let q = choose|q: int|
                            from <= q < text.len() && #[trigger] text[q] == '3' && board.open[q]
                                == Some(k);
                        assert(ends_hold(text, from + 1, board.open, k));
                    }
                    if ends_hold(text, from + 1, board.open, k) {
                        let q = choose|q: int|
                            from + 1 <= q < text.len() && #[trigger] text[q] == '3' && board.open[q]
                                == Some(k);
                        assert(ends_hold(text, from, board.open, k));
                    }
                }
            },
        }
    } else {
        assert(!ends_hold(text, from, board.open, k));
    }
}

/// A row puts its mines and then its steps behind the notes so far, each as one note on
/// the panels that show it; `2` and `4` open a hold on their panel, and `3` closes the
/// one that is open there: its head then lasts up to this row. All else stays.
pub proof fn law_row_is_taken(
    text: Seq<char>,
    measure: int,
    row: int,
    rows: int,
    style: Style,
    board: Board,
    k: int,
    p: u8,
)
    requires
        0 <= measure,
        0 <= row < rows,
        text.len() == panels_of(style),
        board.open.len() == panels_of(style),
        0 <= k < board.notes.len(),
        p < text.len(),
        is_lowest(board.notes[k].beat@),
        shock_of(mine_bits(text, text.len()), style) is None,
        forall|q: int|
            0 <= q < board.open.len() && (#[trigger] board.open[q]) is Some ==> 0
                <= board.open[q]->0 < board.notes.len(),
    ensures
        row_outcome(text, measure, row, rows, style, board) matches Ok(after) ==> {
            let n = board.notes.len() as int;
            let mines = if unmined(text, 0, text.len() as int) { 0int } else { 1int };
            let steps = if exists|q: int|
                0 <= q < text.len() && (#[trigger] text[q] == '1' || text[q] == '2' || text[q]
                    == '4') {
                1int
            } else {
                0int
            };
            let here = Beat::of(row_beat(measure, row, rows)->0);
            &&& after.notes.len() == n + mines + steps
            &&& mines == 1 ==> {
                &&& after.notes[n].kind is Mine
                &&& after.notes[n].beat == here
                &&& has_panel(after.notes[n].panels@, p) <==> text[p as int] == 'M'
            }
            &&& steps == 1 ==> {
                &&& after.notes.last().kind is Tap
                &&& after.notes.last().beat == here
                &&& has_panel(after.notes.last().panels@, p) <==> text[p as int] == '1'
                    || text[p as int] == '2' || text[p as int] == '4'
            }
            &&& after.notes[k].beat == board.notes[k].beat
            &&& after.notes[k].panels == board.notes[k].panels
            &&& if ends_hold(text, 0, board.open, k) {
                after.notes[k].kind matches NoteKind::HoldHead { length } && ends_at(
                    board.notes[k].beat,
                    length,
                    here,
                )
            } else {
                after.notes[k] == board.notes[k]
            }
            &&& after.open[p as int] == if text[p as int] == '2' || text[p as int] == '4' {
                Some(n + mines)
            } else if text[p as int] == '3' {
                None
            } else {
                board.open[p as int]
            }
            &&& text[p as int] == '3' ==> board.open[p as int] is Some
        },
{
    broadcast use group_model_values;

    if row_outcome(text, measure, row, rows, style, board) is Ok {
        let n = text.len();
        let beat = row_beat(measure, row, rows)->0;
        let bits = mine_bits(text, n);
        let hits = hit_bits(text, n);
        let mined_board = with_mines(text, beat, style, board);
        let closed = cells_from(text, 0, beat, measure, row, mined_board)->Ok_0;
        let after = with_hits(text, beat, style, closed);
        lemma_tails(text, 0, beat, measure, row, mined_board, k, p as int);
        lemma_tails(
            text,
            0,
            beat,
            measure,
            row,
            mined_board,
            mined_board.notes.len() - 1,
            p as int,
        );
        assert(!ends_hold(text, 0, board.open, board.notes.len() as int));
        lemma_row_masks(text, style, p);
        lemma_lowest((measure * rows + row) * 4, rows);
        assert((measure * rows + row) * 4 >= 0) by (nonlinear_arith)
            requires
                measure >= 0,
                rows > 0,
                row >= 0,
        ;
        assert(q_fits(beat));
        if ends_hold(text, 0, board.open, k) {
            let head = board.notes[k].beat@;
            law_sub_undoes_add(beat, head);
            law_arithmetic_is_exact(beat, (-head.0, head.1));
            assert((-head.0) * beat.1 == -(head.0 * beat.1)) by (nonlinear_arith);
        }
    }
}

/// The panels of a row's mines and steps lie within the style, and there are some where
/// a character shows one.
proof fn lemma_row_masks(text: Seq<char>, style: Style, p: u8)
    requires
        text.len() == panels_of(style),
        p < text.len(),
    ensures
        mine_bits(text, text.len()) == 0 <==> unmined(text, 0, text.len() as int),
        hit_bits(text, text.len()) != 0 <==> exists|q: int|
            0 <= q < text.len() && (#[trigger] text[q] == '1' || text[q] == '2' || text[q] == '4'),
        has_panel(mine_bits(text, text.len()) & style_mask(style), p) <==> text[p as int] == 'M',
        has_panel(hit_bits(text, text.len()) & style_mask(style), p) <==> text[p as int] == '1'
            || text[p as int] == '2' || text[p as int] == '4',
{
    let n = text.len();
    let bits = mine_bits(text, n);
    let hits = hit_bits(text, n);
    let mask = style_mask(style);
    assert forall|q: u8| q < 8 implies (#[trigger] has_panel(bits, q) <==> q < n && text[q as int]
        == 'M') by {
        lemma_mine_bits(text, n, q);
    }
    assert forall|q: u8| q < 8 implies (#[trigger] has_panel(hits, q) <==> q < n && (text[q as int]
        == '1' || text[q as int] == '2' || text[q as int] == '4')) by {
        lemma_hit_bits(text, n, q);
    }
    assert(pow2_of(0) == 1 && pow2_of(1) == 2 && pow2_of(2) == 4 && pow2_of(3) == 8 && pow2_of(4)
        == 16 && pow2_of(5) == 32 && pow2_of(6) == 64 && pow2_of(7) == 128);
    law_panels_are_bits(mask, p);
    assert(p == 0 || p == 1 || p == 2 || p == 3 || p == 4 || p == 5 || p == 6 || p == 7);
    assert(has_panel(mask, p));
    law_panels_are_bits(0, p);
    lemma_bits_ops(bits, mask, p);
    lemma_bits_ops(hits, mask, p);
    if bits != 0 {
        lemma_some_bit(bits);
        let q = choose|q: u8| q < 8 && #[trigger] has_panel(bits, q);
        assert(text[q as int] == 'M');
    } else if !unmined(text, 0, n as int) {
        let q = choose|q: int| 0 <= q < n && #[trigger] text[q] == 'M';
        assert(has_panel(bits, q as u8));
        law_panels_are_bits(0, q as u8);
    }
    if hits != 0 {
        lemma_some_bit(hits);
        let q = choose|q: u8| q < 8 && #[trigger] has_panel(hits, q);
        assert(text[q as int] == '1' || text[q as int] == '2' || text[q as int] == '4');
    } else if exists|q: int|
        0 <= q < n && (#[trigger] text[q] == '1' || text[q] == '2' || text[q] == '4') {
        let q = choose|q: int|
            0 <= q < n && (#[trigger] text[q] == '1' || text[q] == '2' || text[q] == '4');
        assert(has_panel(hits, q as u8));
        law_panels_are_bits(0, q as u8);
    }
}

/// A decimal has six places and is the nearest to its value that has; of two that are
/// as near, it is the one with an even last place.
pub proof fn law_decimals_are_nearest_millionths(q: (int, int), m: int)
    requires
        q.1 > 0,
        m == round_half_even(q.0 * 1_000_000, q.1),
        -i64::MAX <= m <= i64::MAX,
    ensures
        decimal_text(q) == micros_text(m),
        -q.1 <= 2 * (m * q.1 - 1_000_000 * q.0) <= q.1,
        2 * (m * q.1 - 1_000_000 * q.0) == q.1 || 2 * (m * q.1 - 1_000_000 * q.0) == -q.1 ==> m % 2
            == 0,
        decimal_value(decimal_text(q)) matches Some(v) && is_fraction(v, m, 1_000_000),
{
    let n = q.0 * 1_000_000;
    let d = q.1;
    vstd::arithmetic::div_mod::lemma_fundamental_div_mod(n, d);
    let w = n / d;
    assert(d * w == w * d && (w + 1) * d == w * d + d) by (nonlinear_arith);
    lemma_micros_text(m);
    lemma_lowest(m, 1_000_000);
}

/// A digit weighs ten times what the next one does.
pub proof fn law_digits_are_decimal(s: Seq<char>, c: char)
    requires
        is_digit(c),
    ensures
        number_of(Seq::empty()) == 0,
        number_of(s.push(c)) == 10 * number_of(s) + (c as int - '0' as int),
        0 <= c as int - '0' as int <= 9,
{
    assert(s.push(c).drop_last() =~= s);
}

/// Digits, a point and further digits are read as the number of all of them in units of
/// the last place; a minus sign before them negates it.
pub proof fn law_decimals_are_read(a: Seq<char>, b: Seq<char>, minus: bool)
    requires
        a.len() > 0,
        all_digits(a),
        0 < b.len() <= 18,
        all_digits(b),
        number_of(a) * pow(10, b.len()) + number_of(b) <= i64::MAX,
        number_of(a) <= i64::MAX,
        number_of(b) <= i64::MAX,
        number_of(a) * pow(10, b.len()) <= i64::MAX,
        pow(10, b.len()) > 0,
    ensures
        ({
            let n = number_of(a) * pow(10, b.len()) + number_of(b);
            let text = (if minus {
                seq!['-']
            } else {
                Seq::empty()
            }) + a + seq!['.'] + b;
            decimal_value(text) matches Some(v) && is_fraction(
                v,
                if minus {
                    -n
                } else {
                    n
                },
                pow(10, b.len()),
            )
        }),
{
    let scale = pow(10, b.len());
    let n = number_of(a) * scale + number_of(b);
    let s = (if minus {
        seq!['-']
    } else {
        Seq::empty()
    }) + a + seq!['.'] + b;
    lemma_digits_parse(a);
    lemma_digits_parse(b);
    assert(s.last() == b.last());
    assert(is_digit(b[b.len() - 1]));
    assert(is_digit(a[0]));
    if minus {
        assert(s[0] == '-');
    } else {
        assert(s[0] == a[0]);
    }
    lemma_trimmed_fixed(s);
    let rest = unsigned(s);
    assert(rest =~= a + seq!['.'] + b);
    assert forall|k: int| 0 <= k < a.len() implies rest[k] != '.' by {
        assert(rest[k] == a[k]);
        assert(is_digit(a[k]));
    }
    lemma_first_at(rest, '.', 0, a.len() as int);
    assert(rest.subrange(0, a.len() as int) =~= a);
    assert(rest.subrange(a.len() as int + 1, rest.len() as int) =~= b);
    assert(point_parts(rest) == (a, b));
    assert(number_of(a) * scale >= 0) by (nonlinear_arith)
        requires
            scale > 0,
    ;
    lemma_lowest(n, scale);
    lemma_lowest(-n, scale);
}

/// Two slashes hide the rest of their line: reading goes on at its end.
pub proof fn law_comments_are_skipped(b: Seq<char>, i: int, end: int, s: Scan)
    requires
        0 <= i,
        i + 2 <= end <= b.len(),
        b[i] == '/',
        b[i + 1] == '/',
        forall|k: int| i <= k < end ==> #[trigger] b[k] != '\n',
        end < b.len() ==> b[end] == '\n',
    ensures
        scanned(b, i, s) == scanned(b, end, s),
{
    lemma_line_end(b, i, end);
}

proof fn lemma_line_end(b: Seq<char>, i: int, end: int)
    requires
        0 <= i <= end <= b.len(),
        forall|k: int| i <= k < end ==> #[trigger] b[k] != '\n',
        end < b.len() ==> b[end] == '\n',
    ensures
        line_end(b, i) == end,
    decreases end - i,
{
    if i < end {
        lemma_line_end(b, i + 1, end);
    }
}

/// What stands behind a backslash is part of the parameter, whatever it is.
pub proof fn law_backslash_quotes(b: Seq<char>, i: int, s: Scan)
    requires
        0 <= i,
        i + 1 < b.len(),
        b[i] == '\\',
        s.reading,
    ensures
        scanned(b, i, s) == scanned(b, i + 2, (Scan { cur: s.cur.push(b[i + 1]), ..s })),
{
}

/// Nothing between two values counts.
pub proof fn law_text_between_values_is_skipped(b: Seq<char>, i: int, end: int, s: Scan)
    requires
        0 <= i <= end <= b.len(),
        !s.reading,
        forall|k: int| i <= k < end ==> #[trigger] b[k] != '#' && b[k] != '/',
    ensures
        scanned(b, i, s) == scanned(b, end, s),
    decreases end - i,
{
    if i < end {
        law_text_between_values_is_skipped(b, i + 1, end, s);
    }
}

/// A measure has the fewest rows of 4, 8, 12, 16, 24, 32, 48, 64, 96 and 192 on which
/// all its marks fall, and none where they fall on none of these.
pub proof fn law_measures_have_the_fewest_rows(all: Seq<Mark>, rows: int)
    requires
        rows == 4 || rows == 8 || rows == 12 || rows == 16 || rows == 24 || rows == 32 || rows == 48
            || rows == 64 || rows == 96 || rows == 192,
    ensures
        picked(all, 0) matches Some(r) ==> all_on_rows(all, r) && (r == 4 || r == 8 || r == 12 || r
            == 16 || r == 24 || r == 32 || r == 48 || r == 64 || r == 96 || r == 192),
        all_on_rows(all, rows) ==> (picked(all, 0) matches Some(r) && r <= rows),
{
    reveal_with_fuel(picked, 11);
    assert(quantize(0) == 4 && quantize(1) == 8 && quantize(2) == 12 && quantize(3) == 16
        && quantize(4) == 24 && quantize(5) == 32 && quantize(6) == 48 && quantize(7) == 64
        && quantize(8) == 96 && quantize(9) == 192);
}

/// A mark falls on a row where its part of the measure is a whole number of rows, and
/// then on that one.
pub proof fn law_marks_fall_on_rows(offset: (int, int), rows: int, row: int)
    requires
        offset.1 > 0,
        rows > 0,
    ensures
        on_row(offset, rows) && row_at(offset, rows) == row <==> offset.0 * rows == row * (4
            * offset.1),
{
    let d = offset.1 * 4;
    let n = offset.0 * rows;
    vstd::arithmetic::div_mod::lemma_fundamental_div_mod(n, d);
    assert(d * row == row * (4 * offset.1)) by (nonlinear_arith)
        requires
            d == offset.1 * 4,
    ;
    if n == row * (4 * offset.1) {
        vstd::arithmetic::div_mod::lemma_fundamental_div_mod_converse(n, d, row, 0);
    }
}

/// A beat's place in its measure is what is left of it after four beats for each measure
/// before.
pub proof fn law_measures_are_four_beats(beat: (int, int))
    requires
        beat.0 >= 0,
        beat.1 > 0,
    ensures
        measure_of(beat) >= 0,
        0 <= beat.0 - 4 * measure_of(beat) * beat.1 < 4 * beat.1,
        is_fraction(offset_of(beat), beat.0 - 4 * measure_of(beat) * beat.1, beat.1),
{
    let (n, d) = beat;
    let w = n / d;
    vstd::arithmetic::div_mod::lemma_fundamental_div_mod(n, d);
    vstd::arithmetic::div_mod::lemma_div_pos_is_pos(n, d);
    let m = w / 4;
    assert(0 <= w - 4 * m <= 3);
    assert(0 <= n - 4 * m * d < 4 * d) by (nonlinear_arith)
        requires
            n == d * w + n % d,
            0 <= n % d < d,
            0 <= w - 4 * m <= 3,
            d > 0,
    ;
    lemma_lowest(n - 4 * m * d, d);
}

/// The difficulties go by the names that StepMania gives them, and the styles by theirs.
pub proof fn law_names_are_those_of_stepmania()
    ensures
        difficulty_text(Difficulty::Beginner) == seq!['B', 'e', 'g', 'i', 'n', 'n', 'e', 'r'],
        difficulty_text(Difficulty::Basic) == seq!['E', 'a', 's', 'y'],
        difficulty_text(Difficulty::Difficult) == seq!['M', 'e', 'd', 'i', 'u', 'm'],
        difficulty_text(Difficulty::Expert) == seq!['H', 'a', 'r', 'd'],
        difficulty_text(Difficulty::Challenge) == seq!['C', 'h', 'a', 'l', 'l', 'e', 'n', 'g', 'e'],
        stepstype_text(Style::Single).skip(6) == seq!['s', 'i', 'n', 'g', 'l', 'e'],
        stepstype_text(Style::Double).skip(6) == seq!['d', 'o', 'u', 'b', 'l', 'e'],
{
    reveal_strlit("Beginner");
    reveal_strlit("Easy");
    reveal_strlit("Medium");
    reveal_strlit("Hard");
    reveal_strlit("Challenge");
    reveal_strlit("dance-single");
    reveal_strlit("dance-double");
    assert(stepstype_text(Style::Single).skip(6) =~= seq!['s', 'i', 'n', 'g', 'l', 'e']);
    assert(stepstype_text(Style::Double).skip(6) =~= seq!['d', 'o', 'u', 'b', 'l', 'e']);
}

/// Whether a character stands for something on a panel that needs nothing before it: an
/// empty panel, a tap, the head of a hold or a roll, a mine, a fake or a lift.
pub open spec fn is_plain(c: char) -> bool {
    c == '0' || c == '1' || c == '2' || c == '4' || c == 'M' || c == 'F' || c == 'L'
}

/// A row of plain characters is taken; one with any other that is no tail is refused,
/// unless its mines are a shock.
pub proof fn law_rows_have_known_characters(
    text: Seq<char>,
    measure: int,
    row: int,
    rows: int,
    style: Style,
    board: Board,
    p: int,
)
    requires
        0 <= p < text.len(),
        row_beat(measure, row, rows) is Some,
    ensures
        (forall|q: int| 0 <= q < text.len() ==> is_plain(#[trigger] text[q])) ==> row_outcome(
            text,
            measure,
            row,
            rows,
            style,
            board,
        ) is Ok,
        !is_plain(text[p]) && text[p] != '3' && shock_of(mine_bits(text, text.len()), style) is None
            ==> row_outcome(text, measure, row, rows, style, board) is Err,
{
    let beat = row_beat(measure, row, rows)->0;
    let start = with_mines(text, beat, style, board);
    if forall|q: int| 0 <= q < text.len() ==> is_plain(#[trigger] text[q]) {
        lemma_plain_cells(text, 0, beat, measure, row, start);
    }
    if !is_plain(text[p]) && text[p] != '3' {
        lemma_unknown_cell(text, 0, beat, measure, row, start, p);
    }
}

proof fn lemma_plain_cells(
    text: Seq<char>,
    from: int,
    beat: (int, int),
    measure: int,
    row: int,
    board: Board,
)
    requires
        0 <= from <= text.len(),
        forall|q: int| 0 <= q < text.len() ==> is_plain(#[trigger] text[q]),
    ensures
        cells_from(text, from, beat, measure, row, board) == Ok::<Board, SscErrorView>(board),
    decreases text.len() - from,
{
    if from < text.len() {
        assert(is_plain(text[from]));
        lemma_plain_cells(text, from + 1, beat, measure, row, board);
    }
}

proof fn lemma_unknown_cell(
    text: Seq<char>,
    from: int,
    beat: (int, int),
    measure: int,
    row: int,
    board: Board,
    p: int,
)
    requires
        0 <= from <= p < text.len(),
        !is_plain(text[p]),
        text[p] != '3',
    ensures
        cells_from(text, from, beat, measure, row, board) is Err,
    decreases text.len() - from,
{
    if from < p {
        if let Ok(next) = cell_outcome(text[from], from, beat, measure, row, board) {
            lemma_unknown_cell(text, from + 1, beat, measure, row, next, p);
        }
    }
}

/// A row that is not as wide as the style has panels is refused.
pub proof fn law_rows_are_as_wide_as_the_style(
    rows: Seq<Seq<char>>,
    row: int,
    measure: int,
    style: Style,
    board: Board,
)
    requires
        0 <= row < rows.len(),
        vstd::utf8::encode_utf8(rows[row]).len() != match style {
            Style::Single => 4int,
            Style::Double => 8,
        },
    ensures
        rows_from(rows, row, measure, style, board) is Err,
{
}

} // verus!
