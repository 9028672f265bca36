//! What the notes of a chart draw at each moment.

use super::notes::shock_of;
use super::rows::{lemma_moment_is_on_row, lemma_on_row_is_moment, moment};
use super::writer::{
    all_on_rows, cell, hold_marks, in_measure, larger, mark, marks, marks_from, measure_of,
    note_marks, on_row, picked, quantize, row_at, shock_bits, Mark,
};
use super::SscErrorView;
use crate::model::rational::{add_value, is_lowest, law_arithmetic_is_exact, q_add, q_fits, q_lt};
use crate::model::{has_panel, panels_of, style_mask, Note, NoteKind, Style};
use vstd::prelude::*;

verus! {

/// Whether a note hits panel `p`.
pub open spec fn hits(note: Note, p: int) -> bool {
    has_panel(note.panels@, p as u8)
}

/// Where a hold ends.
pub open spec fn tail_of(note: Note) -> (int, int) {
    q_add(note.beat@, note.kind->length@)
}

/// Whether the panels of a note are panels of the style, and there are any.
pub open spec fn on_style(note: Note, style: Style) -> bool {
    note.panels@ != 0 && note.panels@ & style_mask(style) == note.panels@
}

/// Whether a note can be told from what it draws.
pub open spec fn drawable(note: Note, style: Style) -> bool {
    &&& is_lowest(note.beat@)
    &&& q_fits(note.beat@)
    &&& note.beat@.0 >= 0
    &&& match note.kind {
        NoteKind::Tap => on_style(note, style),
        NoteKind::HoldHead { length } => on_style(note, style) && is_lowest(length@)
            && q_fits(length@) && length@.0 > 0 && add_value(note.beat@, length@) is Some,
        NoteKind::Mine => on_style(note, style) && shock_of(note.panels@, style) is None,
        NoteKind::Shock { side } => note.panels@ == 0 && shock_bits(side, style) is Some,
    }
}

/// Whether a note starts with a tap or a hold.
pub open spec fn is_hit_note(note: Note) -> bool {
    note.kind is Tap || note.kind is HoldHead
}

/// The panels that a note draws on.
pub open spec fn drawn_bits(note: Note, style: Style) -> u8 {
    match note.kind {
        NoteKind::Shock { side } => shock_bits(side, style)->0,
        _ => note.panels@,
    }
}

/// The character that a note draws at its beat.
pub open spec fn head_char(note: Note) -> char {
    match note.kind {
        NoteKind::Tap => '1',
        NoteKind::HoldHead { length } => '2',
        _ => 'M',
    }
}

/// What a note draws at moment `t` on panel `p`.
pub open spec fn drawn_at(note: Note, style: Style, t: (int, int), p: int) -> Option<char> {
    if !has_panel(drawn_bits(note, style), p as u8) {
        None
    } else if note.kind is HoldHead && tail_of(note) == t {
        Some('3')
    } else if note.beat@ == t {
        Some(head_char(note))
    } else {
        None
    }
}

/// Whether a mark is one of those that a note draws.
pub open spec fn draws(note: Note, style: Style, mu: Mark) -> bool {
    &&& 0 <= mu.panel < panels_of(style)
    &&& has_panel(drawn_bits(note, style), mu.panel as u8)
    &&& (mu == mark(note.beat@, mu.panel, head_char(note)) || (note.kind is HoldHead && mu == mark(
        tail_of(note),
        mu.panel,
        '3',
    )))
}

proof fn lemma_marks(bits: u8, n: nat, beat: (int, int), c: char, mu: Mark)
    requires
        n <= 8,
    ensures
        marks(bits, n, beat, c).contains(mu) <==> 0 <= mu.panel < n && has_panel(
            bits,
            mu.panel as u8,
        ) && mu == mark(beat, mu.panel, c),
    decreases n,
{
    let all = marks(bits, n, beat, c);
    if n > 0 {
        let before = marks(bits, (n - 1) as nat, beat, c);
        lemma_marks(bits, (n - 1) as nat, beat, c, mu);
        let last = mark(beat, n - 1, c);
        if has_panel(bits, (n - 1) as u8) {
            assert(all == before.push(last));
            if before.contains(mu) {
                let i = choose|i: int| 0 <= i < before.len() && before[i] == mu;
                assert(all[i] == mu);
            }
            if mu == last {
                assert(all[before.len() as int] == mu);
            }
            if all.contains(mu) {
                let i = choose|i: int| 0 <= i < all.len() && all[i] == mu;
                if i < before.len() {
                    assert(before[i] == mu);
                }
            }
        }
    }
}

proof fn lemma_hold_marks(bits: u8, n: nat, head: (int, int), tail: (int, int), mu: Mark)
    requires
        n <= 8,
    ensures
        hold_marks(bits, n, head, tail).contains(mu) <==> 0 <= mu.panel < n && has_panel(
            bits,
            mu.panel as u8,
        ) && (mu == mark(head, mu.panel, '2') || mu == mark(tail, mu.panel, '3')),
    decreases n,
{
    let all = hold_marks(bits, n, head, tail);
    if n > 0 {
        let before = hold_marks(bits, (n - 1) as nat, head, tail);
        lemma_hold_marks(bits, (n - 1) as nat, head, tail, mu);
        let a = mark(head, n - 1, '2');
        let b = mark(tail, n - 1, '3');
        if has_panel(bits, (n - 1) as u8) {
            assert(all == before.push(a).push(b));
            if before.contains(mu) {
                let i = choose|i: int| 0 <= i < before.len() && before[i] == mu;
                assert(all[i] == mu);
            }
            if mu == a {
                assert(all[before.len() as int] == mu);
            }
            if mu == b {
                assert(all[before.len() as int + 1] == mu);
            }
            if all.contains(mu) {
                let i = choose|i: int| 0 <= i < all.len() && all[i] == mu;
                if i < before.len() {
                    assert(before[i] == mu);
                }
            }
        }
    }
}

/// The end of a drawable hold.
pub proof fn lemma_tail(note: Note, style: Style)
    requires
        drawable(note, style),
        note.kind is HoldHead,
    ensures
        is_lowest(tail_of(note)),
        q_fits(tail_of(note)),
        tail_of(note).0 >= 0,
        q_lt(note.beat@, tail_of(note)),
        add_value(note.beat@, note.kind->length@) == Some(tail_of(note)),
{
    let a = note.beat@;
    let b = note.kind->length@;
    law_arithmetic_is_exact(a, b);
    let (x, y) = tail_of(note);
    let (an, ad) = a;
    let (bn, bd) = b;
    assert(x * (ad * bd) == (an * bd + bn * ad) * y);
    assert(ad * bd > 0 && bn * ad > 0 && an * bd >= 0) by (nonlinear_arith)
        requires
            ad > 0,
            bd > 0,
            bn > 0,
            an >= 0,
    ;
    assert(x > 0) by (nonlinear_arith)
        requires
            x * (ad * bd) == (an * bd + bn * ad) * y,
            ad * bd > 0,
            bn * ad > 0,
            an * bd >= 0,
            y > 0,
    ;
    assert(an * y < x * ad) by (nonlinear_arith)
        requires
            x * (ad * bd) == (an * bd + bn * ad) * y,
            bn * ad > 0,
            ad > 0,
            bd > 0,
            y > 0,
    {
        assert((x * ad) * bd == (an * y) * bd + (bn * ad) * y) by (nonlinear_arith)
            requires
                x * (ad * bd) == (an * bd + bn * ad) * y,
        ;
        assert((bn * ad) * y > 0) by (nonlinear_arith)
            requires
                bn * ad > 0,
                y > 0,
        ;
        let l = an * y;
        let r = x * ad;
        assert(l < r) by (nonlinear_arith)
            requires
                l * bd < r * bd,
                bd > 0,
        ;
    }
}

proof fn lemma_note_marks(note: Note, style: Style, mu: Mark)
    requires
        drawable(note, style),
    ensures
        note_marks(note, style) is Ok,
        (note_marks(note, style)->Ok_0).0.contains(mu) <==> draws(note, style, mu),
        (note_marks(note, style)->Ok_0).1 >= measure_of(note.beat@),
        note.kind is HoldHead ==> (note_marks(note, style)->Ok_0).1 >= measure_of(tail_of(note)),
{
    let n = panels_of(style) as nat;
    match note.kind {
        NoteKind::HoldHead { length } => {
            lemma_tail(note, style);
            lemma_hold_marks(note.panels@, n, note.beat@, tail_of(note), mu);
        },
        _ => {
            lemma_marks(drawn_bits(note, style), n, note.beat@, head_char(note), mu);
        },
    }
}

/// Whether every note of a list can be told from what it draws.
pub open spec fn all_drawable(notes: Seq<Note>, style: Style) -> bool {
    forall|i: int| 0 <= i < notes.len() ==> drawable(#[trigger] notes[i], style)
}

/// Whether one of the notes from `i` on draws a mark.
pub open spec fn drawn_from(notes: Seq<Note>, style: Style, i: int, mu: Mark) -> bool {
    exists|j: int| i <= j < notes.len() && draws(#[trigger] notes[j], style, mu)
}

proof fn lemma_marks_from(
    notes: Seq<Note>,
    i: int,
    style: Style,
    drawn: Seq<Mark>,
    last: int,
    mu: Mark,
)
    requires
        all_drawable(notes, style),
        0 <= i <= notes.len(),
    ensures
        marks_from(notes, i, style, drawn, last) is Ok,
        (marks_from(notes, i, style, drawn, last)->Ok_0).0.contains(mu) <==> drawn.contains(mu)
            || drawn_from(notes, style, i, mu),
        (marks_from(notes, i, style, drawn, last)->Ok_0).1 >= last,
        forall|j: int|
            i <= j < notes.len() ==> (marks_from(notes, i, style, drawn, last)->Ok_0).1
                >= measure_of((#[trigger] notes[j]).beat@) && (notes[j].kind is HoldHead ==> (
            marks_from(notes, i, style, drawn, last)->Ok_0).1 >= measure_of(tail_of(notes[j]))),
    decreases notes.len() - i,
{
    if i < notes.len() {
        lemma_note_marks(notes[i], style, mu);
        let (more, reach) = note_marks(notes[i], style)->Ok_0;
        let both = drawn + more;
        let top = larger(last, reach);
        lemma_marks_from(notes, i + 1, style, both, top, mu);
        assert(both.contains(mu) <==> drawn.contains(mu) || more.contains(mu)) by {
            if drawn.contains(mu) {
                let k = choose|k: int| 0 <= k < drawn.len() && drawn[k] == mu;
                assert(both[k] == mu);
            }
            if more.contains(mu) {
                let k = choose|k: int| 0 <= k < more.len() && more[k] == mu;
                assert(both[drawn.len() + k] == mu);
            }
            if both.contains(mu) {
                let k = choose|k: int| 0 <= k < both.len() && both[k] == mu;
                if k < drawn.len() {
                    assert(drawn[k] == mu);
                } else {
                    assert(more[k - drawn.len()] == mu);
                }
            }
        }
        if draws(notes[i], style, mu) {
            assert(drawn_from(notes, style, i, mu));
        }
        if drawn_from(notes, style, i + 1, mu) {
            let j = choose|j: int| i + 1 <= j < notes.len() && draws(#[trigger] notes[j], style, mu);
            assert(draws(notes[j], style, mu));
        }
        if drawn_from(notes, style, i, mu) {
            let j = choose|j: int| i <= j < notes.len() && draws(#[trigger] notes[j], style, mu);
            if j > i {
                assert(drawn_from(notes, style, i + 1, mu));
            }
        }
    }
}

/// Everything that the notes of a chart draw.
pub open spec fn drawing(notes: Seq<Note>, style: Style) -> Seq<Mark> {
    (marks_from(notes, 0, style, Seq::empty(), 0)->Ok_0).0
}

/// The last measure that the notes of a chart reach.
pub open spec fn reach(notes: Seq<Note>, style: Style) -> int {
    (marks_from(notes, 0, style, Seq::empty(), 0)->Ok_0).1
}

/// What is drawn is what the notes draw, within the measures reached.
pub proof fn lemma_drawing(notes: Seq<Note>, style: Style, mu: Mark)
    requires
        all_drawable(notes, style),
    ensures
        marks_from(notes, 0, style, Seq::empty(), 0) == Ok::<(Seq<Mark>, int), SscErrorView>(
            (drawing(notes, style), reach(notes, style)),
        ),
        drawing(notes, style).contains(mu) <==> drawn_from(notes, style, 0, mu),
        reach(notes, style) >= 0,
        forall|j: int|
            0 <= j < notes.len() ==> reach(notes, style) >= measure_of((#[trigger] notes[j]).beat@)
                && (notes[j].kind is HoldHead ==> reach(notes, style) >= measure_of(
                tail_of(notes[j]),
            )),
{
    lemma_marks_from(notes, 0, style, Seq::empty(), 0, mu);
}

pub proof fn lemma_in_measure(all: Seq<Mark>, m: int, mu: Mark)
    ensures
        in_measure(all, m).contains(mu) <==> all.contains(mu) && mu.measure == m,
    decreases all.len(),
{
    if all.len() > 0 {
        let init = all.drop_last();
        let last = all.last();
        let before = in_measure(init, m);
        lemma_in_measure(init, m, mu);
        assert(all.contains(mu) <==> init.contains(mu) || mu == last) by {
            if init.contains(mu) {
                let k = choose|k: int| 0 <= k < init.len() && init[k] == mu;
                assert(all[k] == mu);
            }
            if all.contains(mu) {
                let k = choose|k: int| 0 <= k < all.len() && all[k] == mu;
                if k < init.len() {
                    assert(init[k] == mu);
                }
            }
            assert(all[all.len() - 1] == last);
        }
        if last.measure == m {
            let now = before.push(last);
            if before.contains(mu) {
                let k = choose|k: int| 0 <= k < before.len() && before[k] == mu;
                assert(now[k] == mu);
            }
            assert(now[before.len() as int] == last);
            if now.contains(mu) {
                let k = choose|k: int| 0 <= k < now.len() && now[k] == mu;
                if k < before.len() {
                    assert(before[k] == mu);
                }
            }
        }
    }
}

/// Whether a mark is drawn at a row and panel.
pub open spec fn lands(mu: Mark, rows: int, row: int, panel: int) -> bool {
    row_at(mu.offset, rows) == row && mu.panel == panel
}

/// The cell at a row and panel is one of the marks there, or empty.
pub proof fn lemma_cell(all: Seq<Mark>, rows: int, row: int, panel: int)
    ensures
        ({
            let c = cell(all, rows, row, panel);
            ||| (exists|mu: Mark| #[trigger]
                all.contains(mu) && lands(mu, rows, row, panel) && mu.c == c)
            ||| (c == '0' && forall|mu: Mark| #[trigger]
                all.contains(mu) ==> !lands(mu, rows, row, panel))
        }),
    decreases all.len(),
{
    if all.len() > 0 {
        let init = all.drop_last();
        let last = all.last();
        assert(all[all.len() - 1] == last);
        assert(all.contains(last));
        if lands(last, rows, row, panel) {
        } else {
            lemma_cell(init, rows, row, panel);
            let c = cell(init, rows, row, panel);
            assert(cell(all, rows, row, panel) == c);
            if exists|mu: Mark| #[trigger]
                init.contains(mu) && lands(mu, rows, row, panel) && mu.c == c {
                let mu = choose|mu: Mark| #[trigger]
                    init.contains(mu) && lands(mu, rows, row, panel) && mu.c == c;
                let k = choose|k: int| 0 <= k < init.len() && init[k] == mu;
                assert(all[k] == mu);
                assert(all.contains(mu));
            } else {
                assert forall|mu: Mark| #[trigger] all.contains(mu) implies !lands(
                    mu,
                    rows,
                    row,
                    panel,
                ) by {
                    let k = choose|k: int| 0 <= k < all.len() && all[k] == mu;
                    if k < init.len() {
                        assert(init[k] == mu);
                        assert(init.contains(mu));
                    }
                }
            }
        }
    }
}

/// A quantize that was picked has a row for every mark.
pub proof fn lemma_picked(all: Seq<Mark>, k: int)
    requires
        0 <= k,
        picked(all, k) is Some,
    ensures
        all_on_rows(all, picked(all, k)->0),
        4 <= picked(all, k)->0 <= 192,
    decreases 10 - k,
{
    if k < 10 {
        if all_on_rows(all, quantize(k)) {
        } else {
            lemma_picked(all, k + 1);
        }
    }
}

/// What the notes draw at a moment on a panel: the note, and its character.
pub open spec fn drawer(notes: Seq<Note>, style: Style, t: (int, int), p: int, i: int) -> bool {
    0 <= i < notes.len() && drawn_at(notes[i], style, t, p) is Some
}

/// The character of a measure's cell is what some note draws at that moment.
pub proof fn lemma_cell_drawn(notes: Seq<Note>, style: Style, m: int, rows: int, r: int, p: int)
    requires
        all_drawable(notes, style),
        m >= 0,
        rows > 0,
        0 <= r < rows,
        0 <= p < panels_of(style),
        all_on_rows(in_measure(drawing(notes, style), m), rows),
    ensures
        ({
            let c = cell(in_measure(drawing(notes, style), m), rows, r, p);
            let t = moment(m, r, rows);
            ||| (exists|i: int| #[trigger]
                drawer(notes, style, t, p, i) && drawn_at(notes[i], style, t, p) == Some(c))
            ||| (c == '0' && forall|i: int| !#[trigger] drawer(notes, style, t, p, i))
        }),
{
    let all = drawing(notes, style);
    let here = in_measure(all, m);
    let c = cell(here, rows, r, p);
    let t = moment(m, r, rows);
    lemma_cell(here, rows, r, p);
    if exists|mu: Mark| #[trigger] here.contains(mu) && lands(mu, rows, r, p) && mu.c == c {
        let mu = choose|mu: Mark| #[trigger] here.contains(mu) && lands(mu, rows, r, p) && mu.c == c;
        lemma_in_measure(all, m, mu);
        lemma_drawing(notes, style, mu);
        let i = choose|i: int| 0 <= i < notes.len() && draws(#[trigger] notes[i], style, mu);
        let note = notes[i];
        let k = choose|k: int| 0 <= k < here.len() && here[k] == mu;
        assert(on_row(here[k].offset, rows));
        assert(drawable(note, style));
        if note.kind is HoldHead {
            lemma_tail(note, style);
        }
        if mu == mark(note.beat@, mu.panel, head_char(note)) {
            lemma_on_row_is_moment(note.beat@, rows);
            assert(note.beat@ == t);
            if note.kind is HoldHead && tail_of(note) == t {
                assert(q_lt(note.beat@, note.beat@));
            }
        } else {
            lemma_on_row_is_moment(tail_of(note), rows);
            assert(tail_of(note) == t);
        }
        assert(drawn_at(note, style, t, p) == Some(c));
        assert(drawer(notes, style, t, p, i));
    } else {
        assert forall|i: int| !#[trigger] drawer(notes, style, t, p, i) by {
            if drawer(notes, style, t, p, i) {
                let note = notes[i];
                assert(drawable(note, style));
                let q = if note.kind is HoldHead && tail_of(note) == t {
                    lemma_tail(note, style);
                    tail_of(note)
                } else {
                    note.beat@
                };
                assert(q == t);
                lemma_moment_is_on_row(q, m, r, rows);
                let mu = mark(q, p, drawn_at(note, style, t, p)->0);
                assert(draws(note, style, mu));
                lemma_drawing(notes, style, mu);
                lemma_in_measure(all, m, mu);
                assert(here.contains(mu));
                assert(lands(mu, rows, r, p));
            }
        }
    }
}

} // verus!
