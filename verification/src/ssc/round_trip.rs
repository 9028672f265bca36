//! A chart that is written as a note grid reads back as the same chart.

use super::drawing::{
    all_drawable, drawable, drawer, drawn_at, drawn_bits, hits, is_hit_note, lemma_tail, tail_of,
};
use super::notes::{
    cell_outcome, cells_from, held, hit_bits, is_hit, mine_bits, row_beat, row_outcome, shock_of,
    with_hits, with_mines, Board,
};
use super::writer::shock_bits;
use super::SscErrorView;
use crate::model::rational::{
    is_lowest, law_order_is_total, law_sub_undoes_add, q_add, q_le, q_lt, q_neg, sub_value,
};
use crate::model::{
    group_model_values, has_panel, panels_of, style_mask, Beat, Note, NoteKind, PanelSet, ShockSide,
    Style,
};
use crate::util::bits::lemma_bits_equal;
use vstd::prelude::*;

verus! {

/// Whether two notes can follow each other: the second is later, or both are at
/// one beat, mines first and a tap or hold on other panels after them.
pub open spec fn in_row_order(a: Note, b: Note) -> bool {
    ||| q_lt(a.beat@, b.beat@)
    ||| (a.beat == b.beat && a.kind is Mine && is_hit_note(b) && a.panels@ & b.panels@ == 0)
}

/// Whether a note leaves the end of a hold to be seen: no shock and nothing on
/// the hold's panels at its end, and no other hold on them before that.
pub open spec fn clear_of(hold: Note, n: Note) -> bool {
    &&& n.kind is Shock ==> n.beat@ != tail_of(hold)
    &&& hold.panels@ & n.panels@ != 0 ==> n.beat@ != tail_of(hold) && (n.kind is HoldHead ==> !(
    q_le(hold.beat@, n.beat@) && q_le(n.beat@, tail_of(hold))))
}

/// Whether the notes of a chart can all be told from what they draw together.
pub open spec fn legible(notes: Seq<Note>, style: Style) -> bool {
    &&& all_drawable(notes, style)
    &&& forall|i: int, j: int|
        0 <= i < j < notes.len() ==> in_row_order(#[trigger] notes[i], #[trigger] notes[j])
    &&& forall|i: int, j: int|
        0 <= i < notes.len() && 0 <= j < notes.len() && i != j && (#[trigger] notes[i]).kind is HoldHead
            ==> clear_of(notes[i], #[trigger] notes[j])
}

/// Whether a moment lies before `t`, or at it where that counts.
pub open spec fn passed(q: (int, int), t: (int, int), at: bool) -> bool {
    q_lt(q, t) || (at && q == t)
}

/// The first note from `i` on whose beat has not passed.
pub open spec fn count(notes: Seq<Note>, t: (int, int), at: bool, i: int) -> int
    decreases notes.len() - i,
{
    if i >= notes.len() || !passed(notes[i].beat@, t, at) {
        i
    } else {
        count(notes, t, at, i + 1)
    }
}

/// A note as it is known at `t`: a hold that has not ended looks like a tap.
pub open spec fn shown(note: Note, t: (int, int), at: bool) -> Note {
    if note.kind is HoldHead && !passed(tail_of(note), t, at) {
        Note { kind: NoteKind::Tap, ..note }
    } else {
        note
    }
}

/// Whether a note is a hold that lasts at `t` on panel `p`.
pub open spec fn holds_at(note: Note, t: (int, int), at: bool, p: int) -> bool {
    note.kind is HoldHead && hits(note, p) && passed(note.beat@, t, at) && !passed(
        tail_of(note),
        t,
        at,
    )
}

/// The hold that lasts at `t` on panel `p`.
pub open spec fn holder(notes: Seq<Note>, t: (int, int), at: bool, p: int, i: int) -> Option<int>
    decreases notes.len() - i,
{
    if i >= notes.len() {
        None
    } else if holds_at(notes[i], t, at, p) {
        Some(i)
    } else {
        holder(notes, t, at, p, i + 1)
    }
}

/// The board at `t`.
pub open spec fn board_at(notes: Seq<Note>, style: Style, t: (int, int), at: bool) -> Board {
    Board {
        notes: Seq::new(
            count(notes, t, at, 0) as nat,
            |i: int| shown(notes[i], t, at),
        ),
        open: Seq::new(panels_of(style) as nat, |p: int| holder(notes, t, at, p, 0)),
    }
}

pub proof fn lemma_count_from(notes: Seq<Note>, style: Style, t: (int, int), at: bool, i: int)
    requires
        legible(notes, style),
        is_lowest(t),
        0 <= i <= notes.len(),
    ensures
        i <= count(notes, t, at, i) <= notes.len(),
        forall|j: int|
            i <= j < notes.len() ==> (passed((#[trigger] notes[j]).beat@, t, at) <==> j < count(
                notes,
                t,
                at,
                i,
            )),
    decreases notes.len() - i,
{
    if i >= notes.len() {
    } else if !passed(notes[i].beat@, t, at) {
        assert forall|j: int| i <= j < notes.len() implies !passed(
            (#[trigger] notes[j]).beat@,
            t,
            at,
        ) by {
            if j > i {
                assert(in_row_order(notes[i], notes[j]));
                assert(drawable(notes[i], style) && drawable(notes[j], style));
                law_order_is_total(notes[i].beat@, notes[j].beat@, t);
                law_order_is_total(notes[j].beat@, t, notes[i].beat@);
            }
        }
    } else {
        lemma_count_from(notes, style, t, at, i + 1);
    }
}

pub proof fn lemma_holder_from(notes: Seq<Note>, t: (int, int), at: bool, p: int, i: int)
    requires
        0 <= i <= notes.len(),
    ensures
        match holder(notes, t, at, p, i) {
            Some(k) => i <= k < notes.len() && holds_at(notes[k], t, at, p),
            None => forall|k: int|
                i <= k < notes.len() ==> !holds_at(#[trigger] notes[k], t, at, p),
        },
    decreases notes.len() - i,
{
    if i >= notes.len() || holds_at(notes[i], t, at, p) {
    } else {
        lemma_holder_from(notes, t, at, p, i + 1);
    }
}

proof fn lemma_shared_panel(a: u8, b: u8, p: u8)
    requires
        p < 8,
        has_panel(a, p),
        has_panel(b, p),
    ensures
        a & b != 0,
{
    assert(a & (1u8 << p) != 0 && b & (1u8 << p) != 0 && p < 8 ==> a & b != 0) by (bit_vector);
}

/// No two holds last at once on one panel.
proof fn lemma_one_holder(
    notes: Seq<Note>,
    style: Style,
    t: (int, int),
    at: bool,
    p: int,
    a: int,
    b: int,
)
    requires
        legible(notes, style),
        is_lowest(t),
        0 <= p < 8,
        0 <= a < notes.len(),
        0 <= b < notes.len(),
        holds_at(notes[a], t, at, p),
        holds_at(notes[b], t, at, p),
    ensures
        a == b,
    decreases (if a > b { 1int } else { 0 }),
{
    if a > b {
        lemma_one_holder(notes, style, t, at, p, b, a);
    }
    let x = notes[a];
    let y = notes[b];
    assert(drawable(x, style) && drawable(y, style));
    lemma_tail(x, style);
    lemma_shared_panel(x.panels@, y.panels@, p as u8);
    law_order_is_total(y.beat@, t, tail_of(x));
    law_order_is_total(t, tail_of(x), y.beat@);
    law_order_is_total(y.beat@, tail_of(x), t);
    if a < b {
        assert(in_row_order(x, y));
        assert(clear_of(x, y));
    }
}

proof fn lemma_holder(notes: Seq<Note>, style: Style, t: (int, int), at: bool, p: int, k: int)
    requires
        legible(notes, style),
        is_lowest(t),
        0 <= p < 8,
        0 <= k < notes.len(),
        holds_at(notes[k], t, at, p),
    ensures
        holder(notes, t, at, p, 0) == Some(k),
{
    lemma_holder_from(notes, t, at, p, 0);
    let h = holder(notes, t, at, p, 0)->0;
    lemma_one_holder(notes, style, t, at, p, h, k);
}

/// Two states are the same where nothing starts or ends between them.
pub proof fn lemma_same_state(
    notes: Seq<Note>,
    style: Style,
    t: (int, int),
    u: (int, int),
)
    requires
        legible(notes, style),
        is_lowest(t),
        is_lowest(u),
        forall|i: int|
            0 <= i < notes.len() ==> (passed((#[trigger] notes[i]).beat@, t, true) <==> passed(
                notes[i].beat@,
                u,
                false,
            )) && (notes[i].kind is HoldHead ==> (passed(tail_of(notes[i]), t, true) <==> passed(
                tail_of(notes[i]),
                u,
                false,
            ))),
    ensures
        board_at(notes, style, t, true) == board_at(notes, style, u, false),
{
    lemma_count_from(notes, style, t, true, 0);
    lemma_count_from(notes, style, u, false, 0);
    let c = count(notes, t, true, 0);
    let d = count(notes, u, false, 0);
    if c < d {
        assert(passed(notes[c].beat@, u, false));
    } else if d < c {
        assert(passed(notes[d].beat@, t, true));
    }
    let a = board_at(notes, style, t, true);
    let b = board_at(notes, style, u, false);
    assert forall|i: int| 0 <= i < c implies a.notes[i] == b.notes[i] by {
        assert(passed(notes[i].beat@, t, true));
    }
    assert forall|p: int| 0 <= p < panels_of(style) implies a.open[p] == b.open[p] by {
        lemma_holder_from(notes, t, true, p, 0);
        lemma_holder_from(notes, u, false, p, 0);
        match holder(notes, t, true, p, 0) {
            Some(k) => {
                assert(holds_at(notes[k], u, false, p));
                lemma_holder(notes, style, u, false, p, k);
            },
            None => {
                match holder(notes, u, false, p, 0) {
                    Some(k) => {
                        assert(holds_at(notes[k], t, true, p));
                    },
                    None => {},
                }
            },
        }
    }
    assert(a.notes =~= b.notes);
    assert(a.open =~= b.open);
}

/// Whether a row shows what the notes draw at `t`.
pub open spec fn shows(notes: Seq<Note>, style: Style, t: (int, int), row: Seq<char>) -> bool {
    &&& row.len() == panels_of(style)
    &&& forall|p: int|
        #![trigger row[p]]
        0 <= p < row.len() ==> {
            ||| (exists|i: int| #[trigger]
                drawer(notes, style, t, p, i) && drawn_at(notes[i], style, t, p) == Some(row[p]))
            ||| (row[p] == '0' && forall|i: int| !#[trigger] drawer(notes, style, t, p, i))
        }
}

/// At most one note draws at a moment on a panel.
pub proof fn lemma_one_drawer(
    notes: Seq<Note>,
    style: Style,
    t: (int, int),
    p: int,
    a: int,
    b: int,
)
    requires
        legible(notes, style),
        0 <= p < 8,
        drawer(notes, style, t, p, a),
        drawer(notes, style, t, p, b),
    ensures
        a == b,
{
    let (i, j) = if a <= b {
        (a, b)
    } else {
        (b, a)
    };
    let x = notes[i];
    let y = notes[j];
    assert(drawable(x, style) && drawable(y, style));
    if i < j {
        assert(in_row_order(x, y));
        let ends_x = x.kind is HoldHead && tail_of(x) == t;
        let ends_y = y.kind is HoldHead && tail_of(y) == t;
        if x.kind is HoldHead {
            lemma_tail(x, style);
            assert(clear_of(x, y));
        }
        if y.kind is HoldHead {
            lemma_tail(y, style);
            assert(clear_of(y, x));
        }
        if !(x.kind is Shock) && !(y.kind is Shock) {
            lemma_shared_panel(x.panels@, y.panels@, p as u8);
        }
        if ends_x && ends_y {
            law_order_is_total(x.beat@, y.beat@, tail_of(x));
            law_order_is_total(y.beat@, tail_of(y), tail_of(x));
        } else if !ends_x && !ends_y {
            assert(x.beat@ == t && y.beat@ == t);
            law_order_is_total(x.beat@, y.beat@, t);
        }
    }
}

/// What a note draws is what the row shows.
proof fn lemma_shown_char(
    notes: Seq<Note>,
    style: Style,
    t: (int, int),
    row: Seq<char>,
    p: int,
    i: int,
)
    requires
        legible(notes, style),
        shows(notes, style, t, row),
        0 <= p < row.len(),
        drawer(notes, style, t, p, i),
    ensures
        drawn_at(notes[i], style, t, p) == Some(row[p]),
{
    let c = row[p];
    assert(row[p] == c);
    let j = choose|j: int| #[trigger]
        drawer(notes, style, t, p, j) && drawn_at(notes[j], style, t, p) == Some(row[p]);
    lemma_one_drawer(notes, style, t, p, i, j);
}

/// Where a row shows something, a note draws it.
proof fn lemma_drawer_of(
    notes: Seq<Note>,
    style: Style,
    t: (int, int),
    row: Seq<char>,
    p: int,
) -> (i: int)
    requires
        shows(notes, style, t, row),
        0 <= p < row.len(),
        row[p] != '0',
    ensures
        drawer(notes, style, t, p, i),
        drawn_at(notes[i], style, t, p) == Some(row[p]),
{
    let c = row[p];
    choose|j: int| #[trigger]
        drawer(notes, style, t, p, j) && drawn_at(notes[j], style, t, p) == Some(row[p])
}

proof fn lemma_set_bit(bits: u8, k: u8, p: u8)
    requires
        k < 8,
        p < 8,
    ensures
        has_panel(bits | (1u8 << k), p) <==> has_panel(bits, p) || p == k,
{
    assert(k < 8 && p < 8 ==> (((bits | (1u8 << k)) & (1u8 << p) != 0) == (bits & (1u8 << p) != 0
        || p == k))) by (bit_vector);
}

/// Mines stand on the panels that show `M`.
pub proof fn lemma_mine_bits(row: Seq<char>, n: nat, p: u8)
    requires
        n <= row.len() <= 8,
        p < 8,
    ensures
        has_panel(mine_bits(row, n), p) <==> p < n && row[p as int] == 'M',
    decreases n,
{
    if n == 0 {
        assert(0u8 & (1u8 << p) == 0) by (bit_vector);
    } else {
        lemma_mine_bits(row, (n - 1) as nat, p);
        lemma_set_bit(mine_bits(row, (n - 1) as nat), (n - 1) as u8, p);
    }
}

/// Steps stand on the panels that show a tap, a hold or a roll.
pub proof fn lemma_hit_bits(row: Seq<char>, n: nat, p: u8)
    requires
        n <= row.len() <= 8,
        p < 8,
    ensures
        has_panel(hit_bits(row, n), p) <==> p < n && is_hit(row[p as int]),
    decreases n,
{
    if n == 0 {
        assert(0u8 & (1u8 << p) == 0) by (bit_vector);
    } else {
        lemma_hit_bits(row, (n - 1) as nat, p);
        lemma_set_bit(hit_bits(row, (n - 1) as nat), (n - 1) as u8, p);
    }
}

/// The panels of a note lie within the style, and there is at least one.
proof fn lemma_style_panels(bits: u8, style: Style)
    requires
        bits & style_mask(style) == bits,
    ensures
        forall|p: u8| #[trigger] has_panel(bits, p) ==> p < panels_of(style),
        bits != 0 ==> exists|p: u8| p < panels_of(style) && #[trigger] has_panel(bits, p),
{
    let mask = style_mask(style);
    assert forall|p: u8| #[trigger] has_panel(bits, p) implies p < panels_of(style) by {
        assert(mask == 0x0Fu8 && bits & mask == bits && p < 8 && bits & (1u8 << p) != 0 ==> p < 4)
            by (bit_vector);
    }
    if bits != 0 {
        if forall|p: u8| p < 8 ==> !#[trigger] has_panel(bits, p) {
            assert forall|p: u8| p < 8 implies (#[trigger] has_panel(bits, p) <==> has_panel(0, p)) by {
                assert(0u8 & (1u8 << p) == 0) by (bit_vector);
            }
            lemma_bits_equal(bits, 0);
        }
        let p = choose|p: u8| p < 8 && #[trigger] has_panel(bits, p);
        assert(has_panel(bits, p));
    }
}

/// Whether a hold has a panel below `p`.
spec fn closed_by(note: Note, p: int) -> bool {
    exists|q: int| 0 <= q < p && #[trigger] hits(note, q)
}

/// The first `n` notes and the open holds once the panels below `p` of the row
/// at `t` have been read.
spec fn partly(
    notes: Seq<Note>,
    style: Style,
    t: (int, int),
    row: Seq<char>,
    n: int,
    p: int,
) -> Board {
    Board {
        notes: Seq::new(
            n as nat,
            |i: int|
                if notes[i].kind is HoldHead && tail_of(notes[i]) == t && closed_by(notes[i], p) {
                    notes[i]
                } else {
                    shown(notes[i], t, false)
                },
        ),
        open: Seq::new(
            panels_of(style) as nat,
            |q: int|
                if q < p && row[q] == '3' {
                    None
                } else {
                    holder(notes, t, false, q, 0)
                },
        ),
    }
}

/// Whether every beat has a small denominator.
pub open spec fn beats_coarse(notes: Seq<Note>) -> bool {
    forall|i: int| 0 <= i < notes.len() ==> (#[trigger] notes[i]).beat@.1 <= 192
}

/// The length of a hold is the distance from its head to its tail.
proof fn lemma_length_back(note: Note, style: Style)
    requires
        drawable(note, style),
        note.kind is HoldHead,
        note.beat@.1 <= 192,
        tail_of(note).1 <= 192,
    ensures
        sub_value(tail_of(note), note.beat@) == Some(note.kind->length@),
{
    let b = note.beat@;
    let l = note.kind->length@;
    let t = tail_of(note);
    lemma_tail(note, style);
    law_sub_undoes_add(l, b);
    assert(q_add(l, b) == q_add(b, l)) by {
        assert(l.0 * b.1 + b.0 * l.1 == b.0 * l.1 + l.0 * b.1);
        assert(l.1 * b.1 == b.1 * l.1) by (nonlinear_arith);
    }
    assert(q_add(t, q_neg(b)) == l);
    let (tn, td) = t;
    let (bn, bd) = b;
    assert(0 < td * bd <= 192 * 192) by (nonlinear_arith)
        requires
            0 < td <= 192,
            0 < bd <= 192,
    ;
    assert(0 <= tn * bd <= 0x7fff_ffff_ffff_ffff * 192) by (nonlinear_arith)
        requires
            0 <= tn <= 0x7fff_ffff_ffff_ffff,
            0 < bd <= 192,
    ;
    assert(-0x7fff_ffff_ffff_ffff * 192 <= (-bn) * td <= 0) by (nonlinear_arith)
        requires
            0 <= bn <= 0x7fff_ffff_ffff_ffff,
            0 < td <= 192,
    ;
}

/// Reading the panels of a row from `p` on closes the holds that end there.
proof fn lemma_cells(
    notes: Seq<Note>,
    style: Style,
    t: (int, int),
    row: Seq<char>,
    m: int,
    r: int,
    n: int,
    p: int,
)
    requires
        legible(notes, style),
        beats_coarse(notes),
        shows(notes, style, t, row),
        is_lowest(t),
        t.1 <= 192,
        count(notes, t, false, 0) <= n <= count(notes, t, true, 0),
        0 <= p <= row.len(),
    ensures
        cells_from(row, p, t, m, r, partly(notes, style, t, row, n, p)) == Ok::<Board, SscErrorView>(
            partly(notes, style, t, row, n, row.len() as int),
        ),
    decreases row.len() - p,
{
    broadcast use group_model_values;

    if p < row.len() {
        let now = partly(notes, style, t, row, n, p);
        let next = partly(notes, style, t, row, n, p + 1);
        let c = row[p];
        lemma_count_from(notes, style, t, false, 0);
        lemma_count_from(notes, style, t, true, 0);
        if c != '0' {
            let i = lemma_drawer_of(notes, style, t, row, p);
            let note = notes[i];
            assert(drawable(note, style));
            if c == '3' {
                lemma_tail(note, style);
                assert(note.kind is HoldHead && tail_of(note) == t && hits(note, p));
                law_order_is_total(note.beat@, t, t);
                assert(passed(note.beat@, t, false));
                assert(i < n);
                assert(holds_at(note, t, false, p));
                lemma_holder(notes, style, t, false, p, i);
                assert(now.open[p] == Some(i));
                assert(now.notes[i].beat == note.beat && now.notes[i].panels == note.panels);
                lemma_length_back(note, style);
                assert(held(now.notes[i], note.kind->length@) == note);
                let closed = Board {
                    notes: now.notes.update(i, note),
                    open: now.open.update(p, None),
                };
                assert(cell_outcome(c, p, t, m, r, now) == Ok::<Board, SscErrorView>(closed));
                assert forall|j: int| 0 <= j < n implies closed.notes[j] == next.notes[j] by {
                    if j == i {
                        assert(closed_by(note, p + 1));
                    } else {
                        let other = notes[j];
                        if other.kind is HoldHead && tail_of(other) == t {
                            assert(drawable(other, style));
                            if hits(other, p) {
                                assert(drawer(notes, style, t, p, j));
                                lemma_one_drawer(notes, style, t, p, i, j);
                            }
                            assert(closed_by(other, p + 1) == closed_by(other, p));
                        }
                    }
                }
                assert(closed.notes =~= next.notes);
                assert(closed.open =~= next.open);
            }
        }
        if c != '3' {
            assert forall|j: int| 0 <= j < n implies now.notes[j] == next.notes[j] by {
                let other = notes[j];
                if other.kind is HoldHead && tail_of(other) == t {
                    if hits(other, p) {
                        assert(drawable(other, style));
                        assert(drawer(notes, style, t, p, j));
                        lemma_shown_char(notes, style, t, row, p, j);
                    }
                    assert(closed_by(other, p + 1) == closed_by(other, p));
                }
            }
            assert(now.notes =~= next.notes);
            assert(now.open =~= next.open);
            assert(c == '0' || c == '1' || c == '2' || c == 'M');
            assert(cell_outcome(c, p, t, m, r, now) == Ok::<Board, SscErrorView>(now));
        }
        lemma_cells(notes, style, t, row, m, r, n, p + 1);
    }
}

/// The mines of a row are those of the first note at its moment.
proof fn lemma_mines(notes: Seq<Note>, style: Style, t: (int, int), row: Seq<char>)
    requires
        legible(notes, style),
        shows(notes, style, t, row),
        is_lowest(t),
    ensures
        ({
            let k = count(notes, t, false, 0);
            mine_bits(row, row.len()) == (if k < count(notes, t, true, 0) && !is_hit_note(notes[k]) {
                drawn_bits(notes[k], style)
            } else {
                0
            })
        }),
{
    let k = count(notes, t, false, 0);
    let k2 = count(notes, t, true, 0);
    lemma_count_from(notes, style, t, false, 0);
    lemma_count_from(notes, style, t, true, 0);
    let mine = k < k2 && !is_hit_note(notes[k]);
    let want = if mine {
        drawn_bits(notes[k], style)
    } else {
        0u8
    };
    let bits = mine_bits(row, row.len());
    if mine {
        assert(drawable(notes[k], style));
        assert(passed(notes[k].beat@, t, true) && !passed(notes[k].beat@, t, false));
        lemma_drawn_panels(notes[k], style);
    }
    assert forall|p: u8| p < 8 implies (#[trigger] has_panel(bits, p) <==> has_panel(want, p)) by {
        lemma_mine_bits(row, row.len(), p);
        assert(0u8 & (1u8 << p) == 0) by (bit_vector);
        if p < row.len() && row[p as int] == 'M' {
            let i = lemma_drawer_of(notes, style, t, row, p as int);
            assert(drawable(notes[i], style));
            assert(notes[i].beat@ == t && !is_hit_note(notes[i]));
            law_order_is_total(notes[i].beat@, t, t);
            assert(!passed(notes[i].beat@, t, false));
            assert(k <= i < k2);
            if i > k {
                assert(in_row_order(notes[k], notes[i]));
                assert(passed(notes[k].beat@, t, true) && !passed(notes[k].beat@, t, false));
            }
            assert(i == k);
        }
        if mine && has_panel(want, p) {
            assert(drawer(notes, style, t, p as int, k));
            lemma_shown_char(notes, style, t, row, p as int, k);
        }
    }
    lemma_bits_equal(bits, want);
}

/// The panels that a note draws on are panels of the style.
pub proof fn lemma_drawn_panels(note: Note, style: Style)
    requires
        drawable(note, style),
    ensures
        drawn_bits(note, style) & style_mask(style) == drawn_bits(note, style),
        drawn_bits(note, style) != 0,
        forall|p: u8| #[trigger]
            has_panel(drawn_bits(note, style), p) ==> p < panels_of(style),
        exists|p: u8| p < panels_of(style) && #[trigger] has_panel(drawn_bits(note, style), p),
{
    assert(0x0Fu8 & 0x0Fu8 == 0x0Fu8 && 0xFFu8 & 0xFFu8 == 0xFFu8 && 0x0Fu8 & 0xFFu8 == 0x0Fu8
        && 0xF0u8 & 0xFFu8 == 0xF0u8) by (bit_vector);
    lemma_style_panels(drawn_bits(note, style), style);
}

/// The taps and hold starts of a row are those of the last note at its moment.
proof fn lemma_hits(notes: Seq<Note>, style: Style, t: (int, int), row: Seq<char>)
    requires
        legible(notes, style),
        shows(notes, style, t, row),
        is_lowest(t),
    ensures
        ({
            let k = count(notes, t, false, 0);
            let k2 = count(notes, t, true, 0);
            hit_bits(row, row.len()) == (if k < k2 && is_hit_note(notes[k2 - 1]) {
                notes[k2 - 1].panels@
            } else {
                0
            })
        }),
{
    let k = count(notes, t, false, 0);
    let k2 = count(notes, t, true, 0);
    lemma_count_from(notes, style, t, false, 0);
    lemma_count_from(notes, style, t, true, 0);
    let hit = k < k2 && is_hit_note(notes[k2 - 1]);
    let want = if hit {
        notes[k2 - 1].panels@
    } else {
        0u8
    };
    let bits = hit_bits(row, row.len());
    if hit {
        let note = notes[k2 - 1];
        assert(drawable(note, style));
        assert(passed(note.beat@, t, true) && !passed(note.beat@, t, false));
        lemma_drawn_panels(note, style);
        if note.kind is HoldHead {
            lemma_tail(note, style);
            law_order_is_total(note.beat@, tail_of(note), t);
        }
    }
    assert forall|p: u8| p < 8 implies (#[trigger] has_panel(bits, p) <==> has_panel(want, p)) by {
        lemma_hit_bits(row, row.len(), p);
        assert(0u8 & (1u8 << p) == 0) by (bit_vector);
        if p < row.len() && is_hit(row[p as int]) {
            let i = lemma_drawer_of(notes, style, t, row, p as int);
            assert(drawable(notes[i], style));
            assert(notes[i].beat@ == t && is_hit_note(notes[i]));
            law_order_is_total(notes[i].beat@, t, t);
            assert(!passed(notes[i].beat@, t, false));
            assert(k <= i < k2);
            if i < k2 - 1 {
                assert(in_row_order(notes[i], notes[k2 - 1]));
                assert(passed(notes[k2 - 1].beat@, t, true));
                assert(drawable(notes[k2 - 1], style));
                law_order_is_total(notes[i].beat@, notes[k2 - 1].beat@, t);
            }
            assert(i == k2 - 1);
        }
        if hit && has_panel(want, p) {
            assert(drawer(notes, style, t, p as int, k2 - 1));
            lemma_shown_char(notes, style, t, row, p as int, k2 - 1);
        }
    }
    lemma_bits_equal(bits, want);
}

/// The hold that lasts on a panel behind the row at `t`: one that starts there,
/// none where one ends, else the one that lasted before.
proof fn lemma_open_after(notes: Seq<Note>, style: Style, t: (int, int), row: Seq<char>, p: int)
    requires
        legible(notes, style),
        shows(notes, style, t, row),
        is_lowest(t),
        0 <= p < row.len(),
    ensures
        holder(notes, t, true, p, 0) == (if row[p] == '2' {
            Some(count(notes, t, true, 0) - 1)
        } else if row[p] == '3' {
            None
        } else {
            holder(notes, t, false, p, 0)
        }),
        row[p] == '2' ==> count(notes, t, false, 0) < count(notes, t, true, 0) && is_hit_note(
            notes[count(notes, t, true, 0) - 1],
        ),
        row[p] != '4',
{
    let k = count(notes, t, false, 0);
    let k2 = count(notes, t, true, 0);
    lemma_count_from(notes, style, t, false, 0);
    lemma_count_from(notes, style, t, true, 0);
    lemma_holder_from(notes, t, true, p, 0);
    lemma_holder_from(notes, t, false, p, 0);
    let c = row[p];
    if c != '0' {
        let i = lemma_drawer_of(notes, style, t, row, p);
        let note = notes[i];
        assert(drawable(note, style));
        if c == '2' {
            lemma_tail(note, style);
            law_order_is_total(note.beat@, tail_of(note), t);
            assert(holds_at(note, t, true, p));
            lemma_holder(notes, style, t, true, p, i);
            assert(!passed(note.beat@, t, false));
            assert(k <= i < k2);
            if i < k2 - 1 {
                let last = notes[k2 - 1];
                assert(in_row_order(note, last));
                assert(passed(last.beat@, t, true));
                assert(drawable(last, style));
                law_order_is_total(note.beat@, last.beat@, t);
            }
        } else if c == '3' {
            lemma_tail(note, style);
            match holder(notes, t, true, p, 0) {
                Some(j) => {
                    let other = notes[j];
                    assert(drawable(other, style));
                    lemma_tail(other, style);
                    lemma_shared_panel(note.panels@, other.panels@, p as u8);
                    lemma_shared_panel(other.panels@, note.panels@, p as u8);
                    if j != i {
                        assert(clear_of(note, other));
                        assert(clear_of(other, note));
                        law_order_is_total(note.beat@, other.beat@, t);
                        law_order_is_total(note.beat@, t, tail_of(other));
                        law_order_is_total(t, tail_of(other), t);
                    }
                },
                None => {},
            }
        }
    }
    if c != '2' && c != '3' {
        match holder(notes, t, false, p, 0) {
            Some(j) => {
                let other = notes[j];
                assert(drawable(other, style));
                lemma_tail(other, style);
                law_order_is_total(other.beat@, tail_of(other), t);
                law_order_is_total(tail_of(other), t, t);
                if tail_of(other) == t {
                    assert(drawer(notes, style, t, p, j));
                    lemma_shown_char(notes, style, t, row, p, j);
                }
                assert(holds_at(other, t, true, p));
                lemma_holder(notes, style, t, true, p, j);
            },
            None => {
                match holder(notes, t, true, p, 0) {
                    Some(j) => {
                        let other = notes[j];
                        assert(drawable(other, style));
                        lemma_tail(other, style);
                        law_order_is_total(t, tail_of(other), t);
                        if other.beat@ == t {
                            law_order_is_total(other.beat@, tail_of(other), t);
                            assert(drawer(notes, style, t, p, j));
                            lemma_shown_char(notes, style, t, row, p, j);
                                } else {
                            assert(!passed(tail_of(other), t, false));
                            assert(holds_at(other, t, false, p));
                                }
                    },
                    None => {},
                }
            },
        }
    }
}

/// Behind the row at `t` a note is known as it is at `t`.
proof fn lemma_closed_note(notes: Seq<Note>, style: Style, t: (int, int), row: Seq<char>, n: int, i: int)
    requires
        legible(notes, style),
        row.len() == panels_of(style),
        0 <= i < n,
        i < notes.len(),
    ensures
        partly(notes, style, t, row, n, row.len() as int).notes[i] == shown(notes[i], t, true),
{
    let note = notes[i];
    assert(drawable(note, style));
    if note.kind is HoldHead && tail_of(note) == t {
        lemma_drawn_panels(note, style);
        let p = choose|p: u8|
            p < panels_of(style) && #[trigger] has_panel(drawn_bits(note, style), p);
        assert(hits(note, p as int));
        assert(closed_by(note, row.len() as int));
    }
}

/// The notes at one moment: mines or a shock first, a tap or hold last, no more
/// than one of each.
proof fn lemma_at_moment(notes: Seq<Note>, style: Style, t: (int, int))
    requires
        legible(notes, style),
        is_lowest(t),
    ensures
        ({
            let k = count(notes, t, false, 0);
            let k2 = count(notes, t, true, 0);
            &&& 0 <= k <= k2 <= k + 2
            &&& k2 <= notes.len()
            &&& k < k2 ==> notes[k].beat@ == t && notes[k2 - 1].beat@ == t
            &&& k + 1 < k2 ==> notes[k].kind is Mine && is_hit_note(notes[k + 1])
        }),
{
    let k = count(notes, t, false, 0);
    let k2 = count(notes, t, true, 0);
    lemma_count_from(notes, style, t, false, 0);
    lemma_count_from(notes, style, t, true, 0);
    if k2 < k {
        assert(passed(notes[k2].beat@, t, false));
    }
    if k < k2 {
        assert(passed(notes[k].beat@, t, true) && !passed(notes[k].beat@, t, false));
        assert(passed(notes[k2 - 1].beat@, t, true) && !passed(notes[k2 - 1].beat@, t, false));
    }
    if k + 1 < k2 {
        assert(passed(notes[k + 1].beat@, t, true) && !passed(notes[k + 1].beat@, t, false));
        assert(in_row_order(notes[k], notes[k + 1]));
        assert(drawable(notes[k], style));
        law_order_is_total(t, t, t);
    }
    if k + 2 < k2 {
        assert(passed(notes[k + 2].beat@, t, true) && !passed(notes[k + 2].beat@, t, false));
        assert(in_row_order(notes[k + 1], notes[k + 2]));
        law_order_is_total(t, t, t);
    }
}

proof fn lemma_shock_bits(side: ShockSide, style: Style)
    requires
        shock_bits(side, style) is Some,
    ensures
        shock_of(shock_bits(side, style)->0, style) == Some(side),
{
}

/// Reading the row at `t` brings the board from before `t` to behind it.
pub proof fn lemma_row(
    notes: Seq<Note>,
    style: Style,
    t: (int, int),
    row: Seq<char>,
    m: int,
    r: int,
    rows: int,
)
    requires
        legible(notes, style),
        beats_coarse(notes),
        shows(notes, style, t, row),
        is_lowest(t),
        t.1 <= 192,
        row_beat(m, r, rows) == Some(t),
    ensures
        row_outcome(row, m, r, rows, style, board_at(notes, style, t, false)) == Ok::<
            Board,
            SscErrorView,
        >(board_at(notes, style, t, true)),
{
    broadcast use group_model_values;

    let k = count(notes, t, false, 0);
    let k2 = count(notes, t, true, 0);
    let before = board_at(notes, style, t, false);
    let after = board_at(notes, style, t, true);
    lemma_count_from(notes, style, t, false, 0);
    lemma_count_from(notes, style, t, true, 0);
    lemma_at_moment(notes, style, t);
    lemma_mines(notes, style, t, row);
    lemma_hits(notes, style, t, row);
    let bits = mine_bits(row, row.len());
    if k < k2 {
        assert(drawable(notes[k], style));
        assert(drawable(notes[k2 - 1], style));
        lemma_drawn_panels(notes[k], style);
        lemma_drawn_panels(notes[k2 - 1], style);
    }
    if k < k2 && notes[k].kind is Shock {
        let shock = notes[k];
        lemma_shock_bits(shock.kind->side, style);
        assert(shock_of(bits, style) == Some(shock.kind->side));
        let pushed = Note {
            beat: Beat::of(t),
            kind: NoteKind::Shock { side: shock.kind->side },
            panels: PanelSet::of(0),
        };
        assert(pushed == shock);
        assert forall|i: int| 0 <= i < k implies before.notes[i] == after.notes[i] by {
            if notes[i].kind is HoldHead {
                assert(clear_of(notes[i], notes[k]));
            }
        }
        assert(before.notes.push(shock) =~= after.notes);
        assert forall|p: int| 0 <= p < row.len() implies before.open[p] == after.open[p] by {
            lemma_open_after(notes, style, t, row, p);
            if row[p] == '2' || row[p] == '3' {
                let i = lemma_drawer_of(notes, style, t, row, p);
                assert(drawable(notes[i], style));
                if i != k {
                    assert(clear_of(notes[i], notes[k]));
                    if notes[i].beat@ == t {
                        assert(!passed(notes[i].beat@, t, false));
                        law_order_is_total(t, t, t);
                    }
                }
            }
        }
        assert(before.open =~= after.open);
    } else {
        let km = if k < k2 && notes[k].kind is Mine {
            k + 1
        } else {
            k
        };
        assert(shock_of(bits, style) is None);
        let start = partly(notes, style, t, row, km, 0);
        let mined = with_mines(row, t, style, before);
        assert(mined.notes =~= start.notes);
        assert(mined.open =~= start.open);
        lemma_cells(notes, style, t, row, m, r, km, 0);
        let closed = partly(notes, style, t, row, km, row.len() as int);
        let done = with_hits(row, t, style, closed);
        let hit = k < k2 && is_hit_note(notes[k2 - 1]);
        assert(hit ==> km == k2 - 1);
        assert(!hit ==> km == k2);
        assert forall|i: int| 0 <= i < km implies closed.notes[i] == after.notes[i] by {
            lemma_closed_note(notes, style, t, row, km, i);
        }
        if hit {
            let note = notes[km];
            if note.kind is HoldHead {
                lemma_tail(note, style);
                law_order_is_total(note.beat@, tail_of(note), t);
            }
            assert(done.notes[km] == after.notes[km]);
        }
        assert(done.notes =~= after.notes);
        assert forall|p: int| 0 <= p < row.len() implies done.open[p] == after.open[p] by {
            lemma_open_after(notes, style, t, row, p);
            assert(closed.open[p] == (if row[p] == '3' {
                None
            } else {
                holder(notes, t, false, p, 0)
            }));
        }
        assert(done.open =~= after.open);
    }
}

} // verus!
