//! Steps that are written read back as the same notes.

use super::merging::{
    ascending, cursor, has_bit_at, has_tick, lemma_cursor, lemma_interleaved, lemma_sorted_masks,
    row_next,
};
use super::mines::{in_i32, is_shock_mask, nearest_tick};
use super::steps::{
    freeze_closed, freeze_ends, head_closed, lemma_tick_parts, note_of_byte, notes_outcome, span,
    FreezeEntry,
};
use super::framing::{entries_of, masks_of, ticks_of};
use super::writer::{
    byte_of_note, interleaved, note_end, rows_of, steps_emitted, tick_masks, TickMask,
};
use super::SsqErrorView;
use crate::model::{
    group_model_values, has_panel, style_mask, tick_beat, Beat, Note, NoteKind, PanelSet, Style,
};
use crate::util::bits::{lemma_bits_equal, lemma_bits_ops, lemma_disjoint, lemma_some_bit};
use crate::util::sort::{in_order, law_sort_fixes_sorted, stable_sorted, Ranked};
use vstd::prelude::*;

verus! {

/// The measure tick of a note.
pub open spec fn tick_of(note: Note) -> int {
    nearest_tick(note.beat)
}

/// The measure tick where a hold ends.
pub open spec fn end_of(note: Note) -> int {
    nearest_tick(note_end(note)->0)
}

/// Whether a note that is no mine can be told from its step byte and freeze-end.
pub open spec fn steppable(note: Note, style: Style) -> bool {
    &&& in_i32(tick_of(note))
    &&& note.beat == tick_beat(tick_of(note))
    &&& match note.kind {
        NoteKind::Tap => note.panels@ != 0 && note.panels@ & style_mask(style) == note.panels@,
        NoteKind::HoldHead { length } => {
            &&& note.panels@ != 0
            &&& note.panels@ & style_mask(style) == note.panels@
            &&& note_end(note) is Some
            &&& in_i32(end_of(note))
            &&& tick_of(note) <= end_of(note)
            &&& length == span(note.beat, tick_beat(end_of(note)))
        },
        NoteKind::Shock { side } => note.panels@ == byte_of_note(note) & style_mask(style),
        NoteKind::Mine => false,
    }
}

/// Whether two notes can follow each other: the second is later, or it is a hold
/// at the same tick on other panels, behind a tap or a hold that lasts longer.
pub open spec fn in_step_order(a: Note, b: Note) -> bool {
    ||| tick_of(a) < tick_of(b)
    ||| {
        &&& tick_of(a) == tick_of(b)
        &&& b.kind is HoldHead
        &&& a.panels@ & b.panels@ == 0
        &&& (a.kind is Tap || (a.kind is HoldHead && end_of(a) > end_of(b)))
    }
}

/// Whether a note leaves a hold alone: it does not hit a panel of the hold
/// between its head and its end.
pub open spec fn undisturbed(hold: Note, n: Note) -> bool {
    hold.panels@ & n.panels@ != 0 ==> !(tick_of(hold) < tick_of(n) <= end_of(hold))
}

/// The step bytes of the notes from `s` to `n`, put together.
pub open spec fn or_mask(notes: Seq<Note>, s: int, n: int) -> u8
    decreases n - s,
{
    if n <= s {
        0
    } else {
        or_mask(notes, s, n - 1) | byte_of_note(notes[n - 1])
    }
}

/// Whether the notes from `s` to `n` are all those of one tick.
pub open spec fn is_group(notes: Seq<Note>, s: int, n: int) -> bool {
    &&& 0 <= s < n <= notes.len()
    &&& forall|i: int| s <= i < n ==> tick_of(#[trigger] notes[i]) == tick_of(notes[s])
    &&& s > 0 ==> tick_of(notes[s - 1]) < tick_of(notes[s])
    &&& n < notes.len() ==> tick_of(notes[s]) < tick_of(notes[n])
}

/// Whether the notes of a chart, mines aside, can all be told from its steps.
pub open spec fn stepwise(notes: Seq<Note>, style: Style) -> bool {
    &&& forall|i: int| 0 <= i < notes.len() ==> steppable(#[trigger] notes[i], style)
    &&& forall|i: int, j: int|
        0 <= i < j < notes.len() ==> in_step_order(#[trigger] notes[i], #[trigger] notes[j])
    &&& forall|i: int, j: int|
        0 <= i < notes.len() && 0 <= j < notes.len() && i != j && (#[trigger] notes[i]).kind is HoldHead
            ==> undisturbed(notes[i], #[trigger] notes[j])
    &&& forall|s: int, n: int| #[trigger]
        is_group(notes, s, n) && !(notes[s].kind is Shock) ==> !is_shock_mask(
            or_mask(notes, s, n),
        )
}

/// The position of a tick is written as that tick again.
pub proof fn law_tick_round_trip(t: int)
    requires
        in_i32(t),
    ensures
        nearest_tick(tick_beat(t)) == t,
{
    lemma_tick_parts(t);
    let (n, d) = tick_beat(t)@;
    assert(n * 1024 == t * d);
    if n * 1024 >= 0 {
        assert(2 * (n * 1024) + d == t * (2 * d) + d) by (nonlinear_arith)
            requires
                n * 1024 == t * d,
        ;
        vstd::arithmetic::div_mod::lemma_fundamental_div_mod_converse(
            2 * (n * 1024) + d,
            2 * d,
            t,
            d,
        );
    } else {
        assert(2 * -(n * 1024) + d == (-t) * (2 * d) + d) by (nonlinear_arith)
            requires
                n * 1024 == t * d,
        ;
        vstd::arithmetic::div_mod::lemma_fundamental_div_mod_converse(
            2 * -(n * 1024) + d,
            2 * d,
            -t,
            d,
        );
    }
}

/// Where the notes at the tick of note `s` end, from `i` on.
pub open spec fn next_group(notes: Seq<Note>, s: int, i: int) -> int
    decreases notes.len() - i,
{
    if i >= notes.len() || tick_of(notes[i]) != tick_of(notes[s]) {
        i
    } else {
        next_group(notes, s, i + 1)
    }
}

/// Where the `k`th group of notes starts.
pub open spec fn group_start(notes: Seq<Note>, k: nat) -> int
    decreases k,
{
    if k == 0 {
        0
    } else {
        let s = group_start(notes, (k - 1) as nat);
        next_group(notes, s, s + 1)
    }
}

proof fn lemma_next_group(notes: Seq<Note>, style: Style, s: int, i: int)
    requires
        stepwise(notes, style),
        0 <= s < i <= notes.len(),
        forall|j: int| s <= j < i ==> tick_of(#[trigger] notes[j]) == tick_of(notes[s]),
    ensures
        ({
            let n = next_group(notes, s, i);
            &&& i <= n <= notes.len()
            &&& forall|j: int| s <= j < n ==> tick_of(#[trigger] notes[j]) == tick_of(notes[s])
            &&& n < notes.len() ==> tick_of(notes[s]) < tick_of(notes[n])
        }),
    decreases notes.len() - i,
{
    if i >= notes.len() {
    } else if tick_of(notes[i]) != tick_of(notes[s]) {
        assert(in_step_order(notes[s], notes[i]));
    } else {
        lemma_next_group(notes, style, s, i + 1);
    }
}

/// The groups of notes follow each other.
proof fn lemma_group_start(notes: Seq<Note>, style: Style, k: nat)
    requires
        stepwise(notes, style),
        group_start(notes, k) < notes.len(),
    ensures
        0 <= group_start(notes, k),
        is_group(notes, group_start(notes, k), group_start(notes, k + 1)),
    decreases k,
{
    let s = group_start(notes, k);
    if k > 0 {
        let r = group_start(notes, (k - 1) as nat);
        if r >= notes.len() {
            assert(s == r + 1);
        } else {
            lemma_group_start(notes, style, (k - 1) as nat);
            assert(tick_of(notes[s - 1]) == tick_of(notes[r]));
        }
    }
    lemma_next_group(notes, style, s, s + 1);
}

/// The row of the `k`th group.
pub open spec fn group_row(notes: Seq<Note>, k: nat) -> TickMask {
    TickMask {
        tick: tick_of(notes[group_start(notes, k)]) as i32,
        mask: or_mask(notes, group_start(notes, k), group_start(notes, k + 1)),
    }
}

/// The rows of all notes.
pub open spec fn all_rows(notes: Seq<Note>) -> Seq<TickMask> {
    Seq::new(
        notes.len(),
        |i: int| TickMask { tick: tick_of(notes[i]) as i32, mask: byte_of_note(notes[i]) },
    )
}

/// The freeze-ends of the first `n` notes.
pub open spec fn all_ends(notes: Seq<Note>, n: nat) -> Seq<TickMask>
    decreases n,
{
    if n == 0 {
        Seq::empty()
    } else {
        let before = all_ends(notes, (n - 1) as nat);
        if notes[n - 1].kind is HoldHead {
            before.push(
                TickMask { tick: end_of(notes[n - 1]) as i32, mask: notes[n - 1].panels@ },
            )
        } else {
            before
        }
    }
}

proof fn lemma_rows_of(notes: Seq<Note>, style: Style, n: nat)
    requires
        stepwise(notes, style),
        n <= notes.len(),
    ensures
        rows_of(notes, n) == Ok::<(Seq<TickMask>, Seq<TickMask>), SsqErrorView>(
            (all_rows(notes).subrange(0, n as int), all_ends(notes, n)),
        ),
    decreases n,
{
    if n == 0 {
        assert(all_rows(notes).subrange(0, 0) =~= Seq::empty());
    } else {
        lemma_rows_of(notes, style, (n - 1) as nat);
        let note = notes[n - 1];
        assert(steppable(note, style));
        let row = TickMask { tick: tick_of(note) as i32, mask: byte_of_note(note) };
        assert(all_rows(notes).subrange(0, n - 1).push(row) =~= all_rows(notes).subrange(
            0,
            n as int,
        ));
    }
}

/// Rows fold by groups.
proof fn lemma_group_rows(notes: Seq<Note>, style: Style, k: nat, m: int)
    requires
        stepwise(notes, style),
        group_start(notes, k) <= m <= notes.len(),
        m > group_start(notes, k) ==> m <= group_start(notes, k + 1),
    ensures
        0 <= group_start(notes, k),
        tick_masks(all_rows(notes).subrange(0, m)) == (if m == group_start(notes, k) {
            Seq::new(k, |j: int| group_row(notes, j as nat))
        } else {
            Seq::new(k, |j: int| group_row(notes, j as nat)).push(
                TickMask {
                    tick: tick_of(notes[group_start(notes, k)]) as i32,
                    mask: or_mask(notes, group_start(notes, k), m),
                },
            )
        }),
    decreases k, m,
{
    let s = group_start(notes, k);
    let rows = all_rows(notes);
    let done = Seq::new(k, |j: int| group_row(notes, j as nat));
    if m == s {
        if k == 0 {
            assert(rows.subrange(0, 0) =~= Seq::empty());
            assert(done =~= Seq::empty());
        } else {
            let r = group_start(notes, (k - 1) as nat);
            if r >= notes.len() {
                assert(s == r + 1);
            } else {
                lemma_group_start(notes, style, (k - 1) as nat);
                lemma_group_rows(notes, style, (k - 1) as nat, s);
                assert(done =~= Seq::new(
                    (k - 1) as nat,
                    |j: int| group_row(notes, j as nat),
                ).push(group_row(notes, (k - 1) as nat)));
            }
        }
    } else {
        lemma_group_start(notes, style, k);
        lemma_group_rows(notes, style, k, m - 1);
        let now = rows.subrange(0, m);
        assert(now.drop_last() =~= rows.subrange(0, m - 1));
        let x = now.last();
        assert(x == rows[m - 1]);
        let before = tick_masks(rows.subrange(0, m - 1));
        assert(tick_of(notes[m - 1]) == tick_of(notes[s]));
        if m - 1 == s {
            if k > 0 {
                let r = group_start(notes, (k - 1) as nat);
                if r < notes.len() {
                    lemma_group_start(notes, style, (k - 1) as nat);
                    assert(before.last() == group_row(notes, (k - 1) as nat));
                    assert(tick_of(notes[r]) == tick_of(notes[s - 1]));
                    assert(steppable(notes[r], style) && steppable(notes[s], style));
                }
            }
            assert(or_mask(notes, s, s) == 0);
            assert(0u8 | byte_of_note(notes[s]) == byte_of_note(notes[s])) by {
                let b = byte_of_note(notes[s]);
                assert(0u8 | b == b) by (bit_vector);
            }
        } else {
            assert(before.drop_last() =~= done);
        }
    }
}

/// How many groups there are.
proof fn lemma_last_group(notes: Seq<Note>, style: Style, k: nat) -> (last: nat)
    requires
        stepwise(notes, style),
        group_start(notes, k) <= notes.len(),
    ensures
        last >= k,
        group_start(notes, last) == notes.len(),
    decreases notes.len() - group_start(notes, k),
{
    if group_start(notes, k) == notes.len() {
        k
    } else {
        lemma_group_start(notes, style, k);
        lemma_last_group(notes, style, k + 1)
    }
}

/// Whether a note is a hold that has not ended before `cut`.
pub open spec fn is_open(note: Note, cut: int) -> bool {
    note.kind is HoldHead && end_of(note) >= cut
}

/// The first `n` notes as they are known at `cut`: holds that have not ended yet
/// are part of the tap at their tick.
pub open spec fn known(notes: Seq<Note>, n: nat, cut: int) -> Seq<Note>
    decreases n,
{
    if n == 0 {
        Seq::empty()
    } else {
        let x = notes[n - 1];
        let before = known(notes, (n - 1) as nat, cut);
        if !is_open(x, cut) {
            before.push(x)
        } else if n >= 2 && tick_of(notes[n - 2]) == tick_of(x) {
            before.drop_last().push(
                Note {
                    beat: x.beat,
                    kind: NoteKind::Tap,
                    panels: PanelSet::of(before.last().panels@ | x.panels@),
                },
            )
        } else {
            before.push(Note { kind: NoteKind::Tap, ..x })
        }
    }
}

/// The first note from `q` on, before `n`, that is a hold which has ended.
spec fn first_closed(notes: Seq<Note>, q: int, n: int, cut: int) -> int
    decreases n - q,
{
    if q >= n || (notes[q].kind is HoldHead && !is_open(notes[q], cut)) {
        q
    } else {
        first_closed(notes, q + 1, n, cut)
    }
}

/// The tap that stands for the notes from `s` to `q`.
spec fn merged(notes: Seq<Note>, s: int, q: int) -> Seq<Note> {
    if q <= s {
        Seq::empty()
    } else {
        seq![
            Note {
                beat: notes[s].beat,
                kind: NoteKind::Tap,
                panels: PanelSet::of(or_mask(notes, s, q)),
            },
        ]
    }
}

proof fn lemma_first_closed(notes: Seq<Note>, style: Style, s: int, q: int, n: int, cut: int)
    requires
        stepwise(notes, style),
        is_group(notes, s, n),
        s <= q <= n,
        !(notes[s].kind is Shock),
        forall|i: int| s <= i < q ==> !(notes[i].kind is HoldHead) || is_open(#[trigger] notes[i], cut),
    ensures
        ({
            let c = first_closed(notes, q, n, cut);
            &&& q <= c <= n
            &&& forall|i: int|
                s <= i < c ==> !(notes[i].kind is HoldHead) || is_open(#[trigger] notes[i], cut)
            &&& forall|i: int|
                c <= i < n ==> (#[trigger] notes[i]).kind is HoldHead && !is_open(notes[i], cut)
        }),
    decreases n - q,
{
    if q < n {
        if notes[q].kind is HoldHead && !is_open(notes[q], cut) {
            assert forall|i: int| q <= i < n implies (#[trigger] notes[i]).kind is HoldHead && !is_open(
                notes[i],
                cut,
            ) by {
                if i > q {
                    assert(in_step_order(notes[q], notes[i]));
                }
            }
        } else {
            lemma_first_closed(notes, style, s, q + 1, n, cut);
        }
    }
}

/// Only the first note of a group is a tap, and none is a shock behind another.
proof fn lemma_group_kinds(notes: Seq<Note>, style: Style, s: int, n: int)
    requires
        stepwise(notes, style),
        is_group(notes, s, n),
    ensures
        forall|i: int| s < i < n ==> (#[trigger] notes[i]).kind is HoldHead,
        notes[s].kind is Shock ==> n == s + 1,
        forall|i: int| s <= i < n ==> (#[trigger] notes[i]).beat == notes[s].beat,
        !(notes[s].kind is Shock) ==> forall|i: int|
            s <= i < n ==> byte_of_note(#[trigger] notes[i]) == notes[i].panels@,
{
    assert forall|i: int| s < i < n implies (#[trigger] notes[i]).kind is HoldHead by {
        assert(in_step_order(notes[s], notes[i]));
    }
    if n > s + 1 {
        assert(in_step_order(notes[s], notes[s + 1]));
    }
    assert forall|i: int| s <= i < n implies (#[trigger] notes[i]).beat == notes[s].beat by {
        assert(steppable(notes[i], style) && steppable(notes[s], style));
    }
    assert(steppable(notes[s], style));
}

/// The notes of a group as they are known: one tap for those that have not
/// ended, then the holds that have.
proof fn lemma_known_group(
    notes: Seq<Note>,
    style: Style,
    s: int,
    n: int,
    cut: int,
    m: int,
)
    requires
        stepwise(notes, style),
        is_group(notes, s, n),
        s <= m <= n,
        !(notes[s].kind is Shock),
    ensures
        ({
            let c = first_closed(notes, s, n, cut);
            let q = if m < c { m } else { c };
            known(notes, m as nat, cut) == known(notes, s as nat, cut) + merged(notes, s, q)
                + notes.subrange(q, m)
        }),
    decreases m - s,
{
    broadcast use group_model_values;

    let c = first_closed(notes, s, n, cut);
    let q = if m < c { m } else { c };
    lemma_first_closed(notes, style, s, s, n, cut);
    lemma_group_kinds(notes, style, s, n);
    let start = known(notes, s as nat, cut);
    if m == s {
        assert(start + merged(notes, s, s) + notes.subrange(s, s) =~= start);
    } else {
        lemma_known_group(notes, style, s, n, cut, m - 1);
        let x = notes[m - 1];
        assert(steppable(x, style));
        let before = known(notes, (m - 1) as nat, cut);
        if m <= c {
            let b = byte_of_note(x);
            assert(or_mask(notes, s, m) == or_mask(notes, s, m - 1) | b);
            assert(notes.subrange(m - 1, m - 1) =~= Seq::empty());
            assert(notes.subrange(m, m) =~= Seq::empty());
            if m - 1 == s {
                assert(or_mask(notes, s, s) == 0);
                assert(0u8 | b == b) by (bit_vector);
                assert(before =~= start);
                if s > 0 {
                    assert(tick_of(notes[s - 1]) < tick_of(notes[s]));
                }
                assert(known(notes, m as nat, cut) =~= start + merged(notes, s, m));
            } else {
                assert(is_open(x, cut));
                assert(tick_of(notes[m - 2]) == tick_of(x));
                assert(before =~= start + merged(notes, s, m - 1));
                assert(before.last() == merged(notes, s, m - 1)[0]);
                assert(before.drop_last() =~= start);
                assert(known(notes, m as nat, cut) =~= start + merged(notes, s, m));
            }
            assert(start + merged(notes, s, m) + notes.subrange(m, m) =~= start + merged(
                notes,
                s,
                m,
            ));
        } else {
            assert(!is_open(x, cut));
            assert(notes.subrange(c, m - 1).push(x) =~= notes.subrange(c, m));
            assert(known(notes, m as nat, cut) =~= start + merged(notes, s, c) + notes.subrange(
                c,
                m,
            ));
        }
    }
}

proof fn lemma_known_shock(notes: Seq<Note>, style: Style, s: int, n: int, cut: int)
    requires
        stepwise(notes, style),
        is_group(notes, s, n),
        notes[s].kind is Shock,
    ensures
        n == s + 1,
        known(notes, n as nat, cut) == known(notes, s as nat, cut).push(notes[s]),
{
    lemma_group_kinds(notes, style, s, n);
}

/// The panels of the holds among the first `n` notes that end at `e`.
pub open spec fn ending(notes: Seq<Note>, n: nat, e: int) -> u8
    decreases n,
{
    if n == 0 {
        0
    } else {
        ending(notes, (n - 1) as nat, e) | (if notes[n - 1].kind is HoldHead && end_of(notes[n - 1])
            == e {
            notes[n - 1].panels@
        } else {
            0u8
        })
    }
}

/// Whether one of the first `n` notes is a hold on panel `p` that ends at `e`.
pub open spec fn ends_on(notes: Seq<Note>, n: int, e: int, p: u8) -> bool {
    exists|i: int|
        0 <= i < n && (#[trigger] notes[i]).kind is HoldHead && end_of(notes[i]) == e && has_panel(
            notes[i].panels@,
            p,
        )
}

proof fn lemma_ending(notes: Seq<Note>, n: nat, e: int, p: u8)
    requires
        p < 8,
        n <= notes.len(),
    ensures
        has_panel(ending(notes, n, e), p) <==> ends_on(notes, n as int, e, p),
    decreases n,
{
    if n == 0 {
        lemma_bits_ops(0, 0, p);
    } else {
        lemma_ending(notes, (n - 1) as nat, e, p);
        let x = notes[n - 1];
        let more = if x.kind is HoldHead && end_of(x) == e {
            x.panels@
        } else {
            0u8
        };
        lemma_bits_ops(ending(notes, (n - 1) as nat, e), more, p);
        if ends_on(notes, n - 1, e, p) {
            let i = choose|i: int|
                0 <= i < n - 1 && (#[trigger] notes[i]).kind is HoldHead && end_of(notes[i]) == e
                    && has_panel(notes[i].panels@, p);
            assert(notes[i].kind is HoldHead);
        }
        if x.kind is HoldHead && end_of(x) == e && has_panel(x.panels@, p) {
            assert(ends_on(notes, n as int, e, p));
        }
        if ends_on(notes, n as int, e, p) {
            let i = choose|i: int|
                0 <= i < n && (#[trigger] notes[i]).kind is HoldHead && end_of(notes[i]) == e
                    && has_panel(notes[i].panels@, p);
            if i < n - 1 {
                assert(ends_on(notes, n - 1, e, p));
            }
        }
    }
}

/// Closing freezes among the first notes leaves those behind them alone.
proof fn lemma_freeze_local(a: Seq<Note>, b: Seq<Note>, n: nat, pending: u8, end: Beat)
    requires
        n <= a.len(),
    ensures
        freeze_closed(a + b, n, pending, end).0 == freeze_closed(a, n, pending, end).0 + b,
        freeze_closed(a + b, n, pending, end).1 == freeze_closed(a, n, pending, end).1,
    decreases n,
{
    if n > 0 && pending != 0 {
        let i = n - 1;
        assert((a + b)[i] == a[i]);
        let hit = a[i].panels@ & pending;
        if hit != 0 && a[i].kind is Tap {
            assert(head_closed(a + b, i, hit, end) =~= head_closed(a, i, hit, end) + b);
            lemma_freeze_local(head_closed(a, i, hit, end), b, i as nat, pending & !hit, end);
        } else {
            lemma_freeze_local(a, b, i as nat, pending & !hit, end);
        }
    }
}

/// Notes that hit none of the pending panels are passed over.
proof fn lemma_freeze_skip(a: Seq<Note>, c: Seq<Note>, k: nat, pending: u8, end: Beat)
    requires
        k <= c.len(),
        forall|i: int| 0 <= i < c.len() ==> (#[trigger] c[i]).panels@ & pending == 0,
    ensures
        freeze_closed(a + c, a.len() + k, pending, end) == freeze_closed(
            a + c,
            a.len(),
            pending,
            end,
        ),
    decreases k,
{
    if k > 0 && pending != 0 {
        let i = a.len() + k - 1;
        assert((a + c)[i] == c[k - 1]);
        assert(c[k - 1].panels@ & pending == 0);
        assert(pending & !0u8 == pending) by (bit_vector);
        lemma_freeze_skip(a, c, (k - 1) as nat, pending, end);
    }
}

/// Whether one of the notes from `s` to `n` has panel `p` in its step byte.
spec fn steps_on(notes: Seq<Note>, s: int, n: int, p: u8) -> bool {
    exists|i: int| s <= i < n && has_panel(byte_of_note(#[trigger] notes[i]), p)
}

proof fn lemma_or_bit(notes: Seq<Note>, s: int, n: int, p: u8)
    requires
        p < 8,
    ensures
        has_panel(or_mask(notes, s, n), p) <==> steps_on(notes, s, n, p),
    decreases n - s,
{
    if n <= s {
        lemma_bits_ops(0, 0, p);
    } else {
        lemma_or_bit(notes, s, n - 1, p);
        lemma_bits_ops(or_mask(notes, s, n - 1), byte_of_note(notes[n - 1]), p);
        if steps_on(notes, s, n - 1, p) {
            let i = choose|i: int| s <= i < n - 1 && has_panel(byte_of_note(#[trigger] notes[i]), p);
            assert(has_panel(byte_of_note(notes[i]), p));
        }
        if has_panel(byte_of_note(notes[n - 1]), p) {
            assert(steps_on(notes, s, n, p));
        }
        if steps_on(notes, s, n, p) {
            let i = choose|i: int| s <= i < n && has_panel(byte_of_note(#[trigger] notes[i]), p);
            if i < n - 1 {
                assert(steps_on(notes, s, n - 1, p));
            }
        }
    }
}

/// Where no hold ends between two cuts, the notes are known alike.
proof fn lemma_known_same(notes: Seq<Note>, n: nat, a: int, b: int)
    requires
        n <= notes.len(),
        forall|i: int| 0 <= i < n ==> (is_open(#[trigger] notes[i], a) <==> is_open(notes[i], b)),
    ensures
        known(notes, n, a) == known(notes, n, b),
    decreases n,
{
    if n > 0 {
        lemma_known_same(notes, (n - 1) as nat, a, b);
        assert(is_open(notes[n - 1], a) <==> is_open(notes[n - 1], b));
    }
}

/// A panel of a group's note and a hold that ends at `e`: the note is the hold.
proof fn lemma_owner(
    notes: Seq<Note>,
    style: Style,
    s: int,
    n: int,
    e: int,
    j: int,
    h: int,
    p: u8,
)
    requires
        stepwise(notes, style),
        is_group(notes, s, n),
        tick_of(notes[s]) <= e,
        s <= j < n,
        0 <= h < n,
        p < 8,
        has_panel(notes[j].panels@, p),
        notes[h].kind is HoldHead,
        end_of(notes[h]) == e,
        has_panel(notes[h].panels@, p),
    ensures
        h == j,
{
    lemma_disjoint(notes[h].panels@, notes[j].panels@);
    lemma_disjoint(notes[j].panels@, notes[h].panels@);
    assert(tick_of(notes[j]) == tick_of(notes[s]));
    if h < s {
        assert(undisturbed(notes[h], notes[j]));
        assert(in_step_order(notes[h], notes[s]));
        if tick_of(notes[h]) == tick_of(notes[s]) {
            assert(in_step_order(notes[h], notes[s - 1]) || h == s - 1);
        }
    } else if h < j {
        assert(in_step_order(notes[h], notes[j]));
    } else if j < h {
        assert(in_step_order(notes[j], notes[h]));
        assert(tick_of(notes[h]) == tick_of(notes[s]));
    }
}

/// The panels that end at `e`, with those of a group.
proof fn lemma_ending_group(notes: Seq<Note>, style: Style, s: int, n: int, e: int)
    requires
        stepwise(notes, style),
        is_group(notes, s, n),
        forall|i: int| s <= i < n ==> !(#[trigger] notes[i].kind is HoldHead && end_of(notes[i]) == e),
    ensures
        ending(notes, n as nat, e) == ending(notes, s as nat, e),
{
    assert forall|p: u8| p < 8 implies (#[trigger] has_panel(ending(notes, n as nat, e), p)
        <==> has_panel(ending(notes, s as nat, e), p)) by {
        lemma_ending(notes, n as nat, e, p);
        lemma_ending(notes, s as nat, e, p);
        if ends_on(notes, n, e, p) {
            let i = choose|i: int|
                0 <= i < n && (#[trigger] notes[i]).kind is HoldHead && end_of(notes[i]) == e
                    && has_panel(notes[i].panels@, p);
            assert(i < s);
            assert(ends_on(notes, s, e, p));
        }
        if ends_on(notes, s, e, p) {
            let i = choose|i: int|
                0 <= i < s && (#[trigger] notes[i]).kind is HoldHead && end_of(notes[i]) == e
                    && has_panel(notes[i].panels@, p);
            assert(notes[i].kind is HoldHead);
            assert(ends_on(notes, n, e, p));
        }
    }
    lemma_bits_equal(ending(notes, n as nat, e), ending(notes, s as nat, e));
}

/// A note of a group that is not ending hits no panel that is.
proof fn lemma_not_ending(notes: Seq<Note>, style: Style, s: int, n: int, e: int, j: int)
    requires
        stepwise(notes, style),
        is_group(notes, s, n),
        tick_of(notes[s]) <= e,
        s <= j < n,
        !(notes[j].kind is HoldHead && end_of(notes[j]) == e),
    ensures
        notes[j].panels@ & ending(notes, n as nat, e) == 0,
{
    let b = notes[j].panels@;
    let pend = ending(notes, n as nat, e);
    assert forall|p: u8| p < 8 implies !(#[trigger] has_panel(b, p) && has_panel(pend, p)) by {
        if has_panel(b, p) && has_panel(pend, p) {
            lemma_ending(notes, n as nat, e, p);
            let h = choose|h: int|
                0 <= h < n && (#[trigger] notes[h]).kind is HoldHead && end_of(notes[h]) == e
                    && has_panel(notes[h].panels@, p);
            lemma_owner(notes, style, s, n, e, j, h, p);
        }
    }
    lemma_disjoint(b, pend);
}

/// The panels of a group that end at `e`: those of its last hold that has not
/// ended, if it ends there.
spec fn group_ending(notes: Seq<Note>, c: int, e: int) -> u8 {
    if notes[c - 1].kind is HoldHead && end_of(notes[c - 1]) == e {
        notes[c - 1].panels@
    } else {
        0
    }
}

/// No other note of a group ends at `e`.
proof fn lemma_one_ends(notes: Seq<Note>, style: Style, s: int, n: int, e: int, j: int)
    requires
        stepwise(notes, style),
        is_group(notes, s, n),
        !(notes[s].kind is Shock),
        s <= j < n,
        notes[j].kind is HoldHead,
        end_of(notes[j]) == e,
    ensures
        j == first_closed(notes, s, n, e) - 1,
{
    let c = first_closed(notes, s, n, e);
    lemma_first_closed(notes, style, s, s, n, e);
    lemma_group_kinds(notes, style, s, n);
    if j >= c {
        assert(!is_open(notes[j], e));
    } else if j < c - 1 {
        assert(in_step_order(notes[j], notes[c - 1]));
        assert(is_open(notes[c - 1], e));
    }
}

proof fn lemma_group_hit(notes: Seq<Note>, style: Style, s: int, n: int, e: int)
    requires
        stepwise(notes, style),
        is_group(notes, s, n),
        tick_of(notes[s]) <= e,
        !(notes[s].kind is Shock),
        first_closed(notes, s, n, e) > s,
    ensures
        ({
            let c = first_closed(notes, s, n, e);
            let x = group_ending(notes, c, e);
            let pend = ending(notes, n as nat, e);
            let all = or_mask(notes, s, c);
            &&& s < c <= n
            &&& all & pend == x
            &&& pend & !x == ending(notes, s as nat, e)
            &&& all != 0
            &&& x != 0 ==> all & !x == or_mask(notes, s, c - 1) && (x == all <==> c - 1 == s)
        }),
{
    let c = first_closed(notes, s, n, e);
    let x = group_ending(notes, c, e);
    let pend = ending(notes, n as nat, e);
    let first = ending(notes, s as nat, e);
    let all = or_mask(notes, s, c);
    let less = or_mask(notes, s, c - 1);
    lemma_first_closed(notes, style, s, s, n, e);
    lemma_group_kinds(notes, style, s, n);
    assert(steppable(notes[c - 1], style));
    assert(steppable(notes[s], style));
    assert forall|p: u8| p < 8 implies (#[trigger] has_panel(all & pend, p) <==> has_panel(x, p)) by {
        lemma_bits_ops(all, pend, p);
        lemma_or_bit(notes, s, c, p);
        lemma_ending(notes, n as nat, e, p);
        if has_panel(all, p) && has_panel(pend, p) {
            let j = choose|j: int| s <= j < c && has_panel(byte_of_note(#[trigger] notes[j]), p);
            let h = choose|h: int|
                0 <= h < n && (#[trigger] notes[h]).kind is HoldHead && end_of(notes[h]) == e
                    && has_panel(notes[h].panels@, p);
            assert(byte_of_note(notes[j]) == notes[j].panels@);
            lemma_owner(notes, style, s, n, e, j, h, p);
            lemma_one_ends(notes, style, s, n, e, j);
        }
        if has_panel(x, p) {
            lemma_bits_ops(0, 0, p);
            assert(x == notes[c - 1].panels@);
            assert(byte_of_note(notes[c - 1]) == notes[c - 1].panels@);
            assert(steps_on(notes, s, c, p));
            assert(ends_on(notes, n, e, p));
        }
    }
    lemma_bits_equal(all & pend, x);
    assert forall|p: u8| p < 8 implies (#[trigger] has_panel(pend & !x, p) <==> has_panel(first, p)) by {
        lemma_bits_ops(pend, x, p);
        lemma_ending(notes, n as nat, e, p);
        lemma_ending(notes, s as nat, e, p);
        lemma_bits_ops(0, 0, p);
        if has_panel(pend, p) && !has_panel(x, p) {
            let h = choose|h: int|
                0 <= h < n && (#[trigger] notes[h]).kind is HoldHead && end_of(notes[h]) == e
                    && has_panel(notes[h].panels@, p);
            if h >= s {
                lemma_one_ends(notes, style, s, n, e, h);
            }
            assert(ends_on(notes, s, e, p));
        }
        if has_panel(first, p) {
            let h = choose|h: int|
                0 <= h < s && (#[trigger] notes[h]).kind is HoldHead && end_of(notes[h]) == e
                    && has_panel(notes[h].panels@, p);
            assert(notes[h].kind is HoldHead);
            assert(ends_on(notes, n, e, p));
            if has_panel(x, p) {
                lemma_owner(notes, style, s, n, e, c - 1, h, p);
            }
        }
    }
    lemma_bits_equal(pend & !x, first);
    // The first note of the group has a panel.
    lemma_some_bit(notes[s].panels@);
    let b = choose|b: u8| b < 8 && #[trigger] has_panel(notes[s].panels@, b);
    lemma_or_bit(notes, s, c, b);
    assert(byte_of_note(notes[s]) == notes[s].panels@);
    assert(steps_on(notes, s, c, b));
    lemma_bits_ops(0, 0, b);
    if x != 0 {
        assert(byte_of_note(notes[c - 1]) == x);
        assert(all == less | x);
        assert forall|p: u8| p < 8 implies (#[trigger] has_panel(all & !x, p) <==> has_panel(less, p)) by {
            lemma_bits_ops(all, x, p);
            lemma_bits_ops(less, x, p);
            lemma_or_bit(notes, s, c - 1, p);
            if has_panel(less, p) && has_panel(x, p) {
                let j = choose|j: int|
                    s <= j < c - 1 && has_panel(byte_of_note(#[trigger] notes[j]), p);
                assert(in_step_order(notes[j], notes[c - 1]));
                lemma_disjoint(notes[j].panels@, notes[c - 1].panels@);
            }
        }
        lemma_bits_equal(all & !x, less);
        if c - 1 == s {
            assert(less == 0);
            assert(0u8 | x == x) by (bit_vector);
        } else {
            lemma_or_bit(notes, s, c - 1, b);
            assert(steps_on(notes, s, c - 1, b));
            if x == all {
                assert(x & !x == 0) by (bit_vector);
            }
        }
    }
}

/// Whether closing the holds that end at `e` brings the first `n` notes from one
/// cut to the next.
spec fn closes(notes: Seq<Note>, n: int, e: int, cut: int) -> bool {
    let now = known(notes, n as nat, e);
    freeze_closed(now, now.len(), ending(notes, n as nat, e), tick_beat(e)) == (
        known(notes, n as nat, cut),
        0u8,
    )
}

/// Whether no hold ends between `e` and `cut`.
spec fn next_cut(notes: Seq<Note>, e: int, cut: int) -> bool {
    &&& e < cut
    &&& forall|i: int|
        0 <= i < notes.len() && (#[trigger] notes[i]).kind is HoldHead ==> end_of(notes[i]) <= e
            || end_of(notes[i]) >= cut
}

proof fn lemma_closes_shock(notes: Seq<Note>, style: Style, s: int, n: int, e: int, cut: int)
    requires
        stepwise(notes, style),
        is_group(notes, s, n),
        tick_of(notes[s]) <= e,
        notes[s].kind is Shock,
        closes(notes, s, e, cut),
    ensures
        closes(notes, n, e, cut),
{
    let at = tick_beat(e);
    let pend = ending(notes, n as nat, e);
    let a = known(notes, s as nat, e);
    let a2 = known(notes, s as nat, cut);
    lemma_known_shock(notes, style, s, n, e);
    lemma_known_shock(notes, style, s, n, cut);
    lemma_ending_group(notes, style, s, n, e);
    lemma_not_ending(notes, style, s, n, e, s);
    let c = seq![notes[s]];
    assert(known(notes, n as nat, e) =~= a + c);
    lemma_freeze_skip(a, c, 1, pend, at);
    lemma_freeze_local(a, c, a.len(), pend, at);
    assert(a2 + c =~= known(notes, n as nat, cut));
}

/// The holds of a group that have ended are passed over.
proof fn lemma_skip_closed(notes: Seq<Note>, style: Style, s: int, n: int, e: int)
    requires
        stepwise(notes, style),
        is_group(notes, s, n),
        tick_of(notes[s]) <= e,
        !(notes[s].kind is Shock),
    ensures
        ({
            let c = first_closed(notes, s, n, e);
            let am = known(notes, s as nat, e) + merged(notes, s, c);
            let closed = notes.subrange(c, n);
            let now = known(notes, n as nat, e);
            let pend = ending(notes, n as nat, e);
            let inner = freeze_closed(am, am.len(), pend, tick_beat(e));
            &&& now == am + closed
            &&& freeze_closed(now, now.len(), pend, tick_beat(e)) == (inner.0 + closed, inner.1)
        }),
{
    let at = tick_beat(e);
    let c = first_closed(notes, s, n, e);
    let pend = ending(notes, n as nat, e);
    lemma_first_closed(notes, style, s, s, n, e);
    lemma_known_group(notes, style, s, n, e, n);
    let am = known(notes, s as nat, e) + merged(notes, s, c);
    let closed = notes.subrange(c, n);
    assert forall|i: int| 0 <= i < closed.len() implies (#[trigger] closed[i]).panels@ & pend == 0 by {
        assert(closed[i] == notes[c + i]);
        assert(!is_open(notes[c + i], e));
        lemma_not_ending(notes, style, s, n, e, c + i);
    }
    lemma_freeze_skip(am, closed, closed.len(), pend, at);
    lemma_freeze_local(am, closed, am.len(), pend, at);
}

/// Where all of a group has ended, nothing of it changes.
proof fn lemma_closes_ended(notes: Seq<Note>, style: Style, s: int, n: int, e: int, cut: int)
    requires
        stepwise(notes, style),
        is_group(notes, s, n),
        tick_of(notes[s]) <= e,
        next_cut(notes, e, cut),
        !(notes[s].kind is Shock),
        first_closed(notes, s, n, e) == s,
        closes(notes, s, e, cut),
    ensures
        closes(notes, n, e, cut),
{
    let c2 = first_closed(notes, s, n, cut);
    let a = known(notes, s as nat, e);
    let a2 = known(notes, s as nat, cut);
    lemma_first_closed(notes, style, s, s, n, e);
    lemma_first_closed(notes, style, s, s, n, cut);
    lemma_known_group(notes, style, s, n, cut, n);
    lemma_skip_closed(notes, style, s, n, e);
    let closed = notes.subrange(s, n);
    assert forall|i: int| s <= i < n implies !(#[trigger] notes[i].kind is HoldHead && end_of(
        notes[i],
    ) == e) by {
        assert(!is_open(notes[i], e));
    }
    lemma_ending_group(notes, style, s, n, e);
    assert(a + merged(notes, s, s) =~= a);
    assert(c2 == s) by {
        if c2 > s {
            assert(notes[s].kind is HoldHead && !is_open(notes[s], e));
            assert(is_open(notes[s], cut));
        }
    }
    assert(a2 + merged(notes, s, s) + closed =~= a2 + closed);
}

/// Where nothing of a group ends at `e`, its tap stays.
proof fn lemma_closes_other(notes: Seq<Note>, style: Style, s: int, n: int, e: int, cut: int)
    requires
        stepwise(notes, style),
        is_group(notes, s, n),
        tick_of(notes[s]) <= e,
        next_cut(notes, e, cut),
        !(notes[s].kind is Shock),
        first_closed(notes, s, n, e) > s,
        group_ending(notes, first_closed(notes, s, n, e), e) == 0,
        closes(notes, s, e, cut),
    ensures
        closes(notes, n, e, cut),
{
    broadcast use group_model_values;

    let at = tick_beat(e);
    let c = first_closed(notes, s, n, e);
    let c2 = first_closed(notes, s, n, cut);
    let pend = ending(notes, n as nat, e);
    let a = known(notes, s as nat, e);
    let a2 = known(notes, s as nat, cut);
    lemma_first_closed(notes, style, s, s, n, e);
    lemma_first_closed(notes, style, s, s, n, cut);
    lemma_known_group(notes, style, s, n, cut, n);
    lemma_skip_closed(notes, style, s, n, e);
    lemma_group_hit(notes, style, s, n, e);
    let m = merged(notes, s, c);
    let closed = notes.subrange(c, n);
    let am = a + m;
    let i = a.len() as int;
    assert(am[i] == m[0]);
    assert(am.len() == i + 1);
    assert(am[i].panels@ & pend == 0);
    assert(pend & !0u8 == pend) by (bit_vector);
    assert(c2 == c) by {
        if c2 < c {
            assert(notes[c2].kind is HoldHead && !is_open(notes[c2], cut));
            assert(is_open(notes[c2], e));
            lemma_one_ends(notes, style, s, n, e, c2);
            assert(steppable(notes[c - 1], style));
        } else if c2 > c {
            assert(notes[c].kind is HoldHead && !is_open(notes[c], e));
            assert(is_open(notes[c], cut));
        }
    }
    lemma_freeze_local(a, m, a.len(), pend, at);
    assert(pend == ending(notes, s as nat, e));
    assert(freeze_closed(am, am.len(), pend, at) == (a2 + m, 0u8)) by {
        if pend == 0 {
            assert(a == a2);
        } else {
            assert(freeze_closed(am, am.len(), pend, at) == freeze_closed(am, i as nat, pend, at));
        }
    }
}

/// Where a hold of a group ends at `e`, it comes out of the tap.
#[verifier::rlimit(40)]
proof fn lemma_closes_hold(notes: Seq<Note>, style: Style, s: int, n: int, e: int, cut: int)
    requires
        stepwise(notes, style),
        is_group(notes, s, n),
        tick_of(notes[s]) <= e,
        next_cut(notes, e, cut),
        !(notes[s].kind is Shock),
        first_closed(notes, s, n, e) > s,
        group_ending(notes, first_closed(notes, s, n, e), e) != 0,
        closes(notes, s, e, cut),
    ensures
        closes(notes, n, e, cut),
{
    broadcast use group_model_values;

    let at = tick_beat(e);
    let c = first_closed(notes, s, n, e);
    let c2 = first_closed(notes, s, n, cut);
    let pend = ending(notes, n as nat, e);
    let a = known(notes, s as nat, e);
    let a2 = known(notes, s as nat, cut);
    lemma_first_closed(notes, style, s, s, n, e);
    lemma_first_closed(notes, style, s, s, n, cut);
    lemma_group_kinds(notes, style, s, n);
    lemma_known_group(notes, style, s, n, cut, n);
    lemma_skip_closed(notes, style, s, n, e);
    lemma_group_hit(notes, style, s, n, e);
    let m = merged(notes, s, c);
    let closed = notes.subrange(c, n);
    let am = a + m;
    let i = a.len() as int;
    let tap = m[0];
    let x = group_ending(notes, c, e);
    let z = notes[c - 1];
    assert(am[i] == tap);
    assert(am.len() == i + 1);
    assert(tap.panels@ & pend == x);
    assert(steppable(z, style));
    assert(c2 == c - 1) by {
        assert(!is_open(z, cut));
        if c2 < c - 1 {
            assert(notes[c2].kind is HoldHead && !is_open(notes[c2], cut));
            assert(is_open(notes[c2], e));
            lemma_one_ends(notes, style, s, n, e, c2);
        } else if c2 > c - 1 {
            assert(!(notes[c - 1].kind is HoldHead) || is_open(notes[c - 1], cut));
        }
    }
    let r = merged(notes, s, c - 1).push(z);
    let after = head_closed(am, i, x, at);
    assert(z == Note {
        beat: tap.beat,
        kind: NoteKind::HoldHead { length: span(tap.beat, at) },
        panels: PanelSet::of(x),
    });
    assert(after =~= a + r);
    assert(pend != 0) by {
        if pend == 0 {
            let all = or_mask(notes, s, c);
            assert(all & 0u8 == 0) by (bit_vector);
        }
    }
    assert(freeze_closed(am, am.len(), pend, at) == freeze_closed(after, i as nat, pend & !x, at));
    lemma_freeze_local(a, r, a.len(), pend & !x, at);
    assert(a2 + merged(notes, s, c - 1) + notes.subrange(c - 1, n) =~= a2 + r + closed);
}

/// Closing the holds that end at `e` among the notes of the first `k` groups.
proof fn lemma_freeze_groups(notes: Seq<Note>, style: Style, k: nat, e: int, cut: int)
    requires
        stepwise(notes, style),
        group_start(notes, k) <= notes.len(),
        next_cut(notes, e, cut),
        k > 0 ==> tick_of(notes[group_start(notes, k) - 1]) <= e,
    ensures
        closes(notes, group_start(notes, k), e, cut),
    decreases k,
{
    let n = group_start(notes, k);
    if k == 0 {
        assert(known(notes, 0, e) =~= known(notes, 0, cut));
    } else {
        let s = group_start(notes, (k - 1) as nat);
        if s >= notes.len() {
            assert(n == s + 1);
        }
        lemma_group_start(notes, style, (k - 1) as nat);
        assert(tick_of(notes[n - 1]) == tick_of(notes[s]));
        if k > 1 {
            let r = group_start(notes, (k - 2) as nat);
            if r >= notes.len() {
                assert(s == r + 1);
            }
            lemma_group_start(notes, style, (k - 2) as nat);
        }
        lemma_freeze_groups(notes, style, (k - 1) as nat, e, cut);
        if notes[s].kind is Shock {
            lemma_closes_shock(notes, style, s, n, e, cut);
        } else {
            lemma_first_closed(notes, style, s, s, n, e);
            let c = first_closed(notes, s, n, e);
            if c == s {
                lemma_closes_ended(notes, style, s, n, e, cut);
            } else if group_ending(notes, c, e) == 0 {
                lemma_closes_other(notes, style, s, n, e, cut);
            } else {
                lemma_closes_hold(notes, style, s, n, e, cut);
            }
        }
    }
}

/// The rows of the first `count` groups.
pub open spec fn group_rows(notes: Seq<Note>, count: nat) -> Seq<TickMask> {
    Seq::new(count, |j: int| group_row(notes, j as nat))
}

/// The freeze-ends of all notes, folded by tick.
pub open spec fn folded_ends(notes: Seq<Note>) -> Seq<TickMask> {
    tick_masks(stable_sorted(all_ends(notes, notes.len())))
}

/// Whether one of the first `n` notes is a hold that ends at `e`.
spec fn some_ends(notes: Seq<Note>, n: int, e: int) -> bool {
    exists|i: int| 0 <= i < n && (#[trigger] notes[i]).kind is HoldHead && end_of(notes[i]) == e
}

proof fn lemma_all_ends(notes: Seq<Note>, style: Style, n: nat, t: i32, p: u8)
    requires
        stepwise(notes, style),
        n <= notes.len(),
    ensures
        has_tick(all_ends(notes, n), t) <==> some_ends(notes, n as int, t as int),
        has_bit_at(all_ends(notes, n), t, p) <==> ends_on(notes, n as int, t as int, p),
    decreases n,
{
    let all = all_ends(notes, n);
    if n > 0 {
        lemma_all_ends(notes, style, (n - 1) as nat, t, p);
        let before = all_ends(notes, (n - 1) as nat);
        let x = notes[n - 1];
        assert(steppable(x, style));
        if has_tick(before, t) {
            let i = choose|i: int| 0 <= i < before.len() && (#[trigger] before[i]).tick == t;
            assert(all[i].tick == t);
            let j = choose|j: int|
                0 <= j < n - 1 && (#[trigger] notes[j]).kind is HoldHead && end_of(notes[j]) == t;
            assert(notes[j].kind is HoldHead);
            assert(some_ends(notes, n as int, t as int));
        }
        if has_bit_at(before, t, p) {
            let i = choose|i: int|
                0 <= i < before.len() && (#[trigger] before[i]).tick == t && has_panel(
                    before[i].mask,
                    p,
                );
            assert(all[i].tick == t && has_panel(all[i].mask, p));
            let j = choose|j: int|
                0 <= j < n - 1 && (#[trigger] notes[j]).kind is HoldHead && end_of(notes[j]) == t
                    && has_panel(notes[j].panels@, p);
            assert(notes[j].kind is HoldHead);
            assert(ends_on(notes, n as int, t as int, p));
        }
        if x.kind is HoldHead && end_of(x) == t {
            let k = before.len() as int;
            assert(all[k].tick == t);
            assert(has_tick(all, t));
            assert(some_ends(notes, n as int, t as int));
            if has_panel(x.panels@, p) {
                assert(all[k].tick == t && has_panel(all[k].mask, p));
                assert(ends_on(notes, n as int, t as int, p));
            }
        }
        if has_tick(all, t) {
            let i = choose|i: int| 0 <= i < all.len() && (#[trigger] all[i]).tick == t;
            if i < before.len() {
                assert(before[i].tick == t);
            }
        }
        if has_bit_at(all, t, p) {
            let i = choose|i: int|
                0 <= i < all.len() && (#[trigger] all[i]).tick == t && has_panel(all[i].mask, p);
            if i < before.len() {
                assert(before[i].tick == t && has_panel(before[i].mask, p));
            }
        }
        if some_ends(notes, n as int, t as int) {
            let j = choose|j: int|
                0 <= j < n && (#[trigger] notes[j]).kind is HoldHead && end_of(notes[j]) == t;
            if j < n - 1 {
                assert(some_ends(notes, n - 1, t as int));
            }
        }
        if ends_on(notes, n as int, t as int, p) {
            let j = choose|j: int|
                0 <= j < n && (#[trigger] notes[j]).kind is HoldHead && end_of(notes[j]) == t
                    && has_panel(notes[j].panels@, p);
            if j < n - 1 {
                assert(ends_on(notes, n - 1, t as int, p));
            }
        }
    }
}

/// Every hold ends at one of the folded ends, and each of these has the panels
/// that end there.
proof fn lemma_folded(notes: Seq<Note>, style: Style)
    requires
        stepwise(notes, style),
    ensures
        ascending(folded_ends(notes)),
        forall|i: int|
            0 <= i < notes.len() && (#[trigger] notes[i]).kind is HoldHead ==> exists|j: int|
                0 <= j < folded_ends(notes).len() && (#[trigger] folded_ends(notes)[j]).tick
                    == end_of(notes[i]),
        forall|j: int|
            0 <= j < folded_ends(notes).len() ==> (#[trigger] folded_ends(notes)[j]).mask == ending(
                notes,
                notes.len(),
                folded_ends(notes)[j].tick as int,
            ),
{
    let ends = all_ends(notes, notes.len());
    let f = folded_ends(notes);
    lemma_sorted_masks(ends);
    assert forall|i: int| 0 <= i < notes.len() && (#[trigger] notes[i]).kind is HoldHead implies exists|
        j: int,
    | 0 <= j < f.len() && (#[trigger] f[j]).tick == end_of(notes[i]) by {
        assert(steppable(notes[i], style));
        let t = end_of(notes[i]) as i32;
        lemma_all_ends(notes, style, notes.len(), t, 0);
        assert(some_ends(notes, notes.len() as int, t as int));
        assert(has_tick(f, t));
        let j = choose|j: int| 0 <= j < f.len() && (#[trigger] f[j]).tick == t;
        assert(f[j].tick == end_of(notes[i]));
    }
    assert forall|j: int| 0 <= j < f.len() implies (#[trigger] f[j]).mask == ending(
        notes,
        notes.len(),
        f[j].tick as int,
    ) by {
        let t = f[j].tick;
        let want = ending(notes, notes.len(), t as int);
        assert forall|p: u8| p < 8 implies (#[trigger] has_panel(f[j].mask, p) <==> has_panel(want, p)) by {
            lemma_all_ends(notes, style, notes.len(), t, p);
            lemma_ending(notes, notes.len(), t as int, p);
            assert(has_bit_at(f, t, p) <==> has_bit_at(ends, t, p));
            if has_panel(f[j].mask, p) {
                assert(has_bit_at(f, t, p));
            }
            if has_bit_at(f, t, p) {
                let k = choose|k: int|
                    0 <= k < f.len() && (#[trigger] f[k]).tick == t && has_panel(f[k].mask, p);
                if k < j {
                    assert(f[k].tick < f[j].tick);
                } else if j < k {
                    assert(f[j].tick < f[k].tick);
                }
            }
        }
        lemma_bits_equal(f[j].mask, want);
    }
}

/// The next end behind the first `fi`.
spec fn cut_at(f: Seq<TickMask>, fi: int) -> int {
    if fi < f.len() {
        f[fi].tick as int
    } else {
        0x8000_0000
    }
}

/// The note of a row.
proof fn lemma_row_note(notes: Seq<Note>, style: Style, k: nat, cut: int)
    requires
        stepwise(notes, style),
        group_start(notes, k) < notes.len(),
        forall|i: int|
            group_start(notes, k) <= i < group_start(notes, k + 1) && (#[trigger] notes[i]).kind is HoldHead
                ==> end_of(notes[i]) >= cut,
    ensures
        ({
            let s = group_start(notes, k) as nat;
            let n = group_start(notes, k + 1) as nat;
            let row = group_row(notes, k);
            &&& row.mask != 0
            &&& row.tick == tick_of(notes[s as int])
            &&& known(notes, n, cut) == known(notes, s, cut).push(
                note_of_byte(row.mask, style, tick_beat(row.tick as int)),
            )
        }),
{
    broadcast use group_model_values;

    let s = group_start(notes, k);
    let n = group_start(notes, k + 1);
    lemma_group_start(notes, style, k);
    lemma_group_kinds(notes, style, s, n);
    assert(steppable(notes[s], style));
    let mask = or_mask(notes, s, n);
    let b = byte_of_note(notes[s]);
    if notes[s].kind is Shock {
        lemma_known_shock(notes, style, s, n, cut);
        assert(or_mask(notes, s, s) == 0);
        assert(0u8 | b == b) by (bit_vector);
        assert(mask == b);
        assert(note_of_byte(b, style, notes[s].beat) == notes[s]);
    } else {
        lemma_first_closed(notes, style, s, s, n, cut);
        let c = first_closed(notes, s, n, cut);
        if c < n {
            assert(notes[c].kind is HoldHead && !is_open(notes[c], cut));
        }
        lemma_known_group(notes, style, s, n, cut, n);
        assert(notes.subrange(n, n) =~= Seq::empty());
        assert(!is_shock_mask(mask));
        // The row has the panels of its first note, and panels of the style only.
        lemma_some_bit(notes[s].panels@);
        let p = choose|p: u8| p < 8 && #[trigger] has_panel(notes[s].panels@, p);
        lemma_or_bit(notes, s, n, p);
        assert(b == notes[s].panels@);
        assert(steps_on(notes, s, n, p));
        lemma_bits_ops(0, 0, p);
        assert forall|q: u8| q < 8 implies (#[trigger] has_panel(mask & style_mask(style), q)
            <==> has_panel(mask, q)) by {
            lemma_bits_ops(mask, style_mask(style), q);
            lemma_or_bit(notes, s, n, q);
            if has_panel(mask, q) {
                let i = choose|i: int| s <= i < n && has_panel(byte_of_note(#[trigger] notes[i]), q);
                assert(steppable(notes[i], style));
                assert(byte_of_note(notes[i]) == notes[i].panels@);
                lemma_bits_ops(notes[i].panels@, style_mask(style), q);
            }
        }
        lemma_bits_equal(mask & style_mask(style), mask);
        assert(known(notes, n as nat, cut) =~= known(notes, s as nat, cut).push(
            note_of_byte(mask, style, notes[s].beat),
        ));
    }
}

/// What is so once the first `j` entries have been read.
spec fn read_so_far(
    notes: Seq<Note>,
    style: Style,
    count: nat,
    j: nat,
    offset: usize,
) -> bool {
    let r = group_rows(notes, count);
    let f = folded_ends(notes);
    let steps = interleaved(r, f, 0, 0);
    let entries = entries_of(Seq::new(f.len(), |i: int| (f[i].mask, 1u8)));
    let (ri, fi) = cursor(r, f, j);
    &&& notes_outcome(style, ticks_of(steps), masks_of(steps), entries, j, offset) == Ok::<
        Seq<Note>,
        SsqErrorView,
    >(known(notes, group_start(notes, ri as nat) as nat, cut_at(f, fi)))
    &&& freeze_ends(masks_of(steps), j) == fi
    &&& fi > 0 && ri < count ==> f[fi - 1].tick < r[ri].tick
    &&& ri > 0 && fi < f.len() ==> r[ri - 1].tick <= f[fi].tick
}

/// Where the groups start.
proof fn lemma_starts(notes: Seq<Note>, style: Style, count: nat, k: nat)
    requires
        stepwise(notes, style),
        group_start(notes, count) == notes.len(),
        k < count,
    ensures
        0 <= group_start(notes, k) < notes.len(),
        is_group(notes, group_start(notes, k), group_start(notes, k + 1)),
    decreases count - k,
{
    if k + 1 < count {
        lemma_starts(notes, style, count, k + 1);
    }
    let s = group_start(notes, k);
    if s >= notes.len() {
        assert(group_start(notes, k + 1) == s + 1);
    }
    lemma_group_start(notes, style, k);
}

/// Rows go up in tick.
proof fn lemma_rows_ascend(notes: Seq<Note>, style: Style, count: nat, a: nat, b: nat)
    requires
        stepwise(notes, style),
        group_start(notes, count) == notes.len(),
        a < b < count,
    ensures
        group_start(notes, a + 1) <= group_start(notes, b),
        tick_of(notes[group_start(notes, a)]) < tick_of(notes[group_start(notes, b)]),
    decreases b - a,
{
    lemma_starts(notes, style, count, a);
    lemma_starts(notes, style, count, b);
    if a + 1 < b {
        lemma_starts(notes, style, count, a + 1);
        lemma_rows_ascend(notes, style, count, a + 1, b);
    }
}

proof fn lemma_read_row(
    notes: Seq<Note>,
    style: Style,
    count: nat,
    j: nat,
    offset: usize,
)
    requires
        stepwise(notes, style),
        group_start(notes, count) == notes.len(),
        j < count + folded_ends(notes).len(),
        read_so_far(notes, style, count, j, offset),
        ({
            let r = group_rows(notes, count);
            let f = folded_ends(notes);
            let (ri, fi) = cursor(r, f, j);
            row_next(r, f, ri, fi)
        }),
    ensures
        read_so_far(notes, style, count, j + 1, offset),
{
    let r = group_rows(notes, count);
    let f = folded_ends(notes);
    let steps = interleaved(r, f, 0, 0);
    let entries = entries_of(Seq::new(f.len(), |i: int| (f[i].mask, 1u8)));
    let (ri, fi) = cursor(r, f, j);
    let cut = cut_at(f, fi);
    lemma_cursor(r, f, j);
    lemma_interleaved(r, f, j);
    lemma_folded(notes, style);
    assert(cursor(r, f, j + 1) == (ri + 1, fi));
    let k = ri as nat;
    lemma_starts(notes, style, count, k);
    let s = group_start(notes, k);
    let n = group_start(notes, k + 1);
    assert(steppable(notes[s], style));
    assert forall|i: int| s <= i < n && (#[trigger] notes[i]).kind is HoldHead implies end_of(
        notes[i],
    ) >= cut by {
        assert(steppable(notes[i], style));
        let e = choose|e: int| 0 <= e < f.len() && (#[trigger] f[e]).tick == end_of(notes[i]);
        if e < fi {
            if e < fi - 1 {
                assert(f[e].tick < f[fi - 1].tick);
            }
            assert(r[ri].tick == tick_of(notes[s]));
        } else if fi < e {
            assert(f[fi].tick < f[e].tick);
        }
    }
    lemma_row_note(notes, style, k, cut);
    let row = steps[j as int];
    assert(row == r[ri]);
    assert(ticks_of(steps)[j as int] == row.tick);
    assert(masks_of(steps)[j as int] == row.mask);
    assert(notes_outcome(style, ticks_of(steps), masks_of(steps), entries, j + 1, offset) == Ok::<
        Seq<Note>,
        SsqErrorView,
    >(known(notes, n as nat, cut)));
    assert(freeze_ends(masks_of(steps), j + 1) == fi);
    if fi > 0 && ri + 1 < count {
        lemma_rows_ascend(notes, style, count, k, k + 1);
        lemma_starts(notes, style, count, k + 1);
        assert(steppable(notes[group_start(notes, k + 1)], style));
    }
}

/// No hold ends at `e` but those among the first `n` notes.
proof fn lemma_end_mask(notes: Seq<Note>, style: Style, n: nat, e: int)
    requires
        stepwise(notes, style),
        n <= notes.len(),
        n < notes.len() ==> tick_of(notes[n as int]) > e,
    ensures
        ending(notes, notes.len(), e) == ending(notes, n, e),
{
    let all = ending(notes, notes.len(), e);
    let some = ending(notes, n, e);
    assert forall|p: u8| p < 8 implies (#[trigger] has_panel(all, p) <==> has_panel(some, p)) by {
        lemma_ending(notes, notes.len(), e, p);
        lemma_ending(notes, n, e, p);
        if ends_on(notes, notes.len() as int, e, p) {
            let i = choose|i: int|
                0 <= i < notes.len() && (#[trigger] notes[i]).kind is HoldHead && end_of(notes[i])
                    == e && has_panel(notes[i].panels@, p);
            assert(steppable(notes[i], style));
            if i > n {
                assert(in_step_order(notes[n as int], notes[i]));
            }
            assert(ends_on(notes, n as int, e, p));
        }
        if ends_on(notes, n as int, e, p) {
            let i = choose|i: int|
                0 <= i < n && (#[trigger] notes[i]).kind is HoldHead && end_of(notes[i]) == e
                    && has_panel(notes[i].panels@, p);
            assert(notes[i].kind is HoldHead);
            assert(ends_on(notes, notes.len() as int, e, p));
        }
    }
    lemma_bits_equal(all, some);
}

/// No hold ends between two folded ends that follow each other.
proof fn lemma_end_cut(notes: Seq<Note>, style: Style, fi: int)
    requires
        stepwise(notes, style),
        0 <= fi < folded_ends(notes).len(),
    ensures
        next_cut(
            notes,
            folded_ends(notes)[fi].tick as int,
            cut_at(folded_ends(notes), fi + 1),
        ),
{
    let f = folded_ends(notes);
    let e = f[fi].tick as int;
    let next = cut_at(f, fi + 1);
    lemma_folded(notes, style);
    if fi + 1 < f.len() {
        assert(f[fi].tick < f[fi + 1].tick);
    }
    assert forall|i: int| 0 <= i < notes.len() && (#[trigger] notes[i]).kind is HoldHead implies end_of(
        notes[i],
    ) <= e || end_of(notes[i]) >= next by {
        let x = choose|x: int| 0 <= x < f.len() && (#[trigger] f[x]).tick == end_of(notes[i]);
        if x < fi {
            assert(f[x].tick < f[fi].tick);
        } else if x > fi + 1 {
            assert(f[fi + 1].tick < f[x].tick);
        }
    }
}

/// Where a freeze-end comes next, all notes up to its tick have been read, and
/// no others.
proof fn lemma_end_bounds(notes: Seq<Note>, style: Style, count: nat, k: nat, e: int)
    requires
        stepwise(notes, style),
        group_start(notes, count) == notes.len(),
        k <= count,
        k < count ==> group_row(notes, k).tick > e,
        k > 0 ==> group_row(notes, (k - 1) as nat).tick <= e,
    ensures
        0 <= group_start(notes, k) <= notes.len(),
        group_start(notes, k) < notes.len() ==> tick_of(notes[group_start(notes, k)]) > e,
        k > 0 ==> tick_of(notes[group_start(notes, k) - 1]) <= e,
{
    let n = group_start(notes, k);
    if k < count {
        lemma_starts(notes, style, count, k);
        assert(steppable(notes[n], style));
    }
    if k > 0 {
        lemma_starts(notes, style, count, (k - 1) as nat);
        let s = group_start(notes, (k - 1) as nat);
        assert(tick_of(notes[n - 1]) == tick_of(notes[s]));
        assert(steppable(notes[s], style));
    }
}

proof fn lemma_read_end(
    notes: Seq<Note>,
    style: Style,
    count: nat,
    j: nat,
    offset: usize,
)
    requires
        stepwise(notes, style),
        group_start(notes, count) == notes.len(),
        j < count + folded_ends(notes).len(),
        read_so_far(notes, style, count, j, offset),
        ({
            let r = group_rows(notes, count);
            let f = folded_ends(notes);
            let (ri, fi) = cursor(r, f, j);
            !row_next(r, f, ri, fi)
        }),
    ensures
        read_so_far(notes, style, count, j + 1, offset),
{
    let r = group_rows(notes, count);
    let f = folded_ends(notes);
    let steps = interleaved(r, f, 0, 0);
    let entries = entries_of(Seq::new(f.len(), |i: int| (f[i].mask, 1u8)));
    let (ri, fi) = cursor(r, f, j);
    lemma_cursor(r, f, j);
    lemma_interleaved(r, f, j);
    assert(cursor(r, f, j + 1) == (ri, fi + 1));
    let e = f[fi].tick as int;
    let next = cut_at(f, fi + 1);
    let k = ri as nat;
    let n = group_start(notes, k);
    assert(cut_at(f, fi) == e);
    lemma_end_bounds(notes, style, count, k, e);
    lemma_end_mask(notes, style, n as nat, e);
    assert(f[fi].mask == ending(notes, n as nat, e)) by {
        lemma_folded(notes, style);
    }
    lemma_end_cut(notes, style, fi);
    lemma_freeze_groups(notes, style, k, e, next);
    let step = steps[j as int];
    assert(step == TickMask { tick: f[fi].tick, mask: 0 });
    assert(ticks_of(steps)[j as int] == f[fi].tick);
    assert(masks_of(steps)[j as int] == 0);
    assert(entries[fi] == FreezeEntry { panels: f[fi].mask, kind: 1 });
    assert(notes_outcome(style, ticks_of(steps), masks_of(steps), entries, j + 1, offset) == Ok::<
        Seq<Note>,
        SsqErrorView,
    >(known(notes, n as nat, next)));
    assert(freeze_ends(masks_of(steps), j + 1) == fi + 1);
    if ri > 0 && fi + 1 < f.len() {
        assert(f[fi].tick < f[fi + 1].tick) by {
            lemma_folded(notes, style);
        }
    }
}

proof fn lemma_read(notes: Seq<Note>, style: Style, count: nat, j: nat, offset: usize)
    requires
        stepwise(notes, style),
        group_start(notes, count) == notes.len(),
        j <= count + folded_ends(notes).len(),
    ensures
        read_so_far(notes, style, count, j, offset),
    decreases j,
{
    if j > 0 {
        let i = (j - 1) as nat;
        lemma_read(notes, style, count, i, offset);
        let r = group_rows(notes, count);
        let f = folded_ends(notes);
        let (ri, fi) = cursor(r, f, i);
        if row_next(r, f, ri, fi) {
            lemma_read_row(notes, style, count, i, offset);
        } else {
            lemma_read_end(notes, style, count, i, offset);
        }
    }
}

proof fn lemma_known_all(notes: Seq<Note>, style: Style, n: nat)
    requires
        stepwise(notes, style),
        n <= notes.len(),
    ensures
        known(notes, n, 0x8000_0000) == notes.subrange(0, n as int),
    decreases n,
{
    if n == 0 {
        assert(notes.subrange(0, 0) =~= Seq::empty());
    } else {
        lemma_known_all(notes, style, (n - 1) as nat);
        assert(steppable(notes[n - 1], style));
        assert(notes.subrange(0, n - 1).push(notes[n - 1]) =~= notes.subrange(0, n as int));
    }
}

/// Writing the notes of a chart as steps and freeze entries and reading those
/// gives the notes back.
pub proof fn law_steps_round_trip(notes: Seq<Note>, style: Style, offset: usize)
    requires
        stepwise(notes, style),
    ensures
        steps_emitted(notes) is Ok,
        ({
            let (steps, freezes) = steps_emitted(notes)->Ok_0;
            &&& freeze_ends(masks_of(steps), steps.len()) == freezes.len()
            &&& notes_outcome(
                style,
                ticks_of(steps),
                masks_of(steps),
                entries_of(freezes),
                steps.len(),
                offset,
            ) == Ok::<Seq<Note>, SsqErrorView>(notes)
        }),
{
    let count = lemma_last_group(notes, style, 0);
    let rows = all_rows(notes);
    let f = folded_ends(notes);
    lemma_rows_of(notes, style, notes.len());
    assert(rows.subrange(0, notes.len() as int) =~= rows);
    assert(in_order(rows)) by {
        assert forall|i: int, j: int| 0 <= i < j < rows.len() implies !(#[trigger] rows[j]).precedes(
            #[trigger] rows[i],
        ) by {
            assert(in_step_order(notes[i], notes[j]));
            assert(steppable(notes[i], style) && steppable(notes[j], style));
        }
    }
    law_sort_fixes_sorted(rows);
    lemma_group_rows(notes, style, count, notes.len() as int);
    let r = group_rows(notes, count);
    assert(tick_masks(stable_sorted(rows)) == r);
    let steps = interleaved(r, f, 0, 0);
    let freezes = Seq::new(f.len(), |i: int| (f[i].mask, 1u8));
    assert(steps_emitted(notes) == Ok::<(Seq<TickMask>, Seq<(u8, u8)>), SsqErrorView>(
        (steps, freezes),
    ));
    let total = (count + f.len()) as nat;
    lemma_read(notes, style, count, total, offset);
    lemma_cursor(r, f, total);
    if total > 0 {
        lemma_interleaved(r, f, 0);
    } else {
        assert(steps.len() == 0);
    }
    lemma_known_all(notes, style, notes.len());
    assert(notes.subrange(0, notes.len() as int) =~= notes);
}

} // verus!
