//! Mines that are written read back at their places.

use super::framing::{law_difficulty_code_round_trip, written_header};
use super::mines::{
    entry_outcome, first_shock, in_i32, is_shock_mask, mine_body, mine_chunk, mine_entries,
    mine_merged, mine_notes, mines_outcome, EntryOutcome,
};
use super::steps_round_trip::tick_of;
use super::writer::{chunk_header_bytes, code_of, rows_of, steps_emitted};
use super::{with_mines, SsqErrorView};
use crate::model::rational::{lemma_lt_lowest, q_lt};
use crate::model::{group_model_values, style_mask, tick_beat, ChartView, Note, PanelSet, Style};
use crate::util::io::{law_le32_round_trip, law_signed_round_trip, le16, sbytes32, sle32, word32};
use crate::util::sort::{
    in_order, law_sort_fixes_sorted, lemma_placed_splits, stable_sorted, Ranked,
};
use vstd::prelude::*;

verus! {

/// Whether a mine can be told from its entry.
pub open spec fn storable_mine(note: Note, style: Style) -> bool {
    &&& note.kind is Mine
    &&& 0 <= tick_of(note)
    &&& in_i32(tick_of(note))
    &&& note.beat == tick_beat(tick_of(note))
    &&& note.panels@ != 0
    &&& !is_shock_mask(note.panels@)
    &&& note.panels@ & style_mask(style) == note.panels@
}

/// The notes from `i` on that are no mines.
pub open spec fn hits_from(notes: Seq<Note>, i: int) -> Seq<Note>
    decreases notes.len() - i,
{
    if i >= notes.len() {
        Seq::empty()
    } else if notes[i].kind is Mine {
        hits_from(notes, i + 1)
    } else {
        seq![notes[i]] + hits_from(notes, i + 1)
    }
}

/// The mines among the first `n` notes.
pub open spec fn mines_upto(notes: Seq<Note>, n: nat) -> Seq<Note>
    decreases n,
{
    if n == 0 {
        Seq::empty()
    } else {
        let before = mines_upto(notes, (n - 1) as nat);
        if notes[n - 1].kind is Mine {
            before.push(notes[n - 1])
        } else {
            before
        }
    }
}

/// Whether notes come in order of their ticks, a mine last and alone at its tick.
pub open spec fn mines_last(notes: Seq<Note>) -> bool {
    forall|i: int, j: int|
        0 <= i < j < notes.len() ==> tick_of(#[trigger] notes[i]) < tick_of(#[trigger] notes[j]) || (
        tick_of(notes[i]) == tick_of(notes[j]) && !(notes[i].kind is Mine))
}

/// Whether every note lies at its tick, and every mine can be stored.
pub open spec fn at_ticks(notes: Seq<Note>, style: Style) -> bool {
    forall|i: int|
        0 <= i < notes.len() ==> in_i32(tick_of(#[trigger] notes[i])) && notes[i].beat == tick_beat(
            tick_of(notes[i]),
        ) && (notes[i].kind is Mine ==> storable_mine(notes[i], style))
}

/// Positions compare like their ticks.
pub proof fn lemma_ticks_compare(a: int, b: int)
    requires
        in_i32(a),
        in_i32(b),
    ensures
        q_lt(tick_beat(a)@, tick_beat(b)@) <==> a < b,
{
    super::steps::lemma_tick_parts(a);
    super::steps::lemma_tick_parts(b);
    let q = tick_beat(b)@;
    lemma_lt_lowest(a, 1024, q);
    assert(q.0 * 1024 == b * q.1);
    assert((a * q.1 < b * q.1) == (a < b)) by (nonlinear_arith)
        requires
            q.1 > 0,
    ;
}

proof fn lemma_note_order(notes: Seq<Note>, style: Style, i: int, j: int)
    requires
        at_ticks(notes, style),
        0 <= i < notes.len(),
        0 <= j < notes.len(),
    ensures
        notes[i].precedes(notes[j]) <==> tick_of(notes[i]) < tick_of(notes[j]),
{
    lemma_ticks_compare(tick_of(notes[i]), tick_of(notes[j]));
}

/// Every hit from `i` on is one of the notes from `i` on.
proof fn lemma_hits_from(notes: Seq<Note>, i: int, k: int)
    requires
        0 <= i <= notes.len(),
        0 <= k < hits_from(notes, i).len(),
    ensures
        exists|j: int|
            i <= j < notes.len() && #[trigger] notes[j] == hits_from(notes, i)[k] && !(
            notes[j].kind is Mine),
    decreases notes.len() - i,
{
    if i < notes.len() {
        if notes[i].kind is Mine {
            lemma_hits_from(notes, i + 1, k);
            let j = choose|j: int|
                i + 1 <= j < notes.len() && #[trigger] notes[j] == hits_from(notes, i + 1)[k] && !(
                notes[j].kind is Mine);
            assert(notes[j] == hits_from(notes, i)[k]);
        } else if k > 0 {
            lemma_hits_from(notes, i + 1, k - 1);
            let j = choose|j: int|
                i + 1 <= j < notes.len() && #[trigger] notes[j] == hits_from(notes, i + 1)[k - 1]
                    && !(notes[j].kind is Mine);
            assert(notes[j] == hits_from(notes, i)[k]);
        } else {
            assert(notes[i] == hits_from(notes, i)[k]);
        }
    }
}

/// The first notes as they are, then the hits among the others.
spec fn mixed(notes: Seq<Note>, i: int) -> Seq<Note> {
    notes.subrange(0, i) + hits_from(notes, i)
}

proof fn lemma_hits_in_order(notes: Seq<Note>, style: Style, i: int)
    requires
        at_ticks(notes, style),
        mines_last(notes),
        0 <= i <= notes.len(),
    ensures
        in_order(hits_from(notes, i)),
    decreases notes.len() - i,
{
    let h = hits_from(notes, i);
    if i < notes.len() {
        lemma_hits_in_order(notes, style, i + 1);
        if !(notes[i].kind is Mine) {
            let rest = hits_from(notes, i + 1);
            assert forall|a: int, b: int| 0 <= a < b < h.len() implies !(#[trigger] h[b]).precedes(
                #[trigger] h[a],
            ) by {
                assert(h[b] == rest[b - 1]);
                if a > 0 {
                    assert(h[a] == rest[a - 1]);
                } else {
                    lemma_hits_from(notes, i + 1, b - 1);
                    let j = choose|j: int|
                        i + 1 <= j < notes.len() && #[trigger] notes[j] == rest[b - 1] && !(
                        notes[j].kind is Mine);
                    lemma_note_order(notes, style, j, i);
                    assert(h[a] == notes[i]);
                }
            }
        }
    }
}

/// Putting the mines among the first `i` notes in at their beats.
proof fn lemma_mixed(notes: Seq<Note>, style: Style, i: int)
    requires
        at_ticks(notes, style),
        mines_last(notes),
        0 <= i <= notes.len(),
    ensures
        stable_sorted(hits_from(notes, 0) + mines_upto(notes, i as nat)) == mixed(notes, i),
    decreases i,
{
    let h = hits_from(notes, 0);
    if i == 0 {
        lemma_hits_in_order(notes, style, 0);
        law_sort_fixes_sorted(h);
        assert(h + mines_upto(notes, 0) =~= h);
        assert(mixed(notes, 0) =~= h);
    } else {
        lemma_mixed(notes, style, i - 1);
        let x = notes[i - 1];
        let before = mixed(notes, i - 1);
        let m = mines_upto(notes, (i - 1) as nat);
        let rest = hits_from(notes, i);
        if x.kind is Mine {
            let all = h + m.push(x);
            assert(all.drop_last() =~= h + m);
            assert(all.last() == x);
            assert(before =~= notes.subrange(0, i - 1) + rest);
            assert forall|k: int| i - 1 <= k < before.len() implies x.precedes(#[trigger] before[k]) by {
                let r = k - (i - 1);
                assert(before[k] == rest[r]);
                lemma_hits_from(notes, i, r);
                let j = choose|j: int|
                    i <= j < notes.len() && #[trigger] notes[j] == rest[r] && !(notes[j].kind is Mine);
                lemma_note_order(notes, style, i - 1, j);
            }
            if i - 1 > 0 {
                lemma_note_order(notes, style, i - 1, i - 2);
                assert(before[i - 2] == notes[i - 2]);
            }
            lemma_placed_splits(before, x, i - 1);
            assert(before.insert(i - 1, x) =~= mixed(notes, i));
            assert(mines_upto(notes, i as nat) == m.push(x));
        } else {
            assert(mixed(notes, i) =~= before) by {
                assert(hits_from(notes, i - 1) == seq![x] + rest);
            }
        }
    }
}

/// Putting the mines of a chart back among its other notes gives the chart.
pub proof fn lemma_mines_put_back(chart: ChartView)
    requires
        at_ticks(chart.notes, chart.style),
        mines_last(chart.notes),
    ensures
        with_mines(
            ChartView { notes: hits_from(chart.notes, 0), ..chart },
            mines_upto(chart.notes, chart.notes.len()),
        ) == chart,
{
    broadcast use group_model_values;

    let n = chart.notes.len();
    let mines = mines_upto(chart.notes, n);
    lemma_mixed(chart.notes, chart.style, n as int);
    let masked = Seq::new(
        mines.len(),
        |i: int|
            Note { panels: PanelSet::of(mines[i].panels@ & style_mask(chart.style)), ..mines[i] },
    );
    assert forall|i: int| 0 <= i < mines.len() implies masked[i] == mines[i] by {
        lemma_mines_are(chart.notes, chart.style, n, i);
    }
    assert(masked =~= mines);
    assert(mixed(chart.notes, n as int) =~= chart.notes);
}

/// Every one of the mines can be stored.
proof fn lemma_mines_are(notes: Seq<Note>, style: Style, n: nat, i: int)
    requires
        at_ticks(notes, style),
        n <= notes.len(),
        0 <= i < mines_upto(notes, n).len(),
    ensures
        storable_mine(mines_upto(notes, n)[i], style),
    decreases n,
{
    if n > 0 {
        if i < mines_upto(notes, (n - 1) as nat).len() {
            lemma_mines_are(notes, style, (n - 1) as nat, i);
        }
    }
}

/// The entries of mines.
pub open spec fn entries_for(mines: Seq<Note>) -> Seq<(i32, u8)> {
    Seq::new(mines.len(), |i: int| (tick_of(mines[i]) as i32, mines[i].panels@))
}

proof fn lemma_last_mine(notes: Seq<Note>, style: Style, n: nat, j: int)
    requires
        at_ticks(notes, style),
        mines_last(notes),
        n <= j < notes.len(),
        mines_upto(notes, n).len() > 0,
    ensures
        tick_of(mines_upto(notes, n).last()) < tick_of(notes[j]),
    decreases n,
{
    if n > 0 {
        if notes[n - 1].kind is Mine {
            assert(mines_upto(notes, n).last() == notes[n - 1]);
            assert(tick_of(notes[n - 1]) < tick_of(notes[j]));
        } else {
            lemma_last_mine(notes, style, (n - 1) as nat, j);
        }
    }
}

/// The entries that a chart's mines make.
proof fn lemma_mine_entries(notes: Seq<Note>, style: Style, n: nat)
    requires
        at_ticks(notes, style),
        mines_last(notes),
        n <= notes.len(),
    ensures
        mine_entries(notes, n) == Ok::<Seq<(i32, u8)>, SsqErrorView>(
            entries_for(mines_upto(notes, n)),
        ),
    decreases n,
{
    if n == 0 {
        assert(entries_for(mines_upto(notes, 0)) =~= Seq::empty());
    } else {
        lemma_mine_entries(notes, style, (n - 1) as nat);
        let x = notes[n - 1];
        if x.kind is Mine {
            let before = mines_upto(notes, (n - 1) as nat);
            let e = entries_for(before);
            assert(storable_mine(x, style));
            if before.len() > 0 {
                lemma_last_mine(notes, style, (n - 1) as nat, n - 1);
                lemma_mines_are(notes, style, (n - 1) as nat, before.len() - 1);
            }
            assert(mine_merged(e, tick_of(x) as i32, x.panels@) == e.push(
                (tick_of(x) as i32, x.panels@),
            ));
            assert(entries_for(before.push(x)) =~= e.push((tick_of(x) as i32, x.panels@)));
        }
    }
}

proof fn lemma_no_shock(mines: Seq<Note>, style: Style, i: int)
    requires
        forall|k: int| 0 <= k < mines.len() ==> storable_mine(#[trigger] mines[k], style),
        0 <= i,
    ensures
        first_shock(entries_for(mines), i) is None,
    decreases mines.len() - i,
{
    if i < mines.len() {
        assert(storable_mine(mines[i], style));
        lemma_no_shock(mines, style, i + 1);
    }
}

proof fn lemma_body_len(entries: Seq<(i32, u8)>, n: nat)
    ensures
        mine_body(entries, n).len() == 8 * n,
    decreases n,
{
    if n > 0 {
        lemma_body_len(entries, (n - 1) as nat);
    }
}

/// Entry `k` of a body.
proof fn lemma_entry(entries: Seq<(i32, u8)>, n: nat, k: int)
    requires
        0 <= k < n <= entries.len(),
    ensures
        mine_body(entries, n).len() == 8 * n,
        mine_body(entries, n).subrange(8 * k, 8 * k + 8) == sbytes32(entries[k].0) + seq![
            entries[k].1,
            0u8,
            0u8,
            0u8,
        ],
    decreases n,
{
    lemma_body_len(entries, n);
    lemma_body_len(entries, (n - 1) as nat);
    let before = mine_body(entries, (n - 1) as nat);
    let all = mine_body(entries, n);
    if k < n - 1 {
        lemma_entry(entries, (n - 1) as nat, k);
        assert(all.subrange(8 * k, 8 * k + 8) =~= before.subrange(8 * k, 8 * k + 8));
    } else {
        assert(all.subrange(8 * k, 8 * k + 8) =~= sbytes32(entries[k].0) + seq![
            entries[k].1,
            0u8,
            0u8,
            0u8,
        ]);
    }
}

/// What the entry of a mine stands for.
proof fn lemma_entry_back(note: Note, style: Style)
    requires
        storable_mine(note, style),
    ensures
        entry_outcome(
            sbytes32(tick_of(note) as i32) + seq![note.panels@, 0u8, 0u8, 0u8],
            style,
        ) == EntryOutcome::Mine(note),
{
    broadcast use group_model_values;

    let t = tick_of(note) as i32;
    let panels = note.panels@;
    let tail = seq![panels, 0u8, 0u8, 0u8];
    let e = sbytes32(t) + tail;
    let none = Seq::<u8>::empty();
    law_le32_round_trip(none, word32(t), tail);
    assert(none + sbytes32(t) + tail =~= e);
    law_signed_round_trip(t, 0);
    assert(sle32(e, 0) == t);
    assert(e[4] == panels && e[5] == 0 && e[6] == 0 && e[7] == 0);
    assert(le16(e, 6) == 0);
    assert(style is Single ==> panels < 0x10) by {
        assert(panels & 0x0Fu8 == panels ==> panels < 0x10) by (bit_vector);
    }
}

/// The notes of a written body.
proof fn lemma_mine_notes(mines: Seq<Note>, style: Style, n: nat)
    requires
        forall|k: int| 0 <= k < mines.len() ==> storable_mine(#[trigger] mines[k], style),
        n <= mines.len(),
    ensures
        mine_notes(mine_body(entries_for(mines), mines.len()), style, n) == mines.subrange(
            0,
            n as int,
        ),
    decreases n,
{
    let e = entries_for(mines);
    if n == 0 {
        assert(mines.subrange(0, 0) =~= Seq::empty());
    } else {
        lemma_mine_notes(mines, style, (n - 1) as nat);
        let k = n - 1;
        lemma_entry(e, mines.len(), k);
        assert(storable_mine(mines[k], style));
        lemma_entry_back(mines[k], style);
        assert(mines.subrange(0, k).push(mines[k]) =~= mines.subrange(0, n as int));
    }
}

/// The bytes of a mine chunk behind its header.
pub open spec fn mines_body(chart: ChartView) -> Seq<u8> {
    let mines = mines_upto(chart.notes, chart.notes.len());
    mine_body(entries_for(mines), mines.len())
}

/// A chart's mine chunk gives its mines back; a chart without mines has none.
pub proof fn lemma_mine_chunk_back(chart: ChartView)
    requires
        at_ticks(chart.notes, chart.style),
        mines_last(chart.notes),
        mines_upto(chart.notes, chart.notes.len()).len() <= 0xFFFF,
    ensures
        ({
            let mines = mines_upto(chart.notes, chart.notes.len());
            let code = code_of(chart.style, chart.difficulty);
            let body = mines_body(chart);
            &&& body.len() == 8 * mines.len()
            &&& mine_chunk(chart) == (if mines.len() == 0 {
                Ok::<Seq<u8>, SsqErrorView>(Seq::empty())
            } else {
                Ok(chunk_header_bytes(body.len(), 20, code, mines.len()) + body)
            })
            &&& mines_outcome(written_header(body.len(), 20, code, mines.len()), body) == Some(
                (code, mines),
            )
        }),
{
    reveal(mine_chunk);
    let n = chart.notes.len();
    let mines = mines_upto(chart.notes, n);
    lemma_mine_entries(chart.notes, chart.style, n);
    assert forall|k: int| 0 <= k < mines.len() implies storable_mine(#[trigger] mines[k], chart.style) by {
        lemma_mines_are(chart.notes, chart.style, n, k);
    }
    lemma_no_shock(mines, chart.style, 0);
    lemma_body_len(entries_for(mines), mines.len());
    lemma_mine_notes(mines, chart.style, mines.len());
    assert(mines.subrange(0, mines.len() as int) =~= mines);
    law_difficulty_code_round_trip(chart.style, chart.difficulty);
}

/// The hits among the first `n` notes.
pub open spec fn hits_upto(notes: Seq<Note>, n: nat) -> Seq<Note>
    decreases n,
{
    if n == 0 {
        Seq::empty()
    } else {
        let before = hits_upto(notes, (n - 1) as nat);
        if notes[n - 1].kind is Mine {
            before
        } else {
            before.push(notes[n - 1])
        }
    }
}

proof fn lemma_hits_join(notes: Seq<Note>, i: int)
    requires
        0 <= i <= notes.len(),
    ensures
        hits_upto(notes, i as nat) + hits_from(notes, i) == hits_from(notes, 0),
    decreases i,
{
    if i == 0 {
        assert(hits_upto(notes, 0) + hits_from(notes, 0) =~= hits_from(notes, 0));
    } else {
        lemma_hits_join(notes, i - 1);
        assert(hits_upto(notes, i as nat) + hits_from(notes, i) =~= hits_upto(
            notes,
            (i - 1) as nat,
        ) + hits_from(notes, i - 1));
    }
}

proof fn lemma_rows_prefix(a: Seq<Note>, b: Seq<Note>, n: nat)
    requires
        n <= a.len(),
        n <= b.len(),
        forall|i: int| 0 <= i < n ==> #[trigger] a[i] == b[i],
    ensures
        rows_of(a, n) == rows_of(b, n),
    decreases n,
{
    if n > 0 {
        lemma_rows_prefix(a, b, (n - 1) as nat);
        assert(a[n - 1] == b[n - 1]);
    }
}

proof fn lemma_rows_skip_mines(notes: Seq<Note>, style: Style, n: nat)
    requires
        at_ticks(notes, style),
        n <= notes.len(),
    ensures
        rows_of(notes, n) == rows_of(hits_upto(notes, n), hits_upto(notes, n).len()),
    decreases n,
{
    if n > 0 {
        lemma_rows_skip_mines(notes, style, (n - 1) as nat);
        let before = hits_upto(notes, (n - 1) as nat);
        let now = hits_upto(notes, n);
        if !(notes[n - 1].kind is Mine) {
            lemma_rows_prefix(before, now, before.len());
        }
    }
}

/// The steps of a chart are those of its notes that are no mines.
pub proof fn lemma_steps_skip_mines(notes: Seq<Note>, style: Style)
    requires
        at_ticks(notes, style),
    ensures
        steps_emitted(notes) == steps_emitted(hits_from(notes, 0)),
{
    let n = notes.len();
    lemma_rows_skip_mines(notes, style, n);
    lemma_hits_join(notes, n as int);
    assert(hits_upto(notes, n) + hits_from(notes, n as int) =~= hits_upto(notes, n));
}

} // verus!
