//! What the chunks of a stepfile mean: which bytes are ticks, panels, events and mines,
//! and which step a freeze holds.

use super::auxiliary::AuxMeta;
use super::chunk::{header_at, ChunkHeader};
use super::events::events_outcome;
use super::mines::{entry_outcome, mine_notes, nearest_tick, EntryOutcome};
use super::steps::{
    difficulty_of, freeze_closed, freeze_ends, freezes_of, head_closed, note_of_byte, notes_outcome,
    span, steps_of, steps_outcome, FreezeEntry,
};
use super::tempo_meaning::{is_dword, is_fraction, is_near};
use super::writer::{byte_of_note, code_of};
use super::{chart_with_code, dispatched, mines_attached, with_mines, PartialView, SsqErrorView};
use crate::model::rational::{
    is_lowest, law_arithmetic_is_exact, law_order_is_total, law_rounding_is_nearest, q_fits, q_lt,
};
use crate::model::{
    group_model_values, has_panel, panels_below, style_mask, tick_beat, Beat, ChartView, Difficulty,
    Note, NoteKind, PanelSet, ShockSide, Style,
};
use crate::util::bits::lemma_bits_ops;
use crate::util::io::sle32s;
use crate::util::sort::{in_order, law_sort_keeps_values, law_sort_orders, ranks_weakly, Ranked};
use vstd::prelude::*;

verus! {

/// A tick is a 1024th of a beat.
pub proof fn law_ticks_are_1024ths_of_a_beat(tick: int)
    requires
        i64::MIN < tick <= i64::MAX,
    ensures
        is_fraction(tick_beat(tick)@, tick, 1024),
{
    broadcast use group_model_values;

    crate::model::rational::lemma_lowest(tick, 1024);
}

/// A beat is written at the nearest tick.
pub proof fn law_beats_go_to_the_nearest_tick(beat: Beat)
    requires
        beat@.1 > 0,
    ensures
        is_near(nearest_tick(beat), 1024 * beat@.0, beat@.1),
{
    law_rounding_is_nearest(beat@.0 * 1024, beat@.1);
}

/// A chunk begins with its length and four parameters, low byte first.
pub proof fn law_chunk_header_fields(b: Seq<u8>, at: int)
    requires
        0 <= at,
        at + 12 <= b.len(),
    ensures
        header_at(b, at) matches Ok(Some(h)) ==> {
            &&& h.length == b[at] + 0x100 * b[at + 1] + 0x1_0000 * b[at + 2] + 0x100_0000 * b[at
                + 3]
            &&& h.ty == b[at + 4] + 0x100 * b[at + 5]
            &&& h.param2 == b[at + 6] + 0x100 * b[at + 7]
            &&& h.param3 == b[at + 8] + 0x100 * b[at + 9]
            &&& h.param4 == b[at + 10] + 0x100 * b[at + 11]
            &&& h.length >= 12
            &&& h.length % 4 == 0
        },
        b[at] == 0 && b[at + 1] == 0 && b[at + 2] == 0 && b[at + 3] == 0 ==> header_at(b, at) == Ok::<
            Option<ChunkHeader>,
            SsqErrorView,
        >(None),
{
}

/// Chunks of the four auxiliary types are noted and left out; a chunk of a type that is
/// none of the known nine is refused.
pub proof fn law_other_chunks_are_left_out_or_refused(
    h: ChunkHeader,
    body: Seq<u8>,
    offset: usize,
    p: PartialView,
)
    ensures
        (h.ty == 4 || h.ty == 5 || h.ty == 9 || h.ty == 17) ==> (dispatched(h, body, offset, p)
            matches Ok(q) && q == (PartialView {
            aux_chunks_dropped: p.aux_chunks_dropped.push(
                AuxMeta { ty: h.ty, offset, size: h.length },
            ),
            ..p
        })),
        !(h.ty == 1 || h.ty == 2 || h.ty == 3 || h.ty == 4 || h.ty == 5 || h.ty == 9 || h.ty == 17
            || h.ty == 20) ==> dispatched(h, body, offset, p) == Err::<PartialView, SsqErrorView>(
            SsqErrorView::UnexpectedChunkType { ty: h.ty, offset },
        ),
        h.ty == 1 && p.tempo_seen ==> dispatched(h, body, offset, p) == Err::<
            PartialView,
            SsqErrorView,
        >(SsqErrorView::DuplicateTempoChunk),
        h.ty == 2 && p.events_seen ==> dispatched(h, body, offset, p) == Err::<
            PartialView,
            SsqErrorView,
        >(SsqErrorView::DuplicateEventsChunk),
{
    reveal(dispatched);
}

/// An event chunk holds the ticks of all its events, and then a code and an argument for
/// each. Up to three bytes may follow.
pub proof fn law_event_chunk_is_ticks_and_codes(h: ChunkHeader, body: Seq<u8>, offset: usize, i: int)
    requires
        0 <= i < h.param3,
        6 * h.param3 <= body.len() <= 6 * h.param3 + 3,
    ensures
        events_outcome(h, body, offset) matches Ok(events) && {
            &&& events.len() == h.param3
            &&& is_dword(body, 4 * i, events[i].tick as int)
            &&& events[i].code == body[4 * h.param3 + 2 * i]
            &&& events[i].arg == body[4 * h.param3 + 2 * i + 1]
        },
{
}

/// A step chunk holds the ticks of all its steps, a byte of panels for each, and from the
/// next even place on two bytes for each freeze: its panels and its kind. As many
/// freezes follow as there are steps without panels.
pub proof fn law_step_chunk_is_three_columns(body: Seq<u8>, n: nat, i: int)
    requires
        0 <= i < n,
        body.len() >= 5 * n + n % 2 + 2 * freeze_ends(steps_of(body, n), n),
    ensures
        is_dword(body, 4 * i, sle32s(body, 0, n)[i] as int),
        steps_of(body, n)[i] == body[4 * n + i],
        freezes_of(body, n).len() == freeze_ends(steps_of(body, n), n),
        forall|k: int|
            0 <= k < freezes_of(body, n).len() ==> {
                let f = #[trigger] freezes_of(body, n)[k];
                &&& f.panels == body[5 * n + n % 2 + 2 * k]
                &&& f.kind == body[5 * n + n % 2 + 2 * k + 1]
            },
        freeze_ends(steps_of(body, n), (i + 1) as nat) == freeze_ends(steps_of(body, n), i as nat)
            + if body[4 * n + i] == 0 {
            1nat
        } else {
            0nat
        },
{
}

/// The five difficulties and two styles have fixed codes.
pub proof fn law_difficulty_codes(style: Style, difficulty: Difficulty)
    ensures
        ({
            let high = match difficulty {
                Difficulty::Basic => 1int,
                Difficulty::Difficult => 2,
                Difficulty::Expert => 3,
                Difficulty::Beginner => 4,
                Difficulty::Challenge => 6,
            };
            let low = match style {
                Style::Single => 20int,
                Style::Double => 24,
            };
            let code = code_of(style, difficulty);
            &&& code == 256 * high + low
            &&& difficulty_of(code) == Some((style, difficulty))
        }),
{
}

/// A step byte of all panels of a side is a shock on that side; any other is a tap on
/// the panels whose bits are set. The bytes are written back as they were.
pub proof fn law_step_bytes_are_panels(byte: u8, style: Style, beat: Beat, p: u8)
    requires
        p < 8,
        byte != 0,
    ensures
        ({
            let note = note_of_byte(byte, style, beat);
            &&& note.beat == beat
            &&& (note.kind is Shock <==> byte == 15 || byte == 240 || byte == 255)
            &&& byte == 15 ==> note.kind == (NoteKind::Shock { side: ShockSide::P1Only })
            &&& byte == 240 ==> note.kind == (NoteKind::Shock { side: ShockSide::P2Only })
            &&& byte == 255 ==> note.kind == (NoteKind::Shock { side: ShockSide::BothSides })
            &&& !(byte == 15 || byte == 240 || byte == 255) ==> note.kind == NoteKind::Tap
            &&& has_panel(note.panels@, p) <==> (byte as int / pow2_of(p as int)) % 2 == 1 && (p < 4
                || style is Double)
            &&& (style is Double || byte == 15 || byte == 240 || byte == 255 || byte < 16)
                ==> byte_of_note(note) == byte
        }),
{
    broadcast use group_model_values;

    assert(p < 8 ==> ((byte & 0x0F) & (1u8 << p) != 0) == ((byte & (1u8 << p) != 0) && p < 4)
        && byte & 0xFF == byte && (byte < 16 ==> byte & 0x0F == byte)) by (bit_vector);
    lemma_bit(byte, p);
}

/// Two to the power of a small number.
pub open spec fn pow2_of(p: int) -> int {
    seq![1int, 2, 4, 8, 16, 32, 64, 128][p]
}

/// Panel `p` is bit `p` of a set of panels.
proof fn lemma_bit(byte: u8, p: u8)
    requires
        p < 8,
    ensures
        (byte & (1u8 << p) != 0) == ((byte as int / pow2_of(p as int)) % 2 == 1),
{
    assert((byte & (1u8 << 0u8) != 0) == ((byte / 1) % 2 == 1) && (byte & (1u8 << 1u8) != 0) == ((
    byte / 2) % 2 == 1) && (byte & (1u8 << 2u8) != 0) == ((byte / 4) % 2 == 1) && (byte & (1u8
        << 3u8) != 0) == ((byte / 8) % 2 == 1) && (byte & (1u8 << 4u8) != 0) == ((byte / 16) % 2
        == 1) && (byte & (1u8 << 5u8) != 0) == ((byte / 32) % 2 == 1) && (byte & (1u8 << 6u8) != 0)
        == ((byte / 64) % 2 == 1) && (byte & (1u8 << 7u8) != 0) == ((byte / 128) % 2 == 1))
        by (bit_vector);
}

/// Panel `p` is bit `p` of a set of panels.
pub proof fn law_panels_are_bits(bits: u8, p: u8)
    requires
        p < 8,
    ensures
        has_panel(bits, p) <==> (bits as int / pow2_of(p as int)) % 2 == 1,
{
    lemma_bit(bits, p);
}

/// Whether a position lies as far from `head` as `length` says.
pub open spec fn ends_at(head: Beat, length: Beat, end: Beat) -> bool {
    is_fraction(
        length@,
        end@.0 * head@.1 - head@.0 * end@.1,
        end@.1 * head@.1,
    )
}

/// A freeze holds the latest step on its panels: where that is a tap on just these, it
/// becomes a hold up to the freeze, and every other note stays. Earlier steps on the
/// same panels are not touched.
pub proof fn law_freeze_holds_the_latest_step(notes: Seq<Note>, n: nat, i: int, panels: u8, end: Beat)
    requires
        0 <= i < n <= notes.len(),
        panels != 0,
        notes[i].panels@ == panels,
        notes[i].kind is Tap,
        forall|j: int| i < j < n ==> (#[trigger] notes[j]).panels@ & panels == 0,
        is_lowest(notes[i].beat@),
        is_lowest(end@),
        q_fits(crate::model::rational::q_add(end@, crate::model::rational::q_neg(notes[i].beat@))),
    ensures
        ({
            let (after, left) = freeze_closed(notes, n, panels, end);
            &&& left == 0
            &&& after.len() == notes.len()
            &&& forall|j: int| 0 <= j < notes.len() && j != i ==> #[trigger] after[j] == notes[j]
            &&& after[i].beat == notes[i].beat
            &&& after[i].panels == notes[i].panels
            &&& after[i].kind matches NoteKind::HoldHead { length } && ends_at(
                notes[i].beat,
                length,
                end,
            )
        }),
    decreases n,
{
    broadcast use group_model_values;

    assert(panels & panels == panels && panels & !panels == 0 && panels & !0u8 == panels)
        by (bit_vector);
    if n - 1 > i {
        assert(notes[n - 1].panels@ & panels == 0);
        law_freeze_holds_the_latest_step(notes, (n - 1) as nat, i, panels, end);
    } else {
        let hit = notes[i].panels@ & panels;
        assert(hit == panels);
        let after = head_closed(notes, i, hit, end);
        assert(freeze_closed(notes, n, panels, end) == freeze_closed(after, i as nat, 0, end));
        let head = notes[i].beat@;
        crate::model::rational::law_sub_undoes_add(end@, head);
        law_arithmetic_is_exact(end@, (-head.0, head.1));
        assert((-head.0) * end@.1 == -(head.0 * end@.1)) by (nonlinear_arith);
        assert(span(notes[i].beat, end)@ == crate::model::rational::q_add(
            end@,
            crate::model::rational::q_neg(head),
        ));
        assert(after[i].panels == notes[i].panels);
    }
}

/// A mine entry is a tick, a byte of panels and three zero bytes. Panels of a whole side
/// are a shock; an entry without panels, with panels the style lacks, before tick 0 or
/// with other bytes set is skipped.
pub proof fn law_mine_entries_are_ticks_and_panels(entry: Seq<u8>, style: Style)
    requires
        entry.len() == 8,
    ensures
        ({
            let panels = entry[4];
            let plain = entry[5] == 0 && entry[6] == 0 && entry[7] == 0;
            let whole = panels == 15 || panels == 255 || (panels == 240 && style is Double);
            match entry_outcome(entry, style) {
                EntryOutcome::Skipped => !plain || panels == 0 || entry[3] >= 128 || (style is Single
                    && panels >= 16 && panels != 255),
                EntryOutcome::Mine(note) => {
                    &&& plain && panels != 0 && entry[3] < 128 && !whole
                    &&& style is Single ==> panels < 16
                    &&& note.kind is Mine
                    &&& note.panels@ == panels
                    &&& exists|tick: int| #[trigger]
                        is_dword(entry, 0, tick) && tick >= 0 && is_fraction(note.beat@, tick, 1024)
                },
                EntryOutcome::RecoveredShock(note) => {
                    &&& plain && entry[3] < 128 && whole
                    &&& note.kind == (NoteKind::Shock {
                        side: if panels == 255 || style is Single {
                            ShockSide::BothSides
                        } else if panels == 15 {
                            ShockSide::P1Only
                        } else {
                            ShockSide::P2Only
                        },
                    })
                    &&& note.panels@ == if style is Single {
                        15
                    } else {
                        panels
                    }
                    &&& exists|tick: int| #[trigger]
                        is_dword(entry, 0, tick) && tick >= 0 && is_fraction(note.beat@, tick, 1024)
                },
            }
        }),
{
    broadcast use group_model_values;

    let panels = entry[4];
    assert(panels & 0xFF == panels && (panels < 16 ==> panels & 0x0F == panels) && 0xFFu8 & 0x0F
        == 0x0F && 0x0Fu8 & 0x0F == 0x0F && 0xFFu8 & 0xFF == 0xFF && 0x0Fu8 & 0xFF == 0x0F && 0xF0u8
        & 0xFF == 0xF0) by (bit_vector);
    let tick = crate::util::io::sle32(entry, 0) as int;
    assert(is_dword(entry, 0, tick));
    law_ticks_are_1024ths_of_a_beat(tick);
}

/// The mines of a chunk are those of its entries of eight bytes, in order.
pub proof fn law_mine_chunk_is_a_row_of_entries(body: Seq<u8>, style: Style, n: nat)
    requires
        8 * (n + 1) <= body.len(),
    ensures
        mine_notes(body, style, 0).len() == 0,
        mine_notes(body, style, n + 1) == match entry_outcome(
            body.subrange(8 * n as int, 8 * n as int + 8),
            style,
        ) {
            EntryOutcome::Mine(note) => mine_notes(body, style, n).push(note),
            EntryOutcome::RecoveredShock(note) => mine_notes(body, style, n).push(note),
            EntryOutcome::Skipped => mine_notes(body, style, n),
        },
{
    assert(8 * (n + 1 - 1) == 8 * n as int);
    assert(8 * (n + 1) as int == 8 * n as int + 8);
}

/// Mines belong to the first chart with their code. The first mine chunk for it is put
/// among its notes, in the order of their beats; any further one is left out, and a
/// chart without one stays as it is.
pub proof fn law_mines_join_their_chart(
    charts: Seq<ChartView>,
    pending: Seq<(u16, Seq<Note>)>,
    n: nat,
    i: int,
    k: int,
)
    requires
        0 <= i < charts.len(),
        n <= pending.len(),
        forall|j: int|
            0 <= j < i ==> (#[trigger] code_of(charts[j].style, charts[j].difficulty)) != code_of(
                charts[i].style,
                charts[i].difficulty,
            ),
        0 <= k,
        forall|j: int|
            0 <= j < k && j < n ==> (#[trigger] pending[j]).0 != code_of(
                charts[i].style,
                charts[i].difficulty,
            ),
        k < n ==> pending[k].0 == code_of(charts[i].style, charts[i].difficulty),
    ensures
        mines_attached(charts, pending, n).0.len() == charts.len(),
        k >= n ==> mines_attached(charts, pending, n).0[i] == charts[i],
        k < n ==> mines_attached(charts, pending, n).0[i] == with_mines(charts[i], pending[k].1),
{
    lemma_attached(charts, pending, n, i, k);
}

/// What has become of a chart after some mine chunks, and whether it has got its mines.
proof fn lemma_attached(
    charts: Seq<ChartView>,
    pending: Seq<(u16, Seq<Note>)>,
    n: nat,
    i: int,
    k: int,
)
    requires
        0 <= i < charts.len(),
        n <= pending.len(),
        forall|j: int|
            0 <= j < i ==> (#[trigger] code_of(charts[j].style, charts[j].difficulty)) != code_of(
                charts[i].style,
                charts[i].difficulty,
            ),
        0 <= k,
        forall|j: int|
            0 <= j < k && j < n ==> (#[trigger] pending[j]).0 != code_of(
                charts[i].style,
                charts[i].difficulty,
            ),
        k < n ==> pending[k].0 == code_of(charts[i].style, charts[i].difficulty),
    ensures
        ({
            let (now, done) = mines_attached(charts, pending, n);
            &&& now.len() == charts.len()
            &&& done.len() == charts.len()
            &&& forall|j: int|
                0 <= j < now.len() ==> (#[trigger] now[j]).style == charts[j].style
                    && now[j].difficulty == charts[j].difficulty
            &&& done[i] == (k < n)
            &&& k >= n ==> now[i] == charts[i]
            &&& k < n ==> now[i] == with_mines(charts[i], pending[k].1)
        }),
    decreases n,
{
    if n > 0 {
        lemma_attached(charts, pending, (n - 1) as nat, i, k);
        let (now, done) = mines_attached(charts, pending, (n - 1) as nat);
        let code = pending[n - 1].0;
        lemma_code_found(now, code, 0);
        if code == code_of(charts[i].style, charts[i].difficulty) {
            assert forall|j: int| 0 <= j < i implies (#[trigger] code_of(
                now[j].style,
                now[j].difficulty,
            )) != code by {
                assert(now[j].style == charts[j].style);
                assert(code_of(charts[j].style, charts[j].difficulty) != code);
            }
            assert(code_of(now[i].style, now[i].difficulty) == code);
        }
    }
}

proof fn lemma_code_found(charts: Seq<ChartView>, code: u16, from: int)
    requires
        0 <= from <= charts.len(),
    ensures
        match chart_with_code(charts, code, from) {
            Some(i) => from <= i < charts.len() && code_of(charts[i].style, charts[i].difficulty)
                == code && forall|j: int|
                from <= j < i ==> (#[trigger] code_of(charts[j].style, charts[j].difficulty))
                    != code,
            None => forall|j: int|
                from <= j < charts.len() ==> (#[trigger] code_of(
                    charts[j].style,
                    charts[j].difficulty,
                )) != code,
        },
    decreases charts.len() - from,
{
    if from < charts.len() {
        lemma_code_found(charts, code, from + 1);
    }
}

/// A chart with mines has its own notes and the mines, on the panels of its style, and
/// no others.
pub proof fn law_mines_are_added(chart: ChartView, mines: Seq<Note>)
    requires
        forall|i: int| 0 <= i < chart.notes.len() ==> is_lowest((#[trigger] chart.notes[i]).beat@),
        forall|i: int| 0 <= i < mines.len() ==> is_lowest((#[trigger] mines[i]).beat@),
    ensures
        with_mines(chart, mines).style == chart.style,
        with_mines(chart, mines).difficulty == chart.difficulty,
        with_mines(chart, mines).notes.len() == chart.notes.len() + mines.len(),
        with_mines(chart, mines).notes.to_multiset() == (chart.notes + mines.map_values(
            |m: Note|
                Note {
                    panels: PanelSet::of(m.panels@ & style_mask(chart.style)),
                    ..m
                },
        )).to_multiset(),
        forall|i: int, j: int|
            0 <= i < j < with_mines(chart, mines).notes.len() ==> !q_lt(
                (#[trigger] with_mines(chart, mines).notes[j]).beat@,
                (#[trigger] with_mines(chart, mines).notes[i]).beat@,
            ),
{
    let masked = Seq::new(
        mines.len(),
        |i: int|
            Note {
                panels: PanelSet::of(mines[i].panels@ & style_mask(chart.style)),
                ..mines[i]
            },
    );
    let all = chart.notes + masked;
    assert(masked =~= mines.map_values(
        |m: Note| Note { panels: PanelSet::of(m.panels@ & style_mask(chart.style)), ..m },
    ));
    law_sort_keeps_values(all);
    assert forall|i: int| 0 <= i < all.len() implies is_lowest((#[trigger] all[i]).beat@) by {
        if i >= chart.notes.len() {
            assert(all[i].beat == mines[i - chart.notes.len()].beat);
        } else {
            assert(all[i] == chart.notes[i]);
        }
    }
    assert forall|i: int, j: int, k: int|
        0 <= i < all.len() && 0 <= j < all.len() && 0 <= k < all.len()
            && !(#[trigger] all[i]).precedes(#[trigger] all[j]) && !all[j].precedes(
            #[trigger] all[k],
        ) implies !all[i].precedes(all[k]) by {
        law_order_is_total(all[k].beat@, all[j].beat@, all[i].beat@);
        law_order_is_total(all[i].beat@, all[k].beat@, all[j].beat@);
        law_order_is_total(all[i].beat@, all[j].beat@, all[k].beat@);
    }
    assert forall|i: int, j: int|
        0 <= i < all.len() && 0 <= j < all.len() && (#[trigger] all[i]).precedes(
            #[trigger] all[j],
        ) implies !all[j].precedes(all[i]) by {
        law_order_is_total(all[i].beat@, all[j].beat@, all[j].beat@);
    }
    assert(ranks_weakly(all));
    law_sort_orders(all);
    let sorted = with_mines(chart, mines).notes;
    assert(in_order(sorted));
    assert forall|i: int, j: int| 0 <= i < j < sorted.len() implies !q_lt(
        (#[trigger] sorted[j]).beat@,
        (#[trigger] sorted[i]).beat@,
    ) by {
        assert(!sorted[j].precedes(sorted[i]));
    }
}

/// A freeze on some of the panels of the latest step parts it: a tap stays on the other
/// panels, and behind it comes a hold on these.
pub proof fn law_freeze_parts_a_step(notes: Seq<Note>, i: int, panels: u8, end: Beat, p: u8)
    requires
        0 <= i < notes.len(),
        panels != 0,
        notes[i].panels@ & panels == panels,
        notes[i].panels@ != panels,
        notes[i].kind is Tap,
        i == notes.len() - 1,
        p < 8,
    ensures
        ({
            let (after, left) = freeze_closed(notes, notes.len(), panels, end);
            &&& left == 0
            &&& after.len() == notes.len() + 1
            &&& forall|j: int| 0 <= j < i ==> #[trigger] after[j] == notes[j]
            &&& after[i].beat == notes[i].beat
            &&& after[i].kind is Tap
            &&& has_panel(after[i].panels@, p) <==> has_panel(notes[i].panels@, p) && !has_panel(
                panels,
                p,
            )
            &&& after[i + 1].beat == notes[i].beat
            &&& after[i + 1].kind is HoldHead
            &&& after[i + 1].panels@ == panels
        }),
{
    broadcast use group_model_values;

    assert(panels & !panels == 0) by (bit_vector);
    lemma_bits_ops(notes[i].panels@, panels, p);
    let after = head_closed(notes, i, panels, end);
    assert(freeze_closed(notes, notes.len(), panels, end) == freeze_closed(after, i as nat, 0, end));
}

/// A freeze on panels that no tap before it has changes nothing, and all its panels are
/// left over.
pub proof fn law_freeze_needs_a_step(notes: Seq<Note>, n: nat, panels: u8, end: Beat)
    requires
        n <= notes.len(),
        panels != 0,
        forall|j: int| 0 <= j < n ==> (#[trigger] notes[j]).panels@ & panels == 0,
    ensures
        freeze_closed(notes, n, panels, end) == (notes, panels),
    decreases n,
{
    if n > 0 {
        assert(notes[n - 1].panels@ & panels == 0);
        assert(panels & !0u8 == panels) by (bit_vector);
        law_freeze_needs_a_step(notes, (n - 1) as nat, panels, end);
    }
}

/// The rows of a step chunk are taken in turn. One with panels is a note at its tick; one
/// without is the end of the next freeze, which counts where its kind is 1 and is refused
/// where it has panels without a step.
pub proof fn law_rows_are_taken_in_turn(
    style: Style,
    ticks: Seq<i32>,
    steps: Seq<u8>,
    freezes: Seq<FreezeEntry>,
    n: nat,
    offset: usize,
    notes: Seq<Note>,
    k: nat,
)
    requires
        notes_outcome(style, ticks, steps, freezes, n, offset) == Ok::<Seq<Note>, SsqErrorView>(
            notes,
        ),
        k == freeze_ends(steps, n),
    ensures
        ({
            let next = notes_outcome(style, ticks, steps, freezes, n + 1, offset);
            let beat = tick_beat(ticks[n as int] as int);
            let freeze = freezes[k as int];
            let (held, left) = freeze_closed(notes, notes.len(), freeze.panels, beat);
            &&& steps[n as int] != 0 ==> next == Ok::<Seq<Note>, SsqErrorView>(
                notes.push(note_of_byte(steps[n as int], style, beat)),
            )
            &&& steps[n as int] == 0 && freeze.kind != 1 ==> next == Ok::<
                Seq<Note>,
                SsqErrorView,
            >(notes)
            &&& steps[n as int] == 0 && freeze.kind == 1 && left == 0 ==> next == Ok::<
                Seq<Note>,
                SsqErrorView,
            >(held)
            &&& steps[n as int] == 0 && freeze.kind == 1 && left != 0 ==> next is Err
        }),
{
}

/// A step chunk is refused where its code is none of a chart, or where it is too short
/// for its steps or for the freezes that these end; its chart is of the style and the
/// difficulty of its code.
pub proof fn law_short_step_chunks_are_refused(h: ChunkHeader, body: Seq<u8>, offset: usize)
    ensures
        ({
            let n = h.param3 as nat;
            let needed = 5 * n + n % 2;
            let chart = steps_outcome(h, body, offset);
            &&& difficulty_of(h.param2) is None ==> chart is Err
            &&& body.len() < needed ==> chart is Err
            &&& body.len() >= needed && body.len() < needed + 2 * freeze_ends(steps_of(body, n), n)
                ==> chart is Err
            &&& body.len() >= needed + 2 * freeze_ends(steps_of(body, n), n) ==> (difficulty_of(
                h.param2,
            ) matches Some((style, difficulty)) ==> match notes_outcome(
                style,
                sle32s(body, 0, n),
                steps_of(body, n),
                freezes_of(body, n),
                n,
                offset,
            ) {
                Ok(notes) => chart matches Ok(c) && c.style == style && c.difficulty == difficulty
                    && c.notes == notes,
                Err(_) => chart is Err,
            })
        }),
{
}

/// A set of panels has as many as it has bits.
pub proof fn law_panels_are_counted(bits: u8)
    ensures
        panels_below(bits, 8) == (bits as int) % 2 + (bits as int / 2) % 2 + (bits as int / 4) % 2 + (
        bits as int / 8) % 2 + (bits as int / 16) % 2 + (bits as int / 32) % 2 + (bits as int / 64)
            % 2 + (bits as int / 128) % 2,
{
    reveal_with_fuel(panels_below, 9);
    law_panels_are_bits(bits, 0);
    law_panels_are_bits(bits, 1);
    law_panels_are_bits(bits, 2);
    law_panels_are_bits(bits, 3);
    law_panels_are_bits(bits, 4);
    law_panels_are_bits(bits, 5);
    law_panels_are_bits(bits, 6);
    law_panels_are_bits(bits, 7);
    assert(pow2_of(0) == 1 && pow2_of(1) == 2 && pow2_of(2) == 4 && pow2_of(3) == 8 && pow2_of(4)
        == 16 && pow2_of(5) == 32 && pow2_of(6) == 64 && pow2_of(7) == 128);
    assert(bits as int / 1 == bits);
}

} // verus!
