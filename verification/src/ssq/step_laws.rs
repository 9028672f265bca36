//! What holds of the notes that chunks are read as, and of the entries that mines
//! are written as.

use super::mines::{
    first_shock, in_i32, is_shock_mask, mine_chunk, mine_entries, mine_fault, mine_merged,
    nearest_tick,
};
use super::mines_round_trip::lemma_ticks_compare;
use super::steps::{
    freeze_closed, freeze_ends, head_closed, note_of_byte, notes_outcome, FreezeEntry,
};
use crate::model::rational::{is_lowest, law_order_is_total, q_lt};
use crate::model::{group_model_values, style_mask, tick_beat, Beat, ChartView, Note, Style};
use vstd::prelude::*;

verus! {

/// Whether entries come in the order of their ticks, one for each tick.
pub open spec fn ascending(entries: Seq<(i32, u8)>) -> bool {
    forall|i: int, j: int|
        0 <= i < j < entries.len() ==> (#[trigger] entries[i]).0 < (#[trigger] entries[j]).0
}

proof fn lemma_merged(entries: Seq<(i32, u8)>, tick: i32, panels: u8)
    requires
        ascending(entries),
    ensures
        ascending(mine_merged(entries, tick, panels)),
        mine_merged(entries, tick, panels).len() > 0,
        forall|k: int|
            0 <= k < mine_merged(entries, tick, panels).len() ==> (#[trigger] mine_merged(
                entries,
                tick,
                panels,
            )[k]).0 == tick || exists|j: int|
                0 <= j < entries.len() && (#[trigger] entries[j]).0 == mine_merged(
                    entries,
                    tick,
                    panels,
                )[k].0,
    decreases entries.len(),
{
    let all = mine_merged(entries, tick, panels);
    if entries.len() == 0 || entries.last().0 < tick {
        assert forall|k: int| 0 <= k < all.len() implies (#[trigger] all[k]).0 == tick || exists|j: int|
            0 <= j < entries.len() && (#[trigger] entries[j]).0 == all[k].0 by {
            if k < entries.len() {
                assert(entries[k].0 == all[k].0);
            }
        }
    } else if entries.last().0 == tick {
        assert forall|k: int| 0 <= k < all.len() implies (#[trigger] all[k]).0 == tick || exists|j: int|
            0 <= j < entries.len() && (#[trigger] entries[j]).0 == all[k].0 by {
            if k < entries.len() - 1 {
                assert(entries[k].0 == all[k].0);
            }
        }
    } else {
        let init = entries.drop_last();
        assert(ascending(init));
        lemma_merged(init, tick, panels);
        let rest = mine_merged(init, tick, panels);
        let last = entries.len() - 1;
        assert forall|k: int| 0 <= k < rest.len() implies (#[trigger] rest[k]).0 < entries[last].0 by {
            if rest[k].0 != tick {
                let j = choose|j: int| 0 <= j < init.len() && (#[trigger] init[j]).0 == rest[k].0;
                assert(entries[j].0 < entries[last].0);
            }
        }
        assert forall|i: int, j: int| 0 <= i < j < all.len() implies (#[trigger] all[i]).0 < (
        #[trigger] all[j]).0 by {
            assert(all[i] == rest[i]);
            if j < rest.len() {
                assert(all[j] == rest[j]);
            }
        }
        assert forall|k: int| 0 <= k < all.len() implies (#[trigger] all[k]).0 == tick || exists|j: int|
            0 <= j < entries.len() && (#[trigger] entries[j]).0 == all[k].0 by {
            if k < rest.len() {
                assert(all[k] == rest[k]);
                if rest[k].0 != tick {
                    let j = choose|j: int| 0 <= j < init.len() && (#[trigger] init[j]).0 == rest[k].0;
                    assert(entries[j].0 == all[k].0);
                }
            } else {
                assert(entries[last].0 == all[k].0);
            }
        }
    }
}

/// Mines are written in the order of their ticks, one entry for each tick, and no
/// tick is negative.
pub proof fn law_mine_entries_ascend(notes: Seq<Note>, n: nat)
    requires
        n <= notes.len(),
    ensures
        mine_entries(notes, n) matches Ok(entries) ==> ascending(entries) && forall|k: int|
            0 <= k < entries.len() ==> (#[trigger] entries[k]).0 >= 0,
    decreases n,
{
    if n > 0 {
        law_mine_entries_ascend(notes, (n - 1) as nat);
        let note = notes[n - 1];
        if let Ok(before) = mine_entries(notes, (n - 1) as nat) {
            if note.kind is Mine && mine_fault(note) is None {
                let tick = nearest_tick(note.beat) as i32;
                lemma_merged(before, tick, note.panels@);
                let now = mine_merged(before, tick, note.panels@);
                assert forall|k: int| 0 <= k < now.len() implies (#[trigger] now[k]).0 >= 0 by {
                    if now[k].0 != tick {
                        let j = choose|j: int|
                            0 <= j < before.len() && (#[trigger] before[j]).0 == now[k].0;
                        assert(before[j].0 >= 0);
                    }
                }
            }
        }
    }
}

proof fn lemma_first_shock(entries: Seq<(i32, u8)>, i: int)
    requires
        0 <= i,
        first_shock(entries, i) is None,
    ensures
        forall|k: int| i <= k < entries.len() ==> !is_shock_mask((#[trigger] entries[k]).1),
    decreases entries.len() - i,
{
    if i < entries.len() {
        lemma_first_shock(entries, i + 1);
    }
}

/// A mine chunk never holds a mask that stands for a shock.
pub proof fn law_mine_chunks_hold_no_shocks(chart: ChartView)
    ensures
        mine_chunk(chart) is Ok ==> mine_entries(chart.notes, chart.notes.len()) is Ok && forall|
            k: int,
        |
            0 <= k < mine_entries(chart.notes, chart.notes.len())->Ok_0.len() ==> !is_shock_mask(
                (#[trigger] mine_entries(chart.notes, chart.notes.len())->Ok_0[k]).1,
            ),
{
    reveal(mine_chunk);
    if let Ok(entries) = mine_entries(chart.notes, chart.notes.len()) {
        if first_shock(entries, 0) is None {
            lemma_first_shock(entries, 0);
        }
    }
}

/// Whether the notes of a step chunk are sound: on panels of the style, and none
/// before the one in front of it.
pub open spec fn sound_notes(notes: Seq<Note>, style: Style) -> bool {
    &&& forall|k: int|
        0 <= k < notes.len() ==> (#[trigger] notes[k]).panels@ & style_mask(style)
            == notes[k].panels@
    &&& forall|i: int, j: int|
        0 <= i < j < notes.len() ==> !q_lt((#[trigger] notes[j]).beat@, (#[trigger] notes[i]).beat@)
}

proof fn lemma_within(p: u8, q: u8, m: u8)
    requires
        p & m == p,
    ensures
        (p & q) & m == p & q,
        (p & !q) & m == p & !q,
{
    assert(p & m == p ==> (p & q) & m == p & q && (p & !q) & m == p & !q) by (bit_vector);
}

proof fn lemma_masked(b: u8, m: u8)
    ensures
        (b & m) & m == b & m,
{
    assert((b & m) & m == b & m) by (bit_vector);
}

/// Turning panels of a note into a hold keeps the notes sound.
proof fn lemma_head_closed(notes: Seq<Note>, i: int, held: u8, end: Beat, style: Style, pending: u8)
    requires
        sound_notes(notes, style),
        0 <= i < notes.len(),
        held == notes[i].panels@ & pending,
    ensures
        sound_notes(head_closed(notes, i, held, end), style),
        forall|k: int|
            0 <= k < head_closed(notes, i, held, end).len() ==> exists|j: int|
                0 <= j < notes.len() && (#[trigger] notes[j]).beat == (#[trigger] head_closed(
                    notes,
                    i,
                    held,
                    end,
                )[k]).beat,
        i < head_closed(notes, i, held, end).len(),
{
    broadcast use group_model_values;

    let note = notes[i];
    let after = head_closed(notes, i, held, end);
    lemma_within(note.panels@, pending, style_mask(style));
    lemma_within(note.panels@, held, style_mask(style));
    assert forall|k: int| 0 <= k < after.len() implies after[k].beat == notes[if k <= i {
        k
    } else if after.len() == notes.len() {
        k
    } else {
        k - 1
    }].beat by {}
    assert forall|k: int| 0 <= k < after.len() implies exists|j: int|
        0 <= j < notes.len() && (#[trigger] notes[j]).beat == (#[trigger] after[k]).beat by {
        let j = if k <= i {
            k
        } else if after.len() == notes.len() {
            k
        } else {
            k - 1
        };
        assert(notes[j].beat == after[k].beat);
    }
    assert forall|a: int, b: int| 0 <= a < b < after.len() implies !q_lt(
        (#[trigger] after[b]).beat@,
        (#[trigger] after[a]).beat@,
    ) by {
        let shifted = after.len() != notes.len();
        let x = if a <= i || !shifted {
            a
        } else {
            a - 1
        };
        let y = if b <= i || !shifted {
            b
        } else {
            b - 1
        };
        assert(after[a].beat == notes[x].beat && after[b].beat == notes[y].beat);
        if x < y {
            assert(!q_lt(notes[y].beat@, notes[x].beat@));
        }
    }
}

proof fn lemma_freeze_closed(notes: Seq<Note>, n: nat, pending: u8, end: Beat, style: Style)
    requires
        sound_notes(notes, style),
        n <= notes.len(),
    ensures
        sound_notes((freeze_closed(notes, n, pending, end)).0, style),
        forall|k: int|
            0 <= k < (freeze_closed(notes, n, pending, end)).0.len() ==> exists|j: int|
                0 <= j < notes.len() && (#[trigger] notes[j]).beat == (#[trigger] (freeze_closed(
                    notes,
                    n,
                    pending,
                    end,
                )).0[k]).beat,
    decreases n,
{
    if n == 0 || pending == 0 {
        assert forall|k: int| 0 <= k < notes.len() implies exists|j: int|
            0 <= j < notes.len() && (#[trigger] notes[j]).beat == (#[trigger] notes[k]).beat by {
            assert(notes[k].beat == notes[k].beat);
        }
    } else {
        let i = n - 1;
        let hit = notes[i].panels@ & pending;
        let mid = if hit != 0 && notes[i].kind is Tap {
            head_closed(notes, i, hit, end)
        } else {
            notes
        };
        lemma_head_closed(notes, i, hit, end, style, pending);
        lemma_freeze_closed(mid, i as nat, pending & !hit, end, style);
        let out = (freeze_closed(notes, n, pending, end)).0;
        assert forall|k: int| 0 <= k < out.len() implies exists|j: int|
            0 <= j < notes.len() && (#[trigger] notes[j]).beat == (#[trigger] out[k]).beat by {
            let j = choose|j: int| 0 <= j < mid.len() && (#[trigger] mid[j]).beat == out[k].beat;
            if mid == notes {
                assert(notes[j].beat == out[k].beat);
            } else {
                let h = choose|h: int|
                    0 <= h < notes.len() && (#[trigger] notes[h]).beat == mid[j].beat;
                assert(notes[h].beat == out[k].beat);
            }
        }
    }
}

/// Whether the notes so far lie no later than tick `t`.
spec fn up_to(notes: Seq<Note>, t: int) -> bool {
    forall|k: int| 0 <= k < notes.len() ==> !q_lt(tick_beat(t)@, (#[trigger] notes[k]).beat@)
}

proof fn lemma_up_to(notes: Seq<Note>, s: int, t: int)
    requires
        in_i32(s),
        in_i32(t),
        s <= t,
        up_to(notes, s),
        forall|k: int| 0 <= k < notes.len() ==> is_lowest((#[trigger] notes[k]).beat@),
    ensures
        up_to(notes, t),
{
    super::steps::lemma_tick_parts(s);
    super::steps::lemma_tick_parts(t);
    lemma_ticks_compare(t, s);
    assert forall|k: int| 0 <= k < notes.len() implies !q_lt(
        tick_beat(t)@,
        (#[trigger] notes[k]).beat@,
    ) by {
        let q = notes[k].beat@;
        law_order_is_total(tick_beat(t)@, q, tick_beat(s)@);
        law_order_is_total(q, tick_beat(s)@, tick_beat(t)@);
        law_order_is_total(tick_beat(s)@, tick_beat(t)@, q);
    }
}

spec fn all_lowest(notes: Seq<Note>) -> bool {
    forall|k: int| 0 <= k < notes.len() ==> is_lowest((#[trigger] notes[k]).beat@)
}

/// The notes of a step chunk whose ticks do not go back are on panels of the style
/// and come in order.
pub proof fn law_parsed_steps_are_sound(
    style: Style,
    ticks: Seq<i32>,
    steps: Seq<u8>,
    freezes: Seq<FreezeEntry>,
    n: nat,
    chunk_offset: usize,
)
    requires
        n <= ticks.len(),
        forall|i: int, j: int| 0 <= i <= j < ticks.len() ==> ticks[i] <= ticks[j],
    ensures
        notes_outcome(style, ticks, steps, freezes, n, chunk_offset) matches Ok(notes)
            ==> sound_notes(notes, style),
{
    lemma_parsed(style, ticks, steps, freezes, n, chunk_offset);
}

proof fn lemma_parsed(
    style: Style,
    ticks: Seq<i32>,
    steps: Seq<u8>,
    freezes: Seq<FreezeEntry>,
    n: nat,
    chunk_offset: usize,
)
    requires
        n <= ticks.len(),
        forall|i: int, j: int| 0 <= i <= j < ticks.len() ==> ticks[i] <= ticks[j],
    ensures
        notes_outcome(style, ticks, steps, freezes, n, chunk_offset) matches Ok(notes)
            ==> sound_notes(notes, style) && all_lowest(notes) && (n > 0 ==> up_to(
            notes,
            ticks[n - 1] as int,
        )) && (n == 0 ==> notes.len() == 0),
    decreases n,
{
    broadcast use group_model_values;

    if n > 0 {
        let i = n - 1;
        lemma_parsed(style, ticks, steps, freezes, i as nat, chunk_offset);
        let t = ticks[i] as int;
        let beat = tick_beat(t);
        super::steps::lemma_tick_parts(t);
        if let Ok(notes) = notes_outcome(style, ticks, steps, freezes, i as nat, chunk_offset) {
            if i > 0 {
                assert(ticks[i - 1] <= ticks[i]);
                lemma_up_to(notes, ticks[i - 1] as int, t);
            }
            assert(up_to(notes, t));
            if steps[i] != 0 {
                let x = note_of_byte(steps[i], style, beat);
                lemma_masked(steps[i], style_mask(style));
                let now = notes.push(x);
                assert forall|a: int, b: int| 0 <= a < b < now.len() implies !q_lt(
                    (#[trigger] now[b]).beat@,
                    (#[trigger] now[a]).beat@,
                ) by {
                    assert(now[a] == notes[a]);
                }
                assert(sound_notes(now, style));
            } else {
                let entry = freezes[freeze_ends(steps, i as nat) as int];
                lemma_freeze_closed(notes, notes.len(), entry.panels, beat, style);
                let after = (freeze_closed(notes, notes.len(), entry.panels, beat)).0;
                assert forall|k: int| 0 <= k < after.len() implies is_lowest(
                    (#[trigger] after[k]).beat@,
                ) && !q_lt(beat@, after[k].beat@) by {
                    let j = choose|j: int|
                        0 <= j < notes.len() && (#[trigger] notes[j]).beat == after[k].beat;
                    assert(is_lowest(notes[j].beat@));
                }
            }
        }
    }
}

} // verus!
