//! What modernizing keeps and what it changes.

use super::modernize::{
    first_misfit, modernized, moved_beat, moved_charts, moved_events, moved_notes, moved_pair,
    moved_segments, moved_stops, pair_fits, pairs_moved, rescaled,
};
use crate::model::rational::{
    add_value, is_lowest, law_rounding_is_nearest, lemma_lowest, lemma_lowest_fixed,
    lemma_lowest_unique, lowest, q_fits,
};
use crate::model::{group_model_values, Beat, Note, Rational};
use crate::ssq::tempo_meaning::{is_near, lemma_near_same};
use crate::ssq::mines::in_i32;
use crate::ssq::SsqView;
use vstd::prelude::*;

verus! {

/// Whether a position is a valid one.
pub open spec fn sound_beat(b: Beat) -> bool {
    is_lowest(b@) && q_fits(b@)
}

/// Whether every position of a stepfile is a valid one.
pub open spec fn sound_beats(v: SsqView) -> bool {
    &&& forall|i: int|
        0 <= i < v.tempo_segments.len() ==> sound_beat((#[trigger] v.tempo_segments[i]).start_beat)
    &&& forall|i: int| 0 <= i < v.stops.len() ==> sound_beat((#[trigger] v.stops[i]).at_beat)
    &&& forall|i: int, j: int|
        0 <= i < v.charts.len() && 0 <= j < v.charts[i].notes.len() ==> sound_beat(
            (#[trigger] v.charts[i].notes[j]).beat,
        )
}

/// Whether every tempo pair of a stepfile can be moved.
pub open spec fn movable(v: SsqView) -> bool {
    &&& v.tps > 0
    &&& v.raw_tempo_pairs.len() > 0
    &&& forall|i: int|
        0 <= i < v.raw_tempo_pairs.len() ==> pair_fits(
            #[trigger] v.raw_tempo_pairs[i],
            -v.raw_tempo_pairs[0].0,
            v.tps as int,
        )
}

proof fn lemma_no_misfit(pairs: Seq<(i32, i32)>, shift: int, tps: int, i: int)
    requires
        0 <= i <= pairs.len(),
        forall|k: int| 0 <= k < pairs.len() ==> pair_fits(#[trigger] pairs[k], shift, tps),
    ensures
        first_misfit(pairs, shift, tps, i) is None,
    decreases pairs.len() - i,
{
    if i < pairs.len() {
        lemma_no_misfit(pairs, shift, tps, i + 1);
    }
}

/// A modernized stepfile runs at 1000 ticks per second, and its timeline begins
/// at tick 0. The distance of every tempo entry from the first is kept, and
/// the sync offset is the time of the first. Events move by as much, wherever
/// that fits their field.
pub proof fn law_modernized_begins_at_zero(v: SsqView)
    requires
        movable(v),
    ensures
        modernized(v).tps == 1000,
        modernized(v).raw_tempo_pairs.len() == v.raw_tempo_pairs.len(),
        modernized(v).raw_tempo_pairs[0].0 == 0,
        forall|i: int|
            0 <= i < v.raw_tempo_pairs.len() ==> (#[trigger] modernized(v).raw_tempo_pairs[i]).0
                == v.raw_tempo_pairs[i].0 - v.raw_tempo_pairs[0].0,
        modernized(v).audio_sync_offset_seconds == Rational::of(
            lowest(modernized(v).raw_tempo_pairs[0].1 as int, 1000),
        ),
        modernized(v).events.len() == v.events.len(),
        forall|i: int|
            0 <= i < v.events.len() && in_i32(v.events[i].tick - v.raw_tempo_pairs[0].0) ==> (
            #[trigger] modernized(v).events[i]).tick == v.events[i].tick - v.raw_tempo_pairs[0].0,
{
    let pairs = v.raw_tempo_pairs;
    lemma_no_misfit(pairs, -pairs[0].0, v.tps as int, 0);
    assert(pair_fits(pairs[0], -pairs[0].0, v.tps as int));
}

/// At the modern rate, times stay as they are.
proof fn lemma_rescaled_same(time: int)
    ensures
        rescaled(time, 1000) == time,
{
    assert(is_lowest((1int, 1int))) by {
        assert(crate::model::rational::gcd_of(1, 1) == crate::model::rational::gcd_of(1, 0)) by {
            reveal_with_fuel(crate::model::rational::gcd_of, 3);
        }
    }
    lemma_lowest(1000, 1000);
    lemma_lowest_unique(lowest(1000, 1000), (1, 1));
    if time >= 0 {
        assert((2 * (time * 1) + 1) / 2 == time);
    } else {
        assert((2 * -(time * 1) + 1) / 2 == -time);
    }
}

proof fn lemma_no_shift()
    ensures
        lowest(0, 1024) == (0int, 1int),
        is_lowest((0int, 1int)),
{
    assert(is_lowest((0int, 1int))) by {
        reveal_with_fuel(crate::model::rational::gcd_of, 3);
    }
    lemma_lowest(0, 1024);
    lemma_lowest_unique(lowest(0, 1024), (0, 1));
}

proof fn lemma_unmoved(b: Beat)
    requires
        sound_beat(b),
    ensures
        moved_beat(b, (0, 1)) == b,
{
    broadcast use group_model_values;

    let (n, d) = b@;
    assert(n * 1 + 0 * d == n && d * 1 == d);
    lemma_lowest_fixed(b@);
    assert(add_value(b@, (0, 1)) == Some(b@));
}

/// A moved position is a valid one.
proof fn lemma_moved_sound(b: Beat, shift: (int, int))
    requires
        sound_beat(b),
        is_lowest(shift),
    ensures
        sound_beat(moved_beat(b, shift)),
{
    broadcast use group_model_values;

    crate::model::rational::law_arithmetic_is_exact(b@, shift);
}

/// A stepfile that is modern already stays as it is.
pub proof fn law_modern_stays(v: SsqView)
    requires
        v.tps == 1000,
        v.raw_tempo_pairs.len() > 0,
        v.raw_tempo_pairs[0].0 == 0,
        v.audio_sync_offset_seconds == Rational::of(
            lowest(v.raw_tempo_pairs[0].1 as int, 1000),
        ),
        sound_beats(v),
    ensures
        modernized(v) == v,
{
    let pairs = v.raw_tempo_pairs;
    assert forall|i: int| 0 <= i < pairs.len() implies pair_fits(#[trigger] pairs[i], 0, 1000)
        && moved_pair(pairs[i], 0, 1000) == pairs[i] by {
        lemma_rescaled_same(pairs[i].1 as int);
    }
    lemma_no_misfit(pairs, 0, 1000, 0);
    lemma_no_shift();
    lemma_rescaled_same(pairs[0].1 as int);
    assert(pairs_moved(pairs, 0, 1000, pairs.len() as int) =~= pairs);
    assert forall|i: int| 0 <= i < v.tempo_segments.len() implies moved_segments(
        v.tempo_segments,
        (0, 1),
    )[i] == v.tempo_segments[i] by {
        lemma_unmoved(v.tempo_segments[i].start_beat);
    }
    assert(moved_segments(v.tempo_segments, (0, 1)) =~= v.tempo_segments);
    assert forall|i: int| 0 <= i < v.stops.len() implies moved_stops(v.stops, (0, 1))[i]
        == v.stops[i] by {
        lemma_unmoved(v.stops[i].at_beat);
    }
    assert(moved_stops(v.stops, (0, 1)) =~= v.stops);
    assert forall|i: int| 0 <= i < v.charts.len() implies moved_charts(v.charts, (0, 1))[i]
        == v.charts[i] by {
        let notes: Seq<Note> = v.charts[i].notes;
        assert forall|j: int| 0 <= j < notes.len() implies moved_notes(notes, (0, 1))[j]
            == notes[j] by {
            assert(sound_beat(v.charts[i].notes[j].beat));
            lemma_unmoved(notes[j].beat);
        }
        assert(moved_notes(notes, (0, 1)) =~= notes);
    }
    assert(moved_charts(v.charts, (0, 1)) =~= v.charts);
    assert(moved_events(v.events, 0) =~= v.events);
}

/// Modernizing twice does no more than modernizing once.
pub proof fn law_modernize_twice(v: SsqView)
    requires
        movable(v),
        sound_beats(v),
    ensures
        modernized(modernized(v)) == modernized(v),
{
    law_modernized_begins_at_zero(v);
    let pairs = v.raw_tempo_pairs;
    let m = modernized(v);
    let beats = lowest(-pairs[0].0 as int, 1024);
    lemma_lowest(-pairs[0].0 as int, 1024);
    lemma_no_misfit(pairs, -pairs[0].0, v.tps as int, 0);
    assert forall|i: int| 0 <= i < m.tempo_segments.len() implies sound_beat(
        (#[trigger] m.tempo_segments[i]).start_beat,
    ) by {
        lemma_moved_sound(v.tempo_segments[i].start_beat, beats);
    }
    assert forall|i: int| 0 <= i < m.stops.len() implies sound_beat(
        (#[trigger] m.stops[i]).at_beat,
    ) by {
        lemma_moved_sound(v.stops[i].at_beat, beats);
    }
    assert forall|i: int, j: int|
        0 <= i < m.charts.len() && 0 <= j < m.charts[i].notes.len() implies sound_beat(
        (#[trigger] m.charts[i].notes[j]).beat,
    ) by {
        assert(sound_beat(v.charts[i].notes[j].beat));
        lemma_moved_sound(v.charts[i].notes[j].beat, beats);
    }
    law_modern_stays(m);
}

/// Whether every tempo entry has room at the modern rate, counted from the first.
pub open spec fn has_room(v: SsqView) -> bool {
    &&& v.tps > 0
    &&& v.raw_tempo_pairs.len() > 0
    &&& forall|i: int|
        0 <= i < v.raw_tempo_pairs.len() ==> {
            let (tick, time) = #[trigger] v.raw_tempo_pairs[i];
            &&& i32::MIN <= tick - v.raw_tempo_pairs[0].0 <= i32::MAX
            &&& i32::MIN * v.tps <= 1000 * time <= i32::MAX * v.tps
        }
}

/// A time is the same at the modern rate, to the nearest millisecond.
proof fn lemma_rescaled_near(time: int, tps: int)
    requires
        tps > 0,
    ensures
        is_near(rescaled(time, tps), 1000 * time, tps),
{
    let s = lowest(1000, tps);
    lemma_lowest(1000, tps);
    law_rounding_is_nearest(time * s.0, s.1);
    assert((time * s.0) * tps == (1000 * time) * s.1) by (nonlinear_arith)
        requires
            s.0 * tps == 1000 * s.1,
    ;
    lemma_near_same(rescaled(time, tps), (time * s.0, s.1), 1000 * time, tps);
}

proof fn lemma_room_is_movable(v: SsqView)
    requires
        has_room(v),
    ensures
        movable(v),
{
    let pairs = v.raw_tempo_pairs;
    let tps = v.tps as int;
    assert forall|i: int| 0 <= i < pairs.len() implies pair_fits(
        #[trigger] pairs[i],
        -pairs[0].0,
        tps,
    ) by {
        let time = pairs[i].1 as int;
        let r = rescaled(time, tps);
        lemma_rescaled_near(time, tps);
        assert(i32::MIN <= r <= i32::MAX) by (nonlinear_arith)
            requires
                -tps <= 2 * (r * tps - 1000 * time) <= tps,
                i32::MIN * tps <= 1000 * time <= i32::MAX * tps,
                tps > 0,
        ;
    }
}

/// Every tempo entry keeps its distance from the first, and its time to the nearest
/// millisecond: `time` ticks at the old rate are as long as the new ones at 1000 in a
/// second. The sync offset is the time of the first entry.
pub proof fn law_modernized_entries_keep_their_times(v: SsqView, i: int)
    requires
        has_room(v),
        0 <= i < v.raw_tempo_pairs.len(),
    ensures
        ({
            let m = modernized(v);
            let (tick, time) = v.raw_tempo_pairs[i];
            let now = m.raw_tempo_pairs[i];
            let sync = m.audio_sync_offset_seconds@;
            &&& m.tps == 1000
            &&& m.raw_tempo_pairs.len() == v.raw_tempo_pairs.len()
            &&& now.0 == tick - v.raw_tempo_pairs[0].0
            &&& is_near(now.1 as int, 1000 * time, v.tps as int)
            &&& sync.0 * 1000 == m.raw_tempo_pairs[0].1 * sync.1
            &&& sync.1 > 0
            &&& m.aux_chunks_dropped == v.aux_chunks_dropped
        }),
{
    broadcast use group_model_values;

    lemma_room_is_movable(v);
    law_modernized_begins_at_zero(v);
    lemma_no_misfit(v.raw_tempo_pairs, -v.raw_tempo_pairs[0].0, v.tps as int, 0);
    lemma_rescaled_near(v.raw_tempo_pairs[i].1 as int, v.tps as int);
    assert(pair_fits(v.raw_tempo_pairs[i], -v.raw_tempo_pairs[0].0, v.tps as int));
    assert(pair_fits(v.raw_tempo_pairs[0], -v.raw_tempo_pairs[0].0, v.tps as int));
    lemma_lowest(rescaled(v.raw_tempo_pairs[0].1 as int, v.tps as int), 1000);
}

/// Whether position `b` lies `ticks` 1024ths of a beat before position `a`.
pub open spec fn lies_before(b: Beat, a: Beat, ticks: int) -> bool {
    &&& b@.1 > 0
    &&& b@.0 * (1024 * a@.1) == (1024 * a@.0 - ticks * a@.1) * b@.1
}

/// Whether a position has room for the move.
pub open spec fn can_move(b: Beat, ticks: int) -> bool {
    sound_beat(b) && add_value(b@, lowest(-ticks, 1024)) is Some
}

proof fn lemma_lies_before(b: Beat, ticks: int)
    requires
        can_move(b, ticks),
    ensures
        lies_before(moved_beat(b, lowest(-ticks, 1024)), b, ticks),
{
    broadcast use group_model_values;

    let s = lowest(-ticks, 1024);
    lemma_lowest(-ticks, 1024);
    crate::model::rational::law_arithmetic_is_exact(b@, s);
    let q = add_value(b@, s)->0;
    let (n, d) = b@;
    let x = n * s.1 + s.0 * d;
    assert(q.0 * (d * s.1) == x * q.1);
    assert(x * 1024 == (1024 * n - ticks * d) * s.1) by (nonlinear_arith)
        requires
            x == n * s.1 + s.0 * d,
            s.0 * 1024 == -ticks * s.1,
    ;
    let l = q.0 * (1024 * d);
    let r = (1024 * n - ticks * d) * q.1;
    assert(l * s.1 == r * s.1) by (nonlinear_arith)
        requires
            l == q.0 * (1024 * d),
            r == (1024 * n - ticks * d) * q.1,
            q.0 * (d * s.1) == x * q.1,
            x * 1024 == (1024 * n - ticks * d) * s.1,
    ;
    assert(l == r) by (nonlinear_arith)
        requires
            l * s.1 == r * s.1,
            s.1 > 0,
    ;
}

/// Notes move along with the tempo entries: each lies as far from the first entry as
/// before, and is the same note otherwise.
pub proof fn law_modernized_notes_move_along(v: SsqView, c: int, i: int)
    requires
        has_room(v),
        0 <= c < v.charts.len(),
        0 <= i < v.charts[c].notes.len(),
        can_move(v.charts[c].notes[i].beat, v.raw_tempo_pairs[0].0 as int),
    ensures
        ({
            let m = modernized(v);
            let was = v.charts[c].notes[i];
            let now = m.charts[c].notes[i];
            &&& m.charts.len() == v.charts.len()
            &&& m.charts[c].style == v.charts[c].style
            &&& m.charts[c].difficulty == v.charts[c].difficulty
            &&& m.charts[c].notes.len() == v.charts[c].notes.len()
            &&& lies_before(now.beat, was.beat, v.raw_tempo_pairs[0].0 as int)
            &&& now.kind == was.kind
            &&& now.panels == was.panels
        }),
{
    lemma_room_is_movable(v);
    lemma_no_misfit(v.raw_tempo_pairs, -v.raw_tempo_pairs[0].0, v.tps as int, 0);
    lemma_lies_before(v.charts[c].notes[i].beat, v.raw_tempo_pairs[0].0 as int);
}

/// Tempo changes move along with the tempo entries and keep their tempo.
pub proof fn law_modernized_tempos_move_along(v: SsqView, i: int)
    requires
        has_room(v),
        0 <= i < v.tempo_segments.len(),
        can_move(v.tempo_segments[i].start_beat, v.raw_tempo_pairs[0].0 as int),
    ensures
        ({
            let m = modernized(v);
            &&& m.tempo_segments.len() == v.tempo_segments.len()
            &&& lies_before(
                m.tempo_segments[i].start_beat,
                v.tempo_segments[i].start_beat,
                v.raw_tempo_pairs[0].0 as int,
            )
            &&& m.tempo_segments[i].bpm == v.tempo_segments[i].bpm
        }),
{
    lemma_room_is_movable(v);
    lemma_no_misfit(v.raw_tempo_pairs, -v.raw_tempo_pairs[0].0, v.tps as int, 0);
    lemma_lies_before(v.tempo_segments[i].start_beat, v.raw_tempo_pairs[0].0 as int);
}

/// Stops move along with the tempo entries and last as long.
pub proof fn law_modernized_stops_move_along(v: SsqView, i: int)
    requires
        has_room(v),
        0 <= i < v.stops.len(),
        can_move(v.stops[i].at_beat, v.raw_tempo_pairs[0].0 as int),
    ensures
        ({
            let m = modernized(v);
            &&& m.stops.len() == v.stops.len()
            &&& lies_before(
                m.stops[i].at_beat,
                v.stops[i].at_beat,
                v.raw_tempo_pairs[0].0 as int,
            )
            &&& m.stops[i].duration_seconds == v.stops[i].duration_seconds
        }),
{
    lemma_room_is_movable(v);
    lemma_no_misfit(v.raw_tempo_pairs, -v.raw_tempo_pairs[0].0, v.tps as int, 0);
    lemma_lies_before(v.stops[i].at_beat, v.raw_tempo_pairs[0].0 as int);
}

/// Events move along with the tempo entries, as far as their field lets them, and
/// keep their code and argument.
pub proof fn law_modernized_events_move_along(v: SsqView, i: int)
    requires
        has_room(v),
        0 <= i < v.events.len(),
    ensures
        ({
            let m = modernized(v);
            let to = v.events[i].tick - v.raw_tempo_pairs[0].0;
            &&& m.events.len() == v.events.len()
            &&& i32::MIN <= to <= i32::MAX ==> m.events[i].tick == to
            &&& to < i32::MIN ==> m.events[i].tick == i32::MIN
            &&& to > i32::MAX ==> m.events[i].tick == i32::MAX
            &&& m.events[i].code == v.events[i].code
            &&& m.events[i].arg == v.events[i].arg
        }),
{
    lemma_room_is_movable(v);
    lemma_no_misfit(v.raw_tempo_pairs, -v.raw_tempo_pairs[0].0, v.tps as int, 0);
}

/// Where an entry has no room, nothing is modernized: rate, notes, tempos, stops,
/// events and sync offset stay, and the entries behind it do.
pub proof fn law_without_room_the_rest_stays(v: SsqView, k: int)
    requires
        v.tps > 0,
        0 <= k < v.raw_tempo_pairs.len(),
        !in_i32(v.raw_tempo_pairs[k].0 - v.raw_tempo_pairs[0].0) || v.raw_tempo_pairs[k].1 * 2000
            > (2 * i32::MAX + 1) * v.tps || v.raw_tempo_pairs[k].1 * 2000 < (2 * i32::MIN - 1)
            * v.tps,
    ensures
        ({
            let m = modernized(v);
            &&& m.tps == v.tps
            &&& m.charts == v.charts
            &&& m.tempo_segments == v.tempo_segments
            &&& m.stops == v.stops
            &&& m.events == v.events
            &&& m.audio_sync_offset_seconds == v.audio_sync_offset_seconds
            &&& m.raw_tempo_pairs.len() == v.raw_tempo_pairs.len()
            &&& forall|i: int|
                k < i < v.raw_tempo_pairs.len() ==> #[trigger] m.raw_tempo_pairs[i]
                    == v.raw_tempo_pairs[i]
        }),
{
    let pairs = v.raw_tempo_pairs;
    let tps = v.tps as int;
    let shift = -pairs[0].0;
    let time = pairs[k].1 as int;
    let r = rescaled(time, tps);
    lemma_rescaled_near(time, tps);
    if in_i32(pairs[k].0 + shift) {
        assert(!in_i32(r)) by (nonlinear_arith)
            requires
                -tps <= 2 * (r * tps - 1000 * time) <= tps,
                time * 2000 > (2 * i32::MAX + 1) * tps || time * 2000 < (2 * i32::MIN - 1) * tps,
                tps > 0,
        ;
    }
    lemma_misfit_by(pairs, shift, tps, 0, k);
}

proof fn lemma_misfit_by(pairs: Seq<(i32, i32)>, shift: int, tps: int, i: int, k: int)
    requires
        0 <= i <= k < pairs.len(),
        !pair_fits(pairs[k], shift, tps),
    ensures
        first_misfit(pairs, shift, tps, i) matches Some(m) && i <= m <= k,
    decreases k - i,
{
    if i < k {
        lemma_misfit_by(pairs, shift, tps, i + 1, k);
    }
}

} // verus!
