//! What the closing events and tempo entries of a converted chart are for: the chart
//! ends behind its last note, and the music runs on until then.

use super::convert::{legacy_to_ddr_chart_outcome, sm5_to_ddr_chart_outcome};
use super::timeline::{
    canonical_events, charts_tick, closing_pairs, closing_tick, end_tick_of, extended, last_tick_of,
    law_closing_events, notes_tick, note_tick,
};
use crate::model::rational::{
    add_value, is_lowest, law_arithmetic_is_exact, law_rounding_is_nearest, q_fits,
};
use crate::model::{group_model_values, tick_beat, ChartView, Note, NoteKind, SongView};
use crate::ssq::kept::{chunks_fit, law_written_files_keep_tempo_and_events};
use crate::ssq::mines::{in_i32, nearest_tick};
use crate::ssq::ssq_outcome;
use crate::ssq::writer::{note_end, synthesized};
use vstd::prelude::*;

verus! {

/// Where a note is over, in beats, as a fraction: at its tail if it is a hold, else at
/// its own position.
pub open spec fn over_at(note: Note) -> (int, int) {
    match note.kind {
        NoteKind::HoldHead { length } => (
            note.beat@.0 * length@.1 + length@.0 * note.beat@.1,
            note.beat@.1 * length@.1,
        ),
        _ => note.beat@,
    }
}

/// Whether a note is a valid one that is over within the ticks of a stepfile.
pub open spec fn timed(note: Note) -> bool {
    let (n, d) = over_at(note);
    &&& is_lowest(note.beat@)
    &&& q_fits(note.beat@)
    &&& (note.kind matches NoteKind::HoldHead { length } ==> is_lowest(length@) && add_value(
        note.beat@,
        length@,
    ) is Some)
    &&& i32::MIN * d <= 1024 * n <= i32::MAX * d
}

/// Whether a note is over by a tick, half a tick at most left.
pub open spec fn over_by(note: Note, tick: int) -> bool {
    let (n, d) = over_at(note);
    2048 * n <= (2 * tick + 1) * d
}

/// Whether a tick is the nearest to where a note is over.
pub open spec fn over_near(note: Note, tick: int) -> bool {
    let (n, d) = over_at(note);
    (2 * tick - 1) * d <= 2048 * n <= (2 * tick + 1) * d
}

/// Fractions that are the same are as near to a tick.
proof fn lemma_same_tick(q: (int, int), n: int, d: int, t: int)
    requires
        q.1 > 0,
        d > 0,
        q.0 * d == n * q.1,
        -q.1 <= 2 * (t * q.1 - q.0 * 1024) <= q.1,
    ensures
        (2 * t - 1) * d <= 2048 * n <= (2 * t + 1) * d,
{
    assert((2 * t + 1) * q.1 >= 2048 * q.0 && (2 * t - 1) * q.1 <= 2048 * q.0) by (nonlinear_arith)
        requires
            -q.1 <= 2 * (t * q.1 - q.0 * 1024) <= q.1,
    ;
    let up = 2 * t + 1;
    let down = 2 * t - 1;
    assert((up * d) * q.1 >= (2048 * n) * q.1) by (nonlinear_arith)
        requires
            up * q.1 >= 2048 * q.0,
            d > 0,
            q.0 * d == n * q.1,
    ;
    assert((down * d) * q.1 <= (2048 * n) * q.1) by (nonlinear_arith)
        requires
            down * q.1 <= 2048 * q.0,
            d > 0,
            q.0 * d == n * q.1,
    ;
    assert(up * d >= 2048 * n) by (nonlinear_arith)
        requires
            (up * d) * q.1 >= (2048 * n) * q.1,
            q.1 > 0,
    ;
    assert(down * d <= 2048 * n) by (nonlinear_arith)
        requires
            (down * d) * q.1 <= (2048 * n) * q.1,
            q.1 > 0,
    ;
}

/// A tick that is near lies in the range of ticks.
proof fn lemma_tick_range(n: int, d: int, t: int)
    requires
        d > 0,
        i32::MIN * d <= 1024 * n <= i32::MAX * d,
        (2 * t - 1) * d <= 2048 * n <= (2 * t + 1) * d,
    ensures
        in_i32(t),
{
    assert(2 * t - 1 <= 2 * i32::MAX) by (nonlinear_arith)
        requires
            d > 0,
            (2 * t - 1) * d <= 2048 * n,
            2048 * n <= (2 * i32::MAX) * d,
    ;
    assert(2 * t + 1 >= 2 * i32::MIN) by (nonlinear_arith)
        requires
            d > 0,
            2048 * n <= (2 * t + 1) * d,
            (2 * i32::MIN) * d <= 2048 * n,
    ;
}

/// The tick of a note is the nearest to where it is over.
proof fn lemma_note_tick(note: Note)
    requires
        is_lowest(note.beat@),
        q_fits(note.beat@),
        note.kind matches NoteKind::HoldHead { length } ==> is_lowest(length@),
    ensures
        over_at(note).1 > 0,
        note_tick(note) is Some ==> over_near(note, note_tick(note)->0),
        timed(note) ==> note_tick(note) is Some,
{
    broadcast use group_model_values;

    let (n, d) = over_at(note);
    match note.kind {
        NoteKind::HoldHead { length } => {
            assert(d > 0) by (nonlinear_arith)
                requires
                    d == note.beat@.1 * length@.1,
                    note.beat@.1 > 0,
                    length@.1 > 0,
            ;
            law_arithmetic_is_exact(note.beat@, length@);
        },
        _ => {},
    }
    if note_end(note) is Some {
        let end = note_end(note)->0;
        let q = end@;
        assert(q.1 > 0 && q.0 * d == n * q.1);
        law_rounding_is_nearest(q.0 * 1024, q.1);
        let t = nearest_tick(end);
        lemma_same_tick(q, n, d, t);
        if timed(note) {
            lemma_tick_range(n, d, t);
        }
    }
}

/// Whether the notes of charts are valid ones.
pub open spec fn sound_notes(charts: Seq<ChartView>) -> bool {
    forall|c: int, i: int|
        0 <= c < charts.len() && 0 <= i < charts[c].notes.len() ==> {
            let note = #[trigger] charts[c].notes[i];
            &&& is_lowest(note.beat@)
            &&& q_fits(note.beat@)
            &&& note.kind matches NoteKind::HoldHead { length } ==> is_lowest(length@)
        }
}

proof fn lemma_notes_tick_above(notes: Seq<Note>, n: nat, i: int)
    requires
        0 <= i < n <= notes.len(),
        note_tick(notes[i]) is Some,
    ensures
        notes_tick(notes, n) is Some,
        note_tick(notes[i])->0 <= notes_tick(notes, n)->0,
    decreases n,
{
    if i < n - 1 {
        lemma_notes_tick_above(notes, (n - 1) as nat, i);
    }
}

proof fn lemma_charts_tick_above(charts: Seq<ChartView>, n: nat, c: int, i: int)
    requires
        0 <= c < n <= charts.len(),
        0 <= i < charts[c].notes.len(),
        note_tick(charts[c].notes[i]) is Some,
    ensures
        charts_tick(charts, n) is Some,
        note_tick(charts[c].notes[i])->0 <= charts_tick(charts, n)->0,
    decreases n,
{
    if c < n - 1 {
        lemma_charts_tick_above(charts, (n - 1) as nat, c, i);
    } else {
        lemma_notes_tick_above(charts[c].notes, charts[c].notes.len(), i);
    }
}

proof fn lemma_notes_tick_met(notes: Seq<Note>, n: nat)
    requires
        n <= notes.len(),
        notes_tick(notes, n) is Some,
    ensures
        exists|i: int| 0 <= i < n && note_tick(#[trigger] notes[i]) == notes_tick(notes, n),
    decreases n,
{
    if n > 0 {
        if note_tick(notes[n - 1]) != notes_tick(notes, n) {
            lemma_notes_tick_met(notes, (n - 1) as nat);
        }
    }
}

proof fn lemma_charts_tick_met(charts: Seq<ChartView>, n: nat)
    requires
        n <= charts.len(),
        charts_tick(charts, n) is Some,
    ensures
        exists|c: int, i: int|
            0 <= c < n && 0 <= i < charts[c].notes.len() && note_tick(#[trigger] charts[c].notes[i])
                == charts_tick(charts, n),
    decreases n,
{
    if n > 0 {
        let here = charts[n - 1].notes;
        if notes_tick(here, here.len()) == charts_tick(charts, n) {
            lemma_notes_tick_met(here, here.len());
            let i = choose|i: int|
                0 <= i < here.len() && note_tick(#[trigger] here[i]) == notes_tick(
                    here,
                    here.len(),
                );
            assert(note_tick(charts[n - 1].notes[i]) == charts_tick(charts, n));
        } else {
            lemma_charts_tick_met(charts, (n - 1) as nat);
        }
    }
}

/// Every note is over by the last tick of a song: a hold at its tail.
pub proof fn law_notes_are_over_by_the_last_tick(charts: Seq<ChartView>, c: int, i: int)
    requires
        0 <= c < charts.len(),
        0 <= i < charts[c].notes.len(),
        timed(charts[c].notes[i]),
    ensures
        over_by(charts[c].notes[i], last_tick_of(charts)),
{
    let note = charts[c].notes[i];
    lemma_note_tick(note);
    lemma_charts_tick_above(charts, charts.len(), c, i);
    let t = note_tick(note)->0;
    let last = last_tick_of(charts);
    let d = over_at(note).1;
    assert((2 * t + 1) * d <= (2 * last + 1) * d) by (nonlinear_arith)
        requires
            t <= last,
            d > 0,
    ;
}

/// The last tick of a song is where one of its notes is over. A song without notes is
/// over after one measure.
pub proof fn law_last_tick_is_of_a_note(charts: Seq<ChartView>)
    requires
        sound_notes(charts),
    ensures
        (exists|c: int, i: int|
            0 <= c < charts.len() && 0 <= i < charts[c].notes.len() && over_near(
                #[trigger] charts[c].notes[i],
                last_tick_of(charts),
            )) || (last_tick_of(charts) == 4096 && forall|c: int, i: int|
            0 <= c < charts.len() && 0 <= i < charts[c].notes.len() ==> !timed(
                #[trigger] charts[c].notes[i],
            )),
{
    if charts_tick(charts, charts.len()) is Some {
        lemma_charts_tick_met(charts, charts.len());
        let (c, i) = choose|c: int, i: int|
            0 <= c < charts.len() && 0 <= i < charts[c].notes.len() && note_tick(
                #[trigger] charts[c].notes[i],
            ) == charts_tick(charts, charts.len());
        lemma_note_tick(charts[c].notes[i]);
        assert(over_near(charts[c].notes[i], last_tick_of(charts)));
    } else {
        assert forall|c: int, i: int|
            0 <= c < charts.len() && 0 <= i < charts[c].notes.len() implies !timed(
            #[trigger] charts[c].notes[i],
        ) by {
            if timed(charts[c].notes[i]) {
                lemma_note_tick(charts[c].notes[i]);
                lemma_charts_tick_above(charts, charts.len(), c, i);
            }
        }
    }
}

/// END lies on a measure boundary, two whole measures behind the first one at or after
/// the last tick.
pub proof fn law_end_is_two_measures_on(charts: Seq<ChartView>)
    requires
        last_tick_of(charts) >= 0,
    ensures
        end_tick_of(charts) % 4096 == 0,
        last_tick_of(charts) + 8192 <= end_tick_of(charts) < last_tick_of(charts) + 8192 + 4096,
{
}

/// The tempo entries reach to END, or END to them, whichever is later; and the six
/// events are those of a whole song: time signature, ready, the start of the music and
/// of the notes one measure in, FINISH a measure before END, and END.
pub proof fn law_closing_events_are_the_canonical_six(charts: Seq<ChartView>, pairs: Seq<(i32, i32)>)
    requires
        end_tick_of(charts) <= i32::MAX,
    ensures
        ({
            let end = closing_tick(charts, pairs);
            let events = canonical_events(end);
            &&& end_tick_of(charts) <= end
            &&& pairs.len() > 0 ==> pairs.last().0 <= end
            &&& end == end_tick_of(charts) || end == (if pairs.len() > 0 {
                pairs.last().0 as int
            } else {
                0
            })
            &&& events.len() == 6
            &&& forall|k: int|
                0 <= k < 6 ==> (#[trigger] events[k]).tick == seq![
                    0int,
                    0,
                    4096,
                    4096,
                    end - 4096,
                    end,
                ][k] && (events[k].code, events[k].arg) == seq![
                    (1u8, 4u8),
                    (2, 1),
                    (2, 2),
                    (2, 5),
                    (2, 3),
                    (2, 4),
                ][k]
        }),
{
    super::timeline::lemma_end_tick(charts);
}

/// An entry that is added goes on from the last at the rate of the last two entries
/// that differ in their ticks, `k` and the one before: its time is the nearest.
pub proof fn law_extension_keeps_the_rate(pairs: Seq<(i32, i32)>, end_tick: i32, k: int)
    requires
        1 <= k < pairs.len(),
        pairs[k - 1].0 < pairs[k].0,
        forall|j: int| k < j < pairs.len() ==> (#[trigger] pairs[j]).0 <= pairs[j - 1].0,
        pairs[k - 1].1 <= pairs[k].1,
        pairs.last().0 <= end_tick,
    ensures
        ({
            let out = extended(pairs, end_tick);
            let dt = pairs[k].0 - pairs[k - 1].0;
            let ds = pairs[k].1 - pairs[k - 1].1;
            let run = out.last().1 - pairs.last().1;
            let exact = ds * (end_tick - pairs.last().0);
            &&& out.len() == pairs.len() + 1
            &&& out.drop_last() == pairs
            &&& out.last().0 == end_tick
            &&& out.last().1 < i32::MAX ==> -dt <= 2 * (run * dt - exact) <= dt
        }),
{
    lemma_rate_found(pairs, pairs.len() as int, k);
    let dt = pairs[k].0 - pairs[k - 1].0;
    let ds = pairs[k].1 - pairs[k - 1].1;
    let exact = ds * (end_tick - pairs.last().0);
    assert(exact >= 0) by (nonlinear_arith)
        requires
            exact == ds * (end_tick - pairs.last().0),
            ds >= 0,
            end_tick - pairs.last().0 >= 0,
    ;
    let q = (exact + dt / 2) / dt;
    vstd::arithmetic::div_mod::lemma_fundamental_div_mod(exact + dt / 2, dt);
    assert(dt * q == q * dt) by (nonlinear_arith);
    assert(q >= 0) by (nonlinear_arith)
        requires
            dt * q + (exact + dt / 2) % dt == exact + dt / 2,
            0 <= (exact + dt / 2) % dt < dt,
            exact + dt / 2 >= 0,
            dt > 0,
    ;
    let out = extended(pairs, end_tick);
    assert(out.drop_last() =~= pairs);
}

proof fn lemma_rate_found(pairs: Seq<(i32, i32)>, n: int, k: int)
    requires
        1 <= k < n <= pairs.len(),
        pairs[k - 1].0 < pairs[k].0,
        forall|j: int| k < j < pairs.len() ==> (#[trigger] pairs[j]).0 <= pairs[j - 1].0,
    ensures
        super::timeline::rate_segment(pairs, n) == Some(k),
    decreases n,
{
    if n - 1 > k {
        assert(pairs[n - 1].0 <= pairs[n - 2].0);
        lemma_rate_found(pairs, n - 1, k);
    }
}

/// A converted song finishes behind every note of it: in the stepfile that is written,
/// FINISH comes after the end of each note, END a measure later, and the last tempo
/// entry no earlier than END.
pub proof fn law_converted_song_finishes_after_its_notes(song: SongView, c: int, i: int)
    requires
        sm5_to_ddr_chart_outcome(song) is Ok,
        chunks_fit(song.charts),
        0 <= c < song.charts.len(),
        0 <= i < song.charts[c].notes.len(),
        timed(song.charts[c].notes[i]),
        ({
            let pairs = synthesized(
                song.tempo_segments,
                song.stops,
                song.audio_sync_offset_seconds@,
                Some(tick_beat(end_tick_of(song.charts))),
            )->Ok_0;
            0 < pairs.len() < 0xFFFF
        }),
    ensures
        ssq_outcome(sm5_to_ddr_chart_outcome(song)->Ok_0) matches Ok(r) ==> {
            let (n, d) = over_at(song.charts[c].notes[i]);
            &&& r.events.len() == 6
            &&& r.events[4].code == 2 && r.events[4].arg == 3
            &&& 1024 * n < r.events[4].tick * d
            &&& r.events[5].code == 2 && r.events[5].arg == 4
            &&& r.events[5].tick == r.events[4].tick + 4096
            &&& r.raw_tempo_pairs.last().0 == r.events[5].tick
        },
{
    let charts = song.charts;
    let pairs = synthesized(
        song.tempo_segments,
        song.stops,
        song.audio_sync_offset_seconds@,
        Some(tick_beat(end_tick_of(charts))),
    )->Ok_0;
    let end = closing_tick(charts, pairs);
    let events = canonical_events(end);
    law_closing_events(charts, pairs);
    law_closing_events_are_the_canonical_six(charts, pairs);
    law_written_files_keep_tempo_and_events(song, events, closing_pairs(charts, pairs));
    law_notes_are_over_by_the_last_tick(charts, c, i);
    lemma_note_tick(charts[c].notes[i]);
    let (n, d) = over_at(charts[c].notes[i]);
    let last = last_tick_of(charts);
    assert(1024 * n < (end - 4096) * d) by (nonlinear_arith)
        requires
            2048 * n <= (2 * last + 1) * d,
            last + 1 <= end - 4096,
            d > 0,
    ;
    assert(events[4].tick == end - 4096 && events[5].tick == end);
}

/// A legacy song that is modernized finishes behind every note of it too.
pub proof fn law_modernized_song_finishes_after_its_notes(
    song: SongView,
    pairs: Seq<(i32, i32)>,
    c: int,
    i: int,
)
    requires
        legacy_to_ddr_chart_outcome(song, pairs) is Ok,
        chunks_fit(song.charts),
        0 <= c < song.charts.len(),
        0 <= i < song.charts[c].notes.len(),
        timed(song.charts[c].notes[i]),
        0 < pairs.len() < 0xFFFF,
    ensures
        ssq_outcome(legacy_to_ddr_chart_outcome(song, pairs)->Ok_0) matches Ok(r) ==> {
            let (n, d) = over_at(song.charts[c].notes[i]);
            &&& r.events.len() == 6
            &&& r.events[4].code == 2 && r.events[4].arg == 3
            &&& 1024 * n < r.events[4].tick * d
            &&& r.events[5].code == 2 && r.events[5].arg == 4
            &&& r.events[5].tick == r.events[4].tick + 4096
            &&& r.raw_tempo_pairs.last().0 == r.events[5].tick
        },
{
    let charts = song.charts;
    let end = closing_tick(charts, pairs);
    let events = canonical_events(end);
    law_closing_events(charts, pairs);
    law_closing_events_are_the_canonical_six(charts, pairs);
    law_written_files_keep_tempo_and_events(song, events, closing_pairs(charts, pairs));
    law_notes_are_over_by_the_last_tick(charts, c, i);
    lemma_note_tick(charts[c].notes[i]);
    let (n, d) = over_at(charts[c].notes[i]);
    let last = last_tick_of(charts);
    assert(1024 * n < (end - 4096) * d) by (nonlinear_arith)
        requires
            2048 * n <= (2 * last + 1) * d,
            last + 1 <= end - 4096,
            d > 0,
    ;
    assert(events[4].tick == end - 4096 && events[5].tick == end);
}

} // verus!
