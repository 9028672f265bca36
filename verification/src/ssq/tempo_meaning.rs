//! What tempo entries mean: two entries at different ticks are a tempo, two at the same
//! tick are a stop, and the music keeps pace with the beats.

use super::chunk::ChunkHeader;
use super::tempo::{first_stall, segments_of, slope_bpm, stops_of, tempo_outcome, tempo_pairs};
use super::writer::{
    advanced, anchored, earliest_segment, elapsed_subticks, event_beat, moved, passed,
    seconds_subticks, synthesis_start, synthesized, timeline_of, took, took_all, Synthesis,
    TimelineEvent,
};
use crate::model::rational::{
    is_lowest, law_arithmetic_is_exact, law_rounding_is_nearest, lemma_lowest, q_fits, q_lt,
    sub_value,
};
use crate::model::{group_model_values, Beat, Bpm, Stop, TempoSegment};
use vstd::prelude::*;

verus! {

/// Whether four bytes are a signed number, low byte first.
pub open spec fn is_dword(b: Seq<u8>, at: int, v: int) -> bool {
    let word = b[at] + 0x100 * b[at + 1] + 0x1_0000 * b[at + 2] + 0x100_0000 * b[at + 3];
    &&& i32::MIN <= v <= i32::MAX
    &&& v == word || v == word - 0x1_0000_0000
}

/// A tempo chunk holds the ticks of all its entries, and then their times.
pub proof fn law_tempo_chunk_is_two_columns(body: Seq<u8>, n: nat, i: int)
    requires
        body.len() == 8 * n,
        0 <= i < n,
    ensures
        tempo_pairs(body, n).len() == n,
        is_dword(body, 4 * i, tempo_pairs(body, n)[i].0 as int),
        is_dword(body, 4 * n + 4 * i, tempo_pairs(body, n)[i].1 as int),
{
}

/// Whether a fraction is `n / d`.
pub open spec fn is_fraction(q: (int, int), n: int, d: int) -> bool {
    q.1 > 0 && q.0 * d == n * q.1
}

proof fn lemma_fraction(n: int, d: int)
    requires
        d != 0,
        -0x4000_0000_0000_0000 <= n <= 0x4000_0000_0000_0000,
        -0x4000_0000_0000_0000 <= d <= 0x4000_0000_0000_0000,
    ensures
        is_fraction(crate::model::rational::lowest(n, d), n, d),
        q_fits(crate::model::rational::lowest(n, d)),
{
    lemma_lowest(n, d);
}

/// Two entries that follow each other at different ticks are a tempo from the first on:
/// so many beats in so much time. Two at the same tick are a stop that lasts from one
/// time to the other. A beat is 1024 ticks, and a second `tps` of the time's.
pub proof fn law_entries_are_tempos_and_stops(tps: int, pairs: Seq<(i32, i32)>, k: int)
    requires
        0 < tps <= 0xFFFF,
        1 <= k < pairs.len(),
        pairs[k].0 != pairs[k - 1].0 ==> pairs[k].1 != pairs[k - 1].1,
    ensures
        ({
            let (a, b) = (pairs[k - 1], pairs[k]);
            let tempos = segments_of(tps, pairs, k as nat);
            let stops = stops_of(tps, pairs, k as nat);
            let more_tempos = segments_of(tps, pairs, (k + 1) as nat);
            let more_stops = stops_of(tps, pairs, (k + 1) as nat);
            if a.0 != b.0 {
                &&& more_stops == stops
                &&& more_tempos.len() == tempos.len() + 1
                &&& more_tempos.drop_last() == tempos
                &&& is_fraction(more_tempos.last().start_beat@, a.0 as int, 1024)
                &&& is_fraction(
                    more_tempos.last().bpm@,
                    60 * tps * (b.0 - a.0),
                    1024 * (b.1 - a.1),
                )
            } else {
                &&& more_tempos == tempos
                &&& more_stops.len() == stops.len() + 1
                &&& more_stops.drop_last() == stops
                &&& is_fraction(more_stops.last().at_beat@, b.0 as int, 1024)
                &&& is_fraction(more_stops.last().duration_seconds@, b.1 - a.1, tps)
            }
        }),
        segments_of(tps, pairs, 1).len() == 0,
        stops_of(tps, pairs, 1).len() == 0,
{
    broadcast use group_model_values;

    let (a, b) = (pairs[k - 1], pairs[k]);
    let dt = b.0 - a.0;
    let ds = b.1 - a.1;
    assert(-0xFFFF * 0x1_0000_0000 <= tps * dt <= 0xFFFF * 0x1_0000_0000) by (nonlinear_arith)
        requires
            0 < tps <= 0xFFFF,
            -0x1_0000_0000 <= dt <= 0x1_0000_0000,
    ;
    assert(240 * tps * dt == 240 * (tps * dt)) by (nonlinear_arith);
    assert(60 * tps * dt == 60 * (tps * dt)) by (nonlinear_arith);
    lemma_fraction(a.0 as int, 1024);
    lemma_fraction(b.0 as int, 1024);
    lemma_fraction(ds, tps);
    assert(segments_of(tps, pairs, (k + 1) as nat).drop_last() =~= segments_of(
        tps,
        pairs,
        k as nat,
    ) || a.0 == b.0);
    assert(stops_of(tps, pairs, (k + 1) as nat).drop_last() =~= stops_of(tps, pairs, k as nat)
        || a.0 != b.0);
    if a.0 != b.0 {
        lemma_fraction(240 * tps * dt, 4096 * ds);
        let q = slope_bpm(tps, a, b)@;
        assert(q.0 * (1024 * ds) == (60 * tps * dt) * q.1) by (nonlinear_arith)
            requires
                q.0 * (4096 * ds) == (240 * tps * dt) * q.1,
        ;
    }
}

proof fn lemma_tempos_and_stops_counted(tps: int, pairs: Seq<(i32, i32)>, n: nat)
    requires
        1 <= n <= pairs.len(),
    ensures
        segments_of(tps, pairs, n).len() + stops_of(tps, pairs, n).len() == n - 1,
    decreases n,
{
    if n > 1 {
        lemma_tempos_and_stops_counted(tps, pairs, (n - 1) as nat);
    }
}

/// What a tempo chunk that is read gives: its rate, its entries as they are, the tempos
/// and stops of all of them, and the time of the first entry as the offset of the sync.
pub proof fn law_tempo_chunk_is_read(header: ChunkHeader, body: Seq<u8>, offset: usize)
    requires
        header.param2 > 0,
        header.param3 > 0,
        body.len() == 8 * header.param3,
        header.param2 == 1000 ==> tempo_pairs(body, header.param3 as nat)[0].0 == 0,
        forall|k: int|
            1 <= k < header.param3 ==> {
                let (a, b) = (
                    tempo_pairs(body, header.param3 as nat)[k - 1],
                    #[trigger] tempo_pairs(body, header.param3 as nat)[k],
                );
                a.0 != b.0 ==> a.1 != b.1
            },
    ensures
        tempo_outcome(header, body, offset) matches Ok(t) && {
            let pairs = tempo_pairs(body, header.param3 as nat);
            &&& t.tps == header.param2
            &&& t.raw_pairs == pairs
            &&& t.tempo_segments == segments_of(header.param2 as int, pairs, pairs.len())
            &&& t.stops == stops_of(header.param2 as int, pairs, pairs.len())
            &&& t.tempo_segments.len() + t.stops.len() == pairs.len() - 1
            &&& is_fraction(
                t.audio_sync_offset_seconds@,
                pairs[0].1 as int,
                header.param2 as int,
            )
        },
{
    broadcast use group_model_values;

    let n = header.param3 as nat;
    let pairs = tempo_pairs(body, n);
    lemma_no_stall(pairs, 1);
    lemma_tempos_and_stops_counted(header.param2 as int, pairs, n);
    lemma_fraction(pairs[0].1 as int, header.param2 as int);
}

proof fn lemma_no_stall(pairs: Seq<(i32, i32)>, i: int)
    requires
        1 <= i,
        forall|k: int|
            1 <= k < pairs.len() ==> {
                let (a, b) = (pairs[k - 1], #[trigger] pairs[k]);
                a.0 != b.0 ==> a.1 != b.1
            },
    ensures
        first_stall(pairs, i) is None,
    decreases pairs.len() - i,
{
    if i < pairs.len() {
        lemma_no_stall(pairs, i + 1);
    }
}

/// A tempo chunk in which ticks pass and time does not is refused, and so is one without
/// a rate or entries, of another size, or of the modern rate and not from tick 0 on.
pub proof fn law_bad_tempo_chunks_are_refused(header: ChunkHeader, body: Seq<u8>, offset: usize, k: int)
    requires
        header.param2 == 0 || header.param3 == 0 || body.len() != 8 * header.param3 || (
        header.param2 == 1000 && tempo_pairs(body, header.param3 as nat)[0].0 != 0) || (1 <= k
            < header.param3 && tempo_pairs(body, header.param3 as nat)[k].0 != tempo_pairs(
            body,
            header.param3 as nat,
        )[k - 1].0 && tempo_pairs(body, header.param3 as nat)[k].1 == tempo_pairs(
            body,
            header.param3 as nat,
        )[k - 1].1),
    ensures
        tempo_outcome(header, body, offset) is Err,
{
    let pairs = tempo_pairs(body, header.param3 as nat);
    if 1 <= k < pairs.len() && pairs[k].0 != pairs[k - 1].0 && pairs[k].1 == pairs[k - 1].1 {
        lemma_stall_found(pairs, 1, k);
    }
}

proof fn lemma_stall_found(pairs: Seq<(i32, i32)>, i: int, k: int)
    requires
        1 <= i <= k < pairs.len(),
        pairs[k].0 != pairs[k - 1].0,
        pairs[k].1 == pairs[k - 1].1,
    ensures
        first_stall(pairs, i) is Some,
    decreases k - i,
{
    if i < k {
        lemma_stall_found(pairs, i + 1, k);
    }
}

/// Whether a whole number is the nearest to `n / d`, the one away from 0 of two.
pub open spec fn is_near(t: int, n: int, d: int) -> bool {
    &&& d > 0
    &&& -d <= 2 * (t * d - n) <= d
    &&& n >= 0 ==> 2 * (n - t * d) < d
    &&& n < 0 ==> 2 * (t * d - n) < d
}

/// The nearest whole number to a fraction does not depend on how it is written.
pub proof fn lemma_near_same(t: int, a: (int, int), n: int, d: int)
    requires
        a.1 > 0,
        d > 0,
        a.0 * d == n * a.1,
        is_near(t, a.0, a.1),
    ensures
        is_near(t, n, d),
{
    let x = 2 * (t * a.1 - a.0);
    let y = 2 * (t * d - n);
    assert(x * d == y * a.1) by (nonlinear_arith)
        requires
            x == 2 * (t * a.1 - a.0),
            y == 2 * (t * d - n),
            a.0 * d == n * a.1,
    ;
    assert(-d <= y <= d) by (nonlinear_arith)
        requires
            x * d == y * a.1,
            -a.1 <= x <= a.1,
            a.1 > 0,
            d > 0,
    ;
    assert(a.0 >= 0 <==> n >= 0) by (nonlinear_arith)
        requires
            a.0 * d == n * a.1,
            a.1 > 0,
            d > 0,
    ;
    if n >= 0 {
        assert(-d < y) by (nonlinear_arith)
            requires
                x * d == y * a.1,
                -a.1 < x,
                a.1 > 0,
                d > 0,
        ;
    } else {
        assert(y < d) by (nonlinear_arith)
            requires
                x * d == y * a.1,
                x < a.1,
                a.1 > 0,
                d > 0,
        ;
    }
}

/// The time that beats take at a tempo, in millionths of a millisecond: sixty seconds
/// for as many beats as the tempo says.
pub proof fn law_beats_take_time(from: Beat, to: Beat, bpm: Bpm)
    requires
        is_lowest(from@),
        is_lowest(to@),
        is_lowest(bpm@),
        from@.0 > i64::MIN,
    ensures
        elapsed_subticks(from, to, bpm) matches Ok(t) ==> is_near(
            t,
            (to@.0 * from@.1 - from@.0 * to@.1) * bpm@.1 * 60_000_000_000,
            to@.1 * from@.1 * bpm@.0,
        ),
        bpm@.0 <= 0 ==> elapsed_subticks(from, to, bpm) is Err,
{
    if elapsed_subticks(from, to, bpm) is Ok {
        let delta = sub_value(to@, from@)->0;
        crate::model::rational::law_sub_undoes_add(to@, from@);
        law_arithmetic_is_exact(to@, (-from@.0, from@.1));
        let n = to@.0 * from@.1 - from@.0 * to@.1;
        let d = to@.1 * from@.1;
        assert((-from@.0) * to@.1 == -(from@.0 * to@.1)) by (nonlinear_arith);
        assert(delta.0 * d == n * delta.1);
        assert(d > 0) by (nonlinear_arith)
            requires
                d == to@.1 * from@.1,
                to@.1 > 0,
                from@.1 > 0,
        ;
        let (p, q) = bpm@;
        let num = delta.0 * q * 60_000_000_000;
        let den = delta.1 * p;
        assert(den > 0) by (nonlinear_arith)
            requires
                den == delta.1 * p,
                delta.1 > 0,
                p > 0,
        ;
        assert(d * p > 0) by (nonlinear_arith)
            requires
                d > 0,
                p > 0,
        ;
        law_rounding_is_nearest(num, den);
        let t = elapsed_subticks(from, to, bpm)->Ok_0;
        assert(num * (d * p) == (n * q * 60_000_000_000) * den) by (nonlinear_arith)
            requires
                num == delta.0 * q * 60_000_000_000,
                den == delta.1 * p,
                delta.0 * d == n * delta.1,
        ;
        lemma_near_same(t, (num, den), n * q * 60_000_000_000, d * p);
    }
}

/// Seconds, in millionths of a millisecond.
pub proof fn law_seconds_are_counted(seconds: (int, int))
    requires
        seconds.1 > 0,
    ensures
        is_near(seconds_subticks(seconds), seconds.0 * 1_000_000_000, seconds.1),
{
    law_rounding_is_nearest(seconds.0 * 1_000_000_000, seconds.1);
}

/// An entry is written at the tick that is nearest to a beat, with the time so far in
/// milliseconds. One that would only repeat the last is not.
pub proof fn law_entries_mark_beat_and_time(st: Synthesis, beat: Beat)
    requires
        beat@.1 > 0,
    ensures
        anchored(st, beat) matches Ok(next) ==> {
            let entry = next.entries.last();
            &&& next.entries.len() > 0
            &&& is_near(entry.0 as int, 1024 * beat@.0, beat@.1)
            &&& is_near(entry.1 as int, st.acc, 1_000_000)
            &&& next.entries == st.entries || next.entries == st.entries.push(entry)
            &&& next.entries == st.entries ==> st.entries.last() == entry
            &&& st.entries.len() > 0 && st.entries.last() == entry ==> next.entries == st.entries
            &&& (next.acc, next.prev, next.bpm) == (st.acc, st.prev, st.bpm)
        },
{
    law_rounding_is_nearest(beat@.0 * 1024, beat@.1);
    law_rounding_is_nearest(st.acc, 1_000_000);
    if anchored(st, beat) is Ok {
        let next = anchored(st, beat)->Ok_0;
        assert(beat@.0 * 1024 == 1024 * beat@.0);
        if next.entries.len() > st.entries.len() {
            assert(next.entries =~= st.entries.push(next.entries.last()));
        }
    }
}

/// The time that passes up to an event is that of the beats in between at the tempo so
/// far. A tempo holds from its event on. A stop adds its length, between an entry at its
/// start and one at its end, both at its beat.
pub proof fn law_events_pass_time(st: Synthesis, e: TimelineEvent)
    requires
        took(st, e) is Ok,
        event_beat(e)@.1 > 0,
    ensures
        ({
            let next = took(st, e)->Ok_0;
            let beat = event_beat(e);
            let later = q_lt(st.prev@, beat@);
            let run = elapsed_subticks(st.prev, beat, st.bpm);
            &&& later ==> run is Ok
            &&& next.prev == if later {
                beat
            } else {
                st.prev
            }
            &&& next.acc == st.acc + (if later {
                run->Ok_0
            } else {
                0
            }) + match e {
                TimelineEvent::Segment(_) => 0,
                TimelineEvent::Stop(s) => seconds_subticks(s.duration_seconds@),
            }
            &&& match e {
                TimelineEvent::Segment(s) => next.bpm == s.bpm && (q_lt((0, 1), s.start_beat@)
                    ==> next.entries.len() > 0 && is_near(
                    next.entries.last().1 as int,
                    next.acc,
                    1_000_000,
                ) && is_near(next.entries.last().0 as int, 1024 * beat@.0, beat@.1)),
                TimelineEvent::Stop(s) => next.bpm == st.bpm && next.entries.len() > 0 && is_near(
                    next.entries.last().1 as int,
                    next.acc,
                    1_000_000,
                ) && is_near(next.entries.last().0 as int, 1024 * beat@.0, beat@.1),
            }
        }),
{
    let at = advanced(st, event_beat(e))->Ok_0;
    match e {
        TimelineEvent::Segment(s) => {
            law_entries_mark_beat_and_time(at, s.start_beat);
        },
        TimelineEvent::Stop(s) => {
            law_entries_mark_beat_and_time(at, s.at_beat);
            let open = anchored(at, s.at_beat)->Ok_0;
            let over = passed(open, seconds_subticks(s.duration_seconds@))->Ok_0;
            law_entries_mark_beat_and_time(over, s.at_beat);
        },
    }
}

/// A stop leaves an entry behind at its start, with the time at which it begins.
pub proof fn law_stops_begin_with_an_entry(st: Synthesis, s: Stop)
    requires
        took(st, TimelineEvent::Stop(s)) is Ok,
        s.at_beat@.1 > 0,
        seconds_subticks(s.duration_seconds@) >= 2_000_000,
    ensures
        ({
            let next = took(st, TimelineEvent::Stop(s))->Ok_0;
            let n = next.entries.len() as int;
            &&& n >= 2
            &&& is_near(next.entries[n - 2].0 as int, 1024 * s.at_beat@.0, s.at_beat@.1)
            &&& next.entries[n - 2].0 == next.entries[n - 1].0
            &&& is_near(
                next.entries[n - 2].1 as int,
                next.acc - seconds_subticks(s.duration_seconds@),
                1_000_000,
            )
        }),
{
    let at = advanced(st, s.at_beat)->Ok_0;
    law_entries_mark_beat_and_time(at, s.at_beat);
    let open = anchored(at, s.at_beat)->Ok_0;
    let over = passed(open, seconds_subticks(s.duration_seconds@))->Ok_0;
    law_entries_mark_beat_and_time(over, s.at_beat);
    let next = anchored(over, s.at_beat)->Ok_0;
    assert(next.entries.len() == open.entries.len() + 1);
    assert(next.entries[next.entries.len() - 2] == open.entries.last());
}

/// The music starts with the tempo of the earliest segment.
pub proof fn law_first_tempo_is_the_earliest(segments: Seq<TempoSegment>, n: nat, i: int)
    requires
        0 <= i < n <= segments.len(),
        forall|k: int|
            0 <= k < segments.len() ==> is_lowest((#[trigger] segments[k]).start_beat@),
    ensures
        ({
            let first = earliest_segment(segments, n);
            &&& 0 <= first < n
            &&& !q_lt(segments[i].start_beat@, segments[first].start_beat@)
        }),
    decreases n,
{
    if n > 1 {
        let m = earliest_segment(segments, (n - 1) as nat);
        if i < n - 1 {
            law_first_tempo_is_the_earliest(segments, (n - 1) as nat, i);
        } else {
            law_first_tempo_is_the_earliest(segments, (n - 1) as nat, 0);
        }
        crate::model::rational::law_order_is_total(
            segments[i].start_beat@,
            segments[m].start_beat@,
            segments[n - 1].start_beat@,
        );
        crate::model::rational::law_order_is_total(
            segments[n - 1].start_beat@,
            segments[m].start_beat@,
            segments[i].start_beat@,
        );
    }
}

/// A song of one tempo and no stops has two entries: one at its start, with the offset of
/// the sync, and one at its end, after as much time as the beats take.
pub proof fn law_steady_song_has_two_entries(bpm: Bpm, sync: (int, int), end: Beat)
    requires
        is_lowest(bpm@),
        is_lowest(end@),
        q_fits(end@),
        sync.1 > 0,
        end@.0 > 0,
        1024 * end@.0 > end@.1,
    ensures
        ({
            let segment = TempoSegment { start_beat: Beat::of((0, 1)), bpm };
            synthesized(seq![segment], Seq::empty(), sync, Some(end)) matches Ok(pairs) ==> {
                &&& pairs.len() == 2
                &&& pairs[0].0 == 0
                &&& is_near(pairs[1].0 as int, 1024 * end@.0, end@.1)
                &&& exists|start: int, run: int| #[trigger]
                    is_near(start, sync.0 * 1_000_000_000, sync.1) && #[trigger] is_near(
                        run,
                        end@.0 * bpm@.1 * 60_000_000_000,
                        end@.1 * bpm@.0,
                    ) && is_near(pairs[0].1 as int, start, 1_000_000) && is_near(
                        pairs[1].1 as int,
                        start + run,
                        1_000_000,
                    )
            }
        }),
{
    broadcast use group_model_values;

    let zero = Beat::of((0, 1));
    assert(q_fits((0int, 1int)));
    assert(zero@ == (0int, 1int));
    let segment = TempoSegment { start_beat: zero, bpm };
    let segments = seq![segment];
    if synthesized(segments, Seq::empty(), sync, Some(end)) is Ok {
        let pairs = synthesized(segments, Seq::empty(), sync, Some(end))->Ok_0;
        let events = Seq::new(segments.len(), |i: int| TimelineEvent::Segment(segments[i]))
            + Seq::new(Seq::<Stop>::empty().len(), |i: int| TimelineEvent::Stop(
            Seq::<Stop>::empty()[i],
        ));
        assert(events =~= seq![TimelineEvent::Segment(segment)]);
        let timeline = timeline_of(segments, Seq::empty());
        assert(timeline =~= seq![TimelineEvent::Segment(segment)]) by {
            crate::util::sort::law_sort_fixes_sorted(events);
        }
        let start = synthesis_start(sync, bpm);
        reveal_with_fuel(took_all, 3);
        let st = start->Ok_0;
        assert(start is Ok);
        assert(earliest_segment(segments, 1) == 0);
        let after = took(st, TimelineEvent::Segment(segment))->Ok_0;
        assert(after == st);
        assert(q_lt(st.prev@, end@));
        let at = moved(st, end)->Ok_0;
        assert(is_lowest((0int, 1int))) by {
            reveal_with_fuel(crate::model::rational::gcd_of, 3);
        }
        law_beats_take_time(zero, end, bpm);
        let run = elapsed_subticks(zero, end, bpm)->Ok_0;
        assert(end@.0 * 1 - 0 * end@.1 == end@.0);
        assert(end@.1 * 1 == end@.1);
        law_seconds_are_counted(sync);
        law_rounding_is_nearest(st.acc, 1_000_000);
        law_entries_mark_beat_and_time(at, end);
        let last = anchored(at, end)->Ok_0;
        let tick = last.entries.last().0 as int;
        assert(tick > 0) by (nonlinear_arith)
            requires
                -end@.1 <= 2 * (tick * end@.1 - 1024 * end@.0) <= end@.1,
                1024 * end@.0 > end@.1,
                end@.1 > 0,
        ;
        assert(last.entries == st.entries.push(last.entries.last()));
        assert(is_near(st.acc, sync.0 * 1_000_000_000, sync.1));
        assert(is_near(run, end@.0 * bpm@.1 * 60_000_000_000, end@.1 * bpm@.0));
        assert(at.acc == st.acc + run);
    }
}

/// A song of one tempo and no stops lasts a measure where nothing tells its end.
pub proof fn law_endless_song_lasts_a_measure(bpm: Bpm, sync: (int, int))
    ensures
        ({
            let segments = seq![TempoSegment { start_beat: Beat::of((0, 1)), bpm }];
            synthesized(segments, Seq::empty(), sync, None) == synthesized(
                segments,
                Seq::empty(),
                sync,
                Some(Beat::of((4, 1))),
            )
        }),
{
    broadcast use group_model_values;

    let zero = Beat::of((0, 1));
    assert(q_fits((0int, 1int)) && q_fits((4int, 1int)));
    let segment = TempoSegment { start_beat: zero, bpm };
    let segments = seq![segment];
    let events = Seq::new(segments.len(), |i: int| TimelineEvent::Segment(segments[i])) + Seq::new(
        Seq::<Stop>::empty().len(),
        |i: int| TimelineEvent::Stop(Seq::<Stop>::empty()[i]),
    );
    assert(events =~= seq![TimelineEvent::Segment(segment)]);
    let timeline = timeline_of(segments, Seq::empty());
    assert(timeline =~= seq![TimelineEvent::Segment(segment)]) by {
        crate::util::sort::law_sort_fixes_sorted(events);
    }
    reveal_with_fuel(took_all, 3);
    assert(earliest_segment(segments, 1) == 0);
}

} // verus!
