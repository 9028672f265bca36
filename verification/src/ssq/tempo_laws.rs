//! What holds of the tempo entries that are made from segments and stops.

use super::mines::nearest_tick;
use super::writer::{
    advanced, anchored, elapsed_subticks, event_beat, moved, passed, seconds_subticks,
    synthesis_start, synthesized, timeline_of, took, took_all, trailing_beat, Synthesis,
    TimelineEvent,
};
use super::SsqErrorView;
use crate::model::rational::{lemma_lowest, lowest, q_le, q_lt, round_half_away};
use crate::model::{group_model_values, Beat, Bpm, Stop, TempoSegment};
use crate::util::sort::{
    in_order, law_sort_keeps_values, law_sort_orders, lemma_sorted_from, stable_sorted, Ranked,
};
use vstd::prelude::*;

verus! {

/// Whether tempo entries never go back, in the chart or in time, and none
/// repeats the one before it.
pub open spec fn runs_forward(pairs: Seq<(i32, i32)>) -> bool {
    forall|i: int|
        0 < i < pairs.len() ==> pairs[i - 1].0 <= (#[trigger] pairs[i]).0 && pairs[i - 1].1
            <= pairs[i].1 && pairs[i - 1] != pairs[i]
}

/// Whether a timeline is a valid one: its fractions are fractions, and a stop
/// lies in the chart and takes time.
pub open spec fn sound_timeline(segments: Seq<TempoSegment>, stops: Seq<Stop>) -> bool {
    &&& forall|i: int|
        0 <= i < segments.len() ==> (#[trigger] segments[i]).start_beat@.1 > 0
            && segments[i].bpm@.1 > 0
    &&& forall|i: int|
        0 <= i < stops.len() ==> (#[trigger] stops[i]).at_beat@.1 > 0 && stops[i].at_beat@.0 >= 0
            && stops[i].duration_seconds@.1 > 0 && stops[i].duration_seconds@.0 >= 0
}

/// Whether an event is a valid one.
spec fn sound_event(e: TimelineEvent) -> bool {
    match e {
        TimelineEvent::Segment(s) => s.start_beat@.1 > 0 && s.bpm@.1 > 0,
        TimelineEvent::Stop(s) => s.at_beat@.1 > 0 && s.at_beat@.0 >= 0
            && s.duration_seconds@.1 > 0 && s.duration_seconds@.0 >= 0,
    }
}

/// Rounding keeps the order.
proof fn lemma_round_order(a: int, b: int, d: int)
    requires
        a <= b,
        d > 0,
    ensures
        round_half_away(a, d) <= round_half_away(b, d),
        a >= 0 ==> round_half_away(a, d) >= 0,
{
    broadcast use vstd::arithmetic::div_mod::lemma_div_pos_is_pos;

    if a >= 0 {
        vstd::arithmetic::div_mod::lemma_div_is_ordered(2 * a + d, 2 * b + d, 2 * d);
    } else if b >= 0 {
        vstd::arithmetic::div_mod::lemma_div_pos_is_pos(2 * -a + d, 2 * d);
        vstd::arithmetic::div_mod::lemma_div_pos_is_pos(2 * b + d, 2 * d);
    } else {
        vstd::arithmetic::div_mod::lemma_div_is_ordered(2 * -b + d, 2 * -a + d, 2 * d);
    }
}

/// Rounding sees the value, not the terms.
proof fn lemma_round_scaled(n: int, d: int, m: int)
    requires
        d > 0,
        m > 0,
    ensures
        round_half_away(n * m, d * m) == round_half_away(n, d),
{
    let a = if n >= 0 { n } else { -n };
    vstd::arithmetic::div_mod::lemma_div_multiples_vanish_quotient(m, 2 * a + d, 2 * d);
    assert(m * (2 * a + d) == 2 * (a * m) + d * m) by (nonlinear_arith);
    assert(m * (2 * d) == 2 * (d * m)) by (nonlinear_arith);
    assert(n * m >= 0 <==> n >= 0) by (nonlinear_arith)
        requires
            m > 0,
    ;
    assert((-n) * m == -(n * m)) by (nonlinear_arith);
}

/// Later positions have later ticks.
proof fn lemma_tick_order(a: Beat, b: Beat)
    requires
        a@.1 > 0,
        b@.1 > 0,
        q_le(a@, b@),
    ensures
        nearest_tick(a) <= nearest_tick(b),
{
    let (an, ad) = a@;
    let (bn, bd) = b@;
    lemma_round_scaled(an * 1024, ad, bd);
    lemma_round_scaled(bn * 1024, bd, ad);
    assert(ad * bd == bd * ad && ad * bd > 0) by (nonlinear_arith)
        requires
            ad > 0,
            bd > 0,
    ;
    assert(an * 1024 * bd <= bn * 1024 * ad) by (nonlinear_arith)
        requires
            an * bd <= bn * ad,
    ;
    lemma_round_order(an * 1024 * bd, bn * 1024 * ad, ad * bd);
}

/// Whether the entries so far run forward from `first` to a point that is not
/// behind the last of them.
spec fn running(st: Synthesis, first: (i32, i32)) -> bool {
    &&& st.entries.len() > 0
    &&& st.entries[0] == first
    &&& first.0 == 0
    &&& runs_forward(st.entries)
    &&& st.prev@.1 > 0
    &&& st.prev@.0 >= 0
    &&& st.entries.last().0 <= nearest_tick(st.prev)
    &&& st.entries.last().1 <= round_half_away(st.acc, 1_000_000)
}

/// Whether the last entry stands where synthesis has got to.
spec fn settled(st: Synthesis) -> bool {
    st.entries.last().0 == nearest_tick(st.prev)
}

proof fn lemma_anchored(st: Synthesis, first: (i32, i32), beat: Beat)
    requires
        running(st, first),
        nearest_tick(beat) == nearest_tick(st.prev),
    ensures
        anchored(st, beat) matches Ok(next) ==> running(next, first) && settled(next) && next.prev
            == st.prev && next.bpm == st.bpm && next.acc == st.acc,
{
}

proof fn lemma_passed(st: Synthesis, first: (i32, i32), subticks: int)
    requires
        running(st, first),
        subticks >= 0,
    ensures
        passed(st, subticks) matches Ok(next) ==> running(next, first) && (settled(st) ==> settled(
            next,
        )) && next.prev == st.prev,
{
    lemma_round_order(st.acc, st.acc + subticks, 1_000_000);
}

proof fn lemma_moved(st: Synthesis, first: (i32, i32), to: Beat)
    requires
        running(st, first),
        st.bpm@.1 > 0,
        to@.1 > 0,
        q_lt(st.prev@, to@),
    ensures
        moved(st, to) matches Ok(next) ==> running(next, first) && next.prev == to && next.bpm
            == st.bpm,
{
    let (pn, pd) = st.prev@;
    let (tn, td) = to@;
    assert(tn >= 0) by (nonlinear_arith)
        requires
            pn * td < tn * pd,
            pn >= 0,
            pd > 0,
            td > 0,
    ;
    assert(td * pd > 0) by (nonlinear_arith)
        requires
            pd > 0,
            td > 0,
    ;
    let n = tn * pd + (-pn) * td;
    assert((-pn) * td == -(pn * td)) by (nonlinear_arith);
    lemma_lowest(n, td * pd);
    let delta = lowest(n, td * pd);
    match elapsed_subticks(st.prev, to, st.bpm) {
        Ok(d) => {
            let b = st.bpm@;
            assert(delta.0 >= 0) by (nonlinear_arith)
                requires
                    n >= 0,
                    td * pd > 0,
                    delta.1 > 0,
                    delta.0 * (td * pd) == n * delta.1,
            ;
            assert(delta.0 * b.1 * 60_000_000_000 >= 0) by (nonlinear_arith)
                requires
                    delta.0 >= 0,
                    b.1 > 0,
            ;
            assert(delta.1 * b.0 > 0) by (nonlinear_arith)
                requires
                    delta.1 > 0,
                    b.0 > 0,
            ;
            lemma_round_order(0, delta.0 * b.1 * 60_000_000_000, delta.1 * b.0);
            lemma_round_order(
                delta.0 * b.1 * 60_000_000_000,
                delta.0 * b.1 * 60_000_000_000,
                delta.1 * b.0,
            );
            lemma_passed(st, first, d);
            lemma_tick_order(st.prev, to);
        },
        Err(_) => {},
    }
}

proof fn lemma_took(st: Synthesis, first: (i32, i32), e: TimelineEvent)
    requires
        running(st, first),
        settled(st),
        st.bpm@.1 > 0,
        sound_event(e),
        event_beat(e)@.0 >= 0 ==> q_le(st.prev@, event_beat(e)@),
    ensures
        took(st, e) matches Ok(next) ==> running(next, first) && settled(next) && next.bpm@.1 > 0
            && (next.prev == st.prev || next.prev == event_beat(e)),
{
    let beat = event_beat(e);
    let (pn, pd) = st.prev@;
    let (bn, bd) = beat@;
    if q_lt(st.prev@, beat@) {
        lemma_moved(st, first, beat);
    } else if bn >= 0 {
        lemma_tick_order(st.prev, beat);
        lemma_tick_order(beat, st.prev);
    }
    match advanced(st, beat) {
        Ok(at) => {
            if bn >= 0 {
                lemma_anchored(at, first, beat);
            }
            match e {
                TimelineEvent::Stop(stop) => {
                    let d = stop.duration_seconds@;
                    lemma_round_order(d.0 * 1_000_000_000, d.0 * 1_000_000_000, d.1);
                    if let Ok(open) = anchored(at, beat) {
                        lemma_passed(open, first, seconds_subticks(d));
                        if let Ok(over) = passed(open, seconds_subticks(d)) {
                            lemma_anchored(over, first, beat);
                        }
                    }
                },
                TimelineEvent::Segment(seg) => {
                    if bn <= 0 {
                        assert(!q_lt(st.prev@, beat@)) by (nonlinear_arith)
                            requires
                                bn <= 0,
                                pn >= 0,
                                pd > 0,
                                bd > 0,
                                st.prev@ == (pn, pd),
                                beat@ == (bn, bd),
                        ;
                    }
                },
            }
        },
        Err(_) => {},
    }
}

/// The events of a timeline are in order, and valid.
proof fn lemma_timeline(segments: Seq<TempoSegment>, stops: Seq<Stop>)
    requires
        sound_timeline(segments, stops),
    ensures
        in_order(timeline_of(segments, stops)),
        forall|i: int|
            0 <= i < timeline_of(segments, stops).len() ==> sound_event(
                #[trigger] timeline_of(segments, stops)[i],
            ),
{
    let s = Seq::new(segments.len(), |i: int| TimelineEvent::Segment(segments[i])) + Seq::new(
        stops.len(),
        |i: int| TimelineEvent::Stop(stops[i]),
    );
    assert forall|i: int| 0 <= i < s.len() implies sound_event(#[trigger] s[i]) by {
        if i < segments.len() {
            assert(s[i] == TimelineEvent::Segment(segments[i]));
        } else {
            assert(s[i] == TimelineEvent::Stop(stops[i - segments.len()]));
        }
    }
    assert forall|i: int, j: int|
        0 <= i < s.len() && 0 <= j < s.len() && (#[trigger] s[i]).precedes(
            #[trigger] s[j],
        ) implies !s[j].precedes(s[i]) by {}
    assert forall|i: int, j: int, k: int|
        0 <= i < s.len() && 0 <= j < s.len() && 0 <= k < s.len() && !(#[trigger] s[i]).precedes(
            #[trigger] s[j],
        ) && !s[j].precedes(#[trigger] s[k]) implies !s[i].precedes(s[k]) by {
        let (an, ad) = event_beat(s[i])@;
        let (bn, bd) = event_beat(s[j])@;
        let (cn, cd) = event_beat(s[k])@;
        assert(sound_event(s[i]) && sound_event(s[j]) && sound_event(s[k]));
        assert(an * cd >= cn * ad) by (nonlinear_arith)
            requires
                an * bd >= bn * ad,
                bn * cd >= cn * bd,
                ad > 0,
                bd > 0,
                cd > 0,
        ;
    }
    law_sort_orders(s);
    law_sort_keeps_values(s);
    let t = stable_sorted(s);
    assert forall|i: int| 0 <= i < t.len() implies sound_event(#[trigger] t[i]) by {
        lemma_sorted_from(s, i);
        let k = choose|k: int| 0 <= k < s.len() && #[trigger] s[k] == t[i];
        assert(sound_event(s[k]));
    }
}

/// Whether synthesis stands at the start or at one of the first `n` events.
spec fn stands(st: Synthesis, t: Seq<TimelineEvent>, n: int) -> bool {
    st.prev@ == (0int, 1int) || exists|k: int|
        0 <= k < n && st.prev == event_beat(#[trigger] t[k])
}

proof fn lemma_took_all(
    start: Synthesis,
    first: (i32, i32),
    t: Seq<TimelineEvent>,
    n: nat,
)
    requires
        n <= t.len(),
        in_order(t),
        forall|i: int| 0 <= i < t.len() ==> sound_event(#[trigger] t[i]),
        running(start, first),
        settled(start),
        start.bpm@.1 > 0,
        start.prev@ == (0int, 1int),
    ensures
        took_all(Ok(start), t, n) matches Ok(st) ==> running(st, first) && settled(st) && st.bpm@.1
            > 0 && stands(st, t, n as int),
    decreases n,
{
    if n > 0 {
        lemma_took_all(start, first, t, (n - 1) as nat);
        if let Ok(st) = took_all(Ok(start), t, (n - 1) as nat) {
            let e = t[n - 1];
            if event_beat(e)@.0 >= 0 {
                if st.prev@ == (0int, 1int) {
                } else {
                    let k = choose|k: int|
                        0 <= k < n - 1 && st.prev == event_beat(#[trigger] t[k]);
                    assert(!t[n - 1].precedes(t[k]));
                }
            }
            lemma_took(st, first, e);
        }
    }
}

proof fn lemma_failed_start(
    start: Result<Synthesis, SsqErrorView>,
    t: Seq<TimelineEvent>,
    n: nat,
)
    ensures
        start is Err ==> took_all(start, t, n) is Err,
    decreases n,
{
    if n > 0 {
        lemma_failed_start(start, t, (n - 1) as nat);
    }
}

/// The earliest segment is one of them.
proof fn lemma_earliest(segments: Seq<TempoSegment>, n: nat)
    requires
        0 < n <= segments.len(),
    ensures
        0 <= super::writer::earliest_segment(segments, n) < n,
    decreases n,
{
    if n > 1 {
        lemma_earliest(segments, (n - 1) as nat);
    }
}

/// Synthesized tempo entries start at tick 0 with the sync offset in
/// milliseconds, never go back, in the chart or in time, and none repeats the
/// one before it.
pub proof fn law_synthesized_tempo_runs_forward(
    segments: Seq<TempoSegment>,
    stops: Seq<Stop>,
    sync: (int, int),
    end_beat: Option<Beat>,
)
    requires
        sound_timeline(segments, stops),
        end_beat matches Some(b) ==> b@.1 > 0,
    ensures
        synthesized(segments, stops, sync, end_beat) matches Ok(pairs) ==> {
            &&& pairs.len() > 0
            &&& pairs[0].0 == 0
            &&& pairs[0].1 == round_half_away(seconds_subticks(sync), 1_000_000)
            &&& runs_forward(pairs)
        },
{
    broadcast use group_model_values;

    if segments.len() > 0 {
        lemma_earliest(segments, segments.len());
        let m = super::writer::earliest_segment(segments, segments.len());
        let bpm: Bpm = segments[m].bpm;
        let t = timeline_of(segments, stops);
        lemma_timeline(segments, stops);
        lemma_failed_start(synthesis_start(sync, bpm), t, t.len());
        if let Ok(start) = synthesis_start(sync, bpm) {
            let first = start.entries[0];
            assert(start.prev@ == (0int, 1int));
            lemma_took_all(start, first, t, t.len());
            if let Ok(st) = took_all(Ok(start), t, t.len()) {
                if let Some(end) = trailing_beat(st, end_beat) {
                    if !q_lt(st.prev@, end@) {
                        assert(end == Beat::of((4, 1)));
                        assert(st.entries.last().0 == 0);
                        lemma_tick_order(end, st.prev);
                        assert(nearest_tick(end) == 4096);
                    }
                    lemma_moved(st, first, end);
                    if let Ok(at) = moved(st, end) {
                        lemma_anchored(at, first, end);
                    }
                }
            }
        }
    }
}

} // verus!
