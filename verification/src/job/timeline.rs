//! Where a converted chart ends: its closing events and the tempo entries that
//! bracket them.

use crate::model::{charts_view, Chart, ChartView, Note, Song};
use crate::ssq::events::SsqEvent;
use crate::ssq::mines::{in_i32, nearest_tick, wide_tick};
use crate::ssq::writer::{end_of_note, note_end};
use vstd::prelude::*;

verus! {

/// The measure tick where a note is over, if it has one.
pub open spec fn note_tick(note: Note) -> Option<int> {
    match note_end(note) {
        Some(beat) => if in_i32(nearest_tick(beat)) {
            Some(nearest_tick(beat))
        } else {
            None
        },
        None => None,
    }
}

/// The larger of two ticks.
pub open spec fn later_tick(a: Option<int>, b: Option<int>) -> Option<int> {
    match (a, b) {
        (Some(x), Some(y)) => if x < y {
            b
        } else {
            a
        },
        (None, _) => b,
        (_, None) => a,
    }
}

/// The tick where the last of the first `n` notes is over.
pub open spec fn notes_tick(notes: Seq<Note>, n: nat) -> Option<int>
    decreases n,
{
    if n == 0 {
        None
    } else {
        later_tick(notes_tick(notes, (n - 1) as nat), note_tick(notes[n - 1]))
    }
}

/// The tick where the last note of the first `n` charts is over.
pub open spec fn charts_tick(charts: Seq<ChartView>, n: nat) -> Option<int>
    decreases n,
{
    if n == 0 {
        None
    } else {
        later_tick(
            charts_tick(charts, (n - 1) as nat),
            notes_tick(charts[n - 1].notes, charts[n - 1].notes.len()),
        )
    }
}

/// The tick of a song's last note. Songs with no notes at all are treated as
/// ending one measure in.
pub open spec fn last_tick_of(charts: Seq<ChartView>) -> int {
    match charts_tick(charts, charts.len()) {
        Some(t) => t,
        None => 4096,
    }
}

/// `n / d`, rounded toward zero.
pub open spec fn toward_zero(n: int, d: int) -> int {
    if n >= 0 {
        n / d
    } else {
        -((-n) / d)
    }
}

/// Where END belongs: two measures past the measure boundary at or behind the
/// last note.
pub open spec fn end_tick_of(charts: Seq<ChartView>) -> int {
    toward_zero(last_tick_of(charts) + 4095, 4096) * 4096 + 8192
}

/// The last of the first `n` entries at which the measure tick moves forward.
pub open spec fn rate_segment(pairs: Seq<(i32, i32)>, n: int) -> Option<int>
    decreases n,
{
    if n <= 1 {
        None
    } else if pairs[n - 1].0 > pairs[n - 2].0 {
        Some(n - 1)
    } else {
        rate_segment(pairs, n - 1)
    }
}

pub open spec fn clamped_i32(n: int) -> i32 {
    if n < i32::MIN {
        i32::MIN
    } else if n > i32::MAX {
        i32::MAX
    } else {
        n as i32
    }
}

/// The seconds tick at `end_tick`: that of the last entry, moved on at the rate
/// of the last segment with one.
pub open spec fn extrapolated(pairs: Seq<(i32, i32)>, end_tick: i32) -> i32 {
    match rate_segment(pairs, pairs.len() as int) {
        None => pairs.last().1,
        Some(i) => {
            let dt = pairs[i].0 - pairs[i - 1].0;
            let ds = pairs[i].1 - pairs[i - 1].1;
            let extra = ds * (end_tick - pairs.last().0);
            clamped_i32(pairs.last().1 + toward_zero(extra + dt / 2, dt))
        },
    }
}

/// Tempo entries that reach `end_tick`.
pub open spec fn extended(pairs: Seq<(i32, i32)>, end_tick: i32) -> Seq<(i32, i32)> {
    if pairs.len() == 0 {
        pairs
    } else {
        pairs.push((end_tick, extrapolated(pairs, end_tick)))
    }
}

/// The tick of END: where the tempo entries end, if that is late enough.
pub open spec fn closing_tick(charts: Seq<ChartView>, pairs: Seq<(i32, i32)>) -> int {
    let source = if pairs.len() == 0 {
        0int
    } else {
        pairs.last().0 as int
    };
    if end_tick_of(charts) < source {
        source
    } else {
        end_tick_of(charts)
    }
}

/// The canonical six events for a chart that ends at `end`.
pub open spec fn canonical_events(end: int) -> Seq<SsqEvent> {
    seq![
        SsqEvent { tick: 0, code: 1, arg: 4 },
        SsqEvent { tick: 0, code: 2, arg: 1 },
        SsqEvent { tick: 4096, code: 2, arg: 2 },
        SsqEvent { tick: 4096, code: 2, arg: 5 },
        SsqEvent { tick: (end - 4096) as i32, code: 2, arg: 3 },
        SsqEvent { tick: end as i32, code: 2, arg: 4 },
    ]
}

/// The tempo entries that go with the closing events.
pub open spec fn closing_pairs(charts: Seq<ChartView>, pairs: Seq<(i32, i32)>) -> Seq<(i32, i32)> {
    let end = closing_tick(charts, pairs);
    if pairs.len() == 0 || pairs.last().0 >= end {
        pairs
    } else {
        extended(pairs, end as i32)
    }
}

proof fn lemma_notes_tick_range(notes: Seq<Note>, n: nat)
    ensures
        notes_tick(notes, n) is Some ==> in_i32(notes_tick(notes, n)->0),
    decreases n,
{
    if n > 0 {
        lemma_notes_tick_range(notes, (n - 1) as nat);
    }
}

proof fn lemma_charts_tick_range(charts: Seq<ChartView>, n: nat)
    ensures
        charts_tick(charts, n) is Some ==> in_i32(charts_tick(charts, n)->0),
    decreases n,
{
    if n > 0 {
        lemma_charts_tick_range(charts, (n - 1) as nat);
        lemma_notes_tick_range(charts[n - 1].notes, charts[n - 1].notes.len());
    }
}

/// The tick of END lies behind the last note, by at most three measures.
pub proof fn lemma_end_tick(charts: Seq<ChartView>)
    ensures
        in_i32(last_tick_of(charts)),
        last_tick_of(charts) + 8192 <= end_tick_of(charts) <= last_tick_of(charts) + 16384,
        end_tick_of(charts) >= i32::MIN + 8192,
{
    lemma_charts_tick_range(charts, charts.len());
}

fn later_of(a: Option<i32>, b: i32) -> (r: Option<i32>)
    ensures
        r is Some,
        r->0 == (match a {
            Some(x) => if x < b {
                b
            } else {
                x
            },
            None => b,
        }),
{
    match a {
        Some(x) => if x < b {
            Some(b)
        } else {
            Some(x)
        },
        None => Some(b),
    }
}

pub open spec fn tick_view(t: Option<i32>) -> Option<int> {
    match t {
        Some(n) => Some(n as int),
        None => None,
    }
}

fn tick_of_note(note: &Note) -> (r: Option<i32>)
    ensures
        tick_view(r) == note_tick(*note),
{
    match end_of_note(note) {
        Some(beat) => {
            let t: i128 = wide_tick(beat);
            if -0x8000_0000 <= t && t <= 0x7fff_ffff {
                Some(t as i32)
            } else {
                None
            }
        },
        None => None,
    }
}

fn last_tick(charts: &Vec<Chart>) -> (t: i32)
    ensures
        t == last_tick_of(charts_view(charts@)),
{
    let mut last: Option<i32> = None;
    let mut c: usize = 0;
    while c < charts.len()
        invariant
            c <= charts@.len(),
            tick_view(last) == charts_tick(charts_view(charts@), c as nat),
        decreases charts@.len() - c,
    {
        let notes = &charts[c].notes;
        let mut here: Option<i32> = None;
        let mut i: usize = 0;
        while i < notes.len()
            invariant
                i <= notes@.len(),
                tick_view(here) == notes_tick(notes@, i as nat),
            decreases notes@.len() - i,
        {
            match tick_of_note(&notes[i]) {
                Some(t) => {
                    here = later_of(here, t);
                },
                None => {},
            }
            i = i + 1;
        }
        match here {
            Some(t) => {
                last = later_of(last, t);
            },
            None => {},
        }
        c = c + 1;
    }
    match last {
        Some(t) => t,
        None => 4096,
    }
}

/// Whether END has a tick.
pub fn end_tick_fits(song: &Song) -> (b: bool)
    ensures
        b == (end_tick_of(song@.charts) <= i32::MAX),
{
    let t: i64 = last_tick(&song.charts) as i64 + 4095;
    if t < 0 {
        assert(end_tick_of(song@.charts) <= 8192);
        true
    } else {
        (t / 4096) * 4096 + 8192 <= 0x7fff_ffff
    }
}

/// Measure-tick where END belongs: two whole measures past the measure
/// containing the last note (a hold counts to its tail). Songs with no
/// notes at all are treated as ending one measure in.
pub fn chart_end_tick(song: &Song) -> (t: i32)
    requires
        end_tick_of(song@.charts) <= i32::MAX,
    ensures
        t == end_tick_of(song@.charts),
{
    proof {
        lemma_end_tick(song@.charts);
    }
    let t: i64 = last_tick(&song.charts) as i64 + 4095;
    let whole: i64 = if t < 0 {
        -((-t) / 4096)
    } else {
        t / 4096
    };
    (whole * 4096 + 8192) as i32
}

fn copy_pairs(pairs: &[(i32, i32)]) -> (out: Vec<(i32, i32)>)
    ensures
        out@ == pairs@,
{
    let mut out: Vec<(i32, i32)> = Vec::new();
    let mut i: usize = 0;
    while i < pairs.len()
        invariant
            i <= pairs@.len(),
            out@ =~= pairs@.subrange(0, i as int),
        decreases pairs@.len() - i,
    {
        out.push(pairs[i]);
        i = i + 1;
    }
    assert(pairs@.subrange(0, i as int) =~= pairs@);
    out
}

/// Divide, rounding toward zero.
fn div_toward_zero(n: i128, d: i128) -> (q: i128)
    requires
        d > 0,
        n > i128::MIN,
    ensures
        q == toward_zero(n as int, d as int),
{
    if n >= 0 {
        n / d
    } else {
        proof {
            assert((-n) / d as int >= 0 && (-n) / d as int <= -n) by (nonlinear_arith)
                requires
                    n < 0,
                    d >= 1,
            ;
        }
        -((-n) / d)
    }
}

/// Append a synthesized trailing tempo pair at `end_tick`, extrapolating
/// seconds-ticks linearly from the last non-stop tempo segment.
///
/// "Non-stop" means a pair-pair interval where consecutive pairs have
/// distinct measure-ticks (`dt > 0`). Stops are encoded as a pair-pair
/// with `dt == 0` and a non-zero seconds-tick delta — they represent a
/// pause in the audio timeline rather than a rate, so they can't be
/// used to extrapolate continuing tempo. When the input's final pair
/// is the closing pair of a stop, we walk backward to the last segment
/// with `dt > 0` and use its rate.
///
/// Extrapolation is always applied on top of the *last pair's*
/// seconds-ticks (not the referenced segment's s0), so any stop delays
/// that preceded the last pair are correctly preserved.
pub fn extend_tempo_pairs_to(pairs: &[(i32, i32)], end_tick: i32) -> (out: Vec<(i32, i32)>)
    ensures
        out@ == extended(pairs@, end_tick),
{
    let mut out = copy_pairs(pairs);
    let n: usize = pairs.len();
    if n == 0 {
        return out;
    }
    let last = pairs[n - 1];
    // Walk backward to find the last pair-pair interval with dt > 0.
    // This skips over stop pair-pairs (dt == 0) at the tail.
    let mut i: usize = n;
    while i > 1 && pairs[i - 1].0 <= pairs[i - 2].0
        invariant
            i <= n == pairs@.len(),
            rate_segment(pairs@, n as int) == rate_segment(pairs@, i as int),
        decreases i,
    {
        i = i - 1;
    }
    if i <= 1 {
        // No rate to extrapolate from — keep the seconds-tick constant
        // (degenerate, but non-crashing).
        out.push((end_tick, last.1));
        return out;
    }
    let (t0, s0) = pairs[i - 2];
    let (t1, s1) = pairs[i - 1];
    let dt: i128 = t1 as i128 - t0 as i128;
    let ds: i128 = s1 as i128 - s0 as i128;
    let extra_ticks: i128 = end_tick as i128 - last.0 as i128;
    proof {
        assert(-0x1_0000_0000 * 0x1_0000_0000 <= ds * extra_ticks <= 0x1_0000_0000 * 0x1_0000_0000)
            by (nonlinear_arith)
            requires
                -0x1_0000_0000 <= ds <= 0x1_0000_0000,
                -0x1_0000_0000 <= extra_ticks <= 0x1_0000_0000,
        ;
    }
    let n: i128 = ds * extra_ticks + dt / 2;
    let extra_seconds: i128 = div_toward_zero(n, dt);
    proof {
        let size = if n >= 0 { n as int } else { -n as int };
        assert(0 <= size / dt as int <= size) by (nonlinear_arith)
            requires
                size >= 0,
                dt >= 1,
        ;
    }
    let s: i128 = last.1 as i128 + extra_seconds;
    let new_s: i32 = if s < -0x8000_0000 {
        i32::MIN
    } else if s > 0x7fff_ffff {
        i32::MAX
    } else {
        s as i32
    };
    out.push((end_tick, new_s));
    out
}

/// Synthesize the canonical 6-event sequence and return it
/// alongside a tempo-pair list guaranteed to bracket FINISH.
///
/// The game (1) assigns a `musicCount` to each non-TIMING note by
/// linearly interpolating between the surrounding TIMING notes and
/// (2) uses `musicCount` to drive a per-frame beatCount lookup via
/// `lower_bound` over the notes list. If FINISH sits past the last
/// TIMING note in walk-order, it never gets a `musicCount` assigned,
/// and the game locks at READY.
///
/// To guarantee FINISH is bracketed by TIMING notes: the last tempo
/// pair must sit at or past END's tick. If the source's trailing tempo
/// pair is already at or past [`chart_end_tick`], its tick is adopted as
/// END; otherwise a new trailing pair is extrapolated there using the last
/// segment's slope.
pub fn synthesize_events(song: &Song, raw_tempo_pairs: &[(i32, i32)]) -> (r: (
    Vec<SsqEvent>,
    Vec<(i32, i32)>,
))
    requires
        end_tick_of(song@.charts) <= i32::MAX,
    ensures
        r.0@ == canonical_events(closing_tick(song@.charts, raw_tempo_pairs@)),
        r.1@ == closing_pairs(song@.charts, raw_tempo_pairs@),
{
    proof {
        lemma_end_tick(song@.charts);
    }
    let desired_end: i32 = chart_end_tick(song);
    let n: usize = raw_tempo_pairs.len();
    let source_last_tick: i32 = if n == 0 {
        0
    } else {
        raw_tempo_pairs[n - 1].0
    };
    let end_tick: i32 = if desired_end < source_last_tick {
        source_last_tick
    } else {
        desired_end
    };
    let finish_tick: i32 = end_tick - 4096;
    let tempo_pairs = if n == 0 || source_last_tick >= end_tick {
        copy_pairs(raw_tempo_pairs)
    } else {
        extend_tempo_pairs_to(raw_tempo_pairs, end_tick)
    };
    let events = vec![
        SsqEvent { tick: 0, code: 1, arg: 4 },
        SsqEvent { tick: 0, code: 2, arg: 1 },
        SsqEvent { tick: 4096, code: 2, arg: 2 },
        SsqEvent { tick: 4096, code: 2, arg: 5 },
        SsqEvent { tick: finish_tick, code: 2, arg: 3 },
        SsqEvent { tick: end_tick, code: 2, arg: 4 },
    ];
    assert(events@ =~= canonical_events(end_tick as int));
    (events, tempo_pairs)
}

/// END coincides with the last tempo entry, and FINISH, one measure before it,
/// comes after the last note.
pub proof fn law_closing_events(charts: Seq<ChartView>, pairs: Seq<(i32, i32)>)
    requires
        pairs.len() > 0,
        end_tick_of(charts) <= i32::MAX,
    ensures
        ({
            let end = closing_tick(charts, pairs);
            let out = closing_pairs(charts, pairs);
            &&& canonical_events(end)[5].tick == end
            &&& out.last().0 == end
            &&& canonical_events(end)[4].tick == end - 4096
            &&& last_tick_of(charts) < end - 4096
            &&& pairs =~= out.subrange(0, pairs.len() as int)
        }),
{
    lemma_end_tick(charts);
}

/// FINISH is bracketed by tempo entries: where the entries start no later than
/// FINISH, one lies at or before it and one behind it.
pub proof fn law_finish_is_bracketed(charts: Seq<ChartView>, pairs: Seq<(i32, i32)>)
    requires
        pairs.len() > 0,
        end_tick_of(charts) <= i32::MAX,
        pairs[0].0 <= closing_tick(charts, pairs) - 4096,
    ensures
        ({
            let finish = closing_tick(charts, pairs) - 4096;
            let out = closing_pairs(charts, pairs);
            &&& out[0].0 <= finish
            &&& finish < out.last().0
        }),
{
    law_closing_events(charts, pairs);
}

} // verus!
