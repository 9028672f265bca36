//! Transform an [`SsqParseResult`] from a pre-DDR-World source into the
//! shape the modern SSQ writer accepts.
//!
//! Invoked by the job layer when `--from-format DDR_LEGACY` is set,
//! regardless of the source file's internal TPS. For a DDR World source
//! (`--from-format DDR`), modernization is NOT run even if the tempo
//! chunk used TPS=150.
//!
//! Transform steps (applied to `raw_tempo_pairs` in place so the SSQ
//! writer emits them verbatim — no semantic-view synthesis):
//!
//! 1. Shift every tempo/event/step measure-tick by `-time_offset[0]` so
//!    the first tempo entry sits at tick 0. Legacy Ultramix charts
//!    commonly encode a non-zero `time_offset[0]` representing an
//!    origin-shift between the chart's measure timeline and the
//!    audio-sync timeline. The audio file itself doesn't move; the
//!    shift is a pure relabeling of the chart-measure axis.
//! 2. Rescale every `tempo_data` seconds-tick value by `1000 / source_tps`
//!    so the writer can emit them at TPS=1000.
//! 3. Set `song.tps = 1000`.
//!
//! `audio_sync_offset_seconds` on the Song is recomputed from the
//! shifted+rescaled `tempo_data[0]` so SSC output has the correct
//! `#OFFSET` without double-counting.
//!
//! Auxiliary chunks are NOT cleared here because they were already
//! dropped at parse time; `aux_chunks_dropped` remains as a diagnostic
//! record for the caller to log.

use crate::model::rational::{add_value, lowest, round_half_away};
use crate::model::{
    charts_view, group_model_values, Beat, Chart, ChartView, Note, Rational, Stop, TempoSegment,
    TickScale,
};
use crate::ssq::events::SsqEvent;
use crate::ssq::mines::in_i32;
use crate::ssq::{SsqParseResult, SsqView};
use vstd::prelude::*;

verus! {

broadcast use group_model_values;

const MODERN_TPS: u32 = 1000;

/// A seconds-tick value at the modern rate.
pub open spec fn rescaled(time: int, tps: int) -> int {
    let scale = lowest(1000, tps);
    round_half_away(time * scale.0, scale.1)
}

/// Whether a pair can be shifted and rescaled.
pub open spec fn pair_fits(pair: (i32, i32), shift: int, tps: int) -> bool {
    in_i32(pair.0 + shift) && in_i32(rescaled(pair.1 as int, tps))
}

pub open spec fn moved_pair(pair: (i32, i32), shift: int, tps: int) -> (i32, i32) {
    ((pair.0 + shift) as i32, rescaled(pair.1 as int, tps) as i32)
}

/// The first pair from `i` on that does not fit.
pub open spec fn first_misfit(
    pairs: Seq<(i32, i32)>,
    shift: int,
    tps: int,
    i: int,
) -> Option<int>
    decreases pairs.len() - i,
{
    if i >= pairs.len() {
        None
    } else if pair_fits(pairs[i], shift, tps) {
        first_misfit(pairs, shift, tps, i + 1)
    } else {
        Some(i)
    }
}

/// The pairs with the first `n` moved.
pub open spec fn pairs_moved(
    pairs: Seq<(i32, i32)>,
    shift: int,
    tps: int,
    n: int,
) -> Seq<(i32, i32)> {
    Seq::new(
        pairs.len(),
        |i: int|
            if i < n {
                moved_pair(pairs[i], shift, tps)
            } else {
                pairs[i]
            },
    )
}

/// The pairs where the one at `i` does not fit: those before it are moved,
/// and its tick is, if that fits.
pub open spec fn pairs_abandoned(
    pairs: Seq<(i32, i32)>,
    shift: int,
    tps: int,
    i: int,
) -> Seq<(i32, i32)> {
    let before = pairs_moved(pairs, shift, tps, i);
    if in_i32(pairs[i].0 + shift) {
        before.update(i, ((pairs[i].0 + shift) as i32, pairs[i].1))
    } else {
        before
    }
}

/// `n`, or the nearest `i32` to it.
pub open spec fn saturated(n: int) -> i32 {
    if n < i32::MIN {
        i32::MIN
    } else if n > i32::MAX {
        i32::MAX
    } else {
        n as i32
    }
}

/// A position shifted by `shift` beats, where that fits.
pub open spec fn moved_beat(beat: Beat, shift: (int, int)) -> Beat {
    match add_value(beat@, shift) {
        Some(q) => Beat::of(q),
        None => beat,
    }
}

pub open spec fn moved_notes(notes: Seq<Note>, shift: (int, int)) -> Seq<Note> {
    Seq::new(notes.len(), |i: int| Note { beat: moved_beat(notes[i].beat, shift), ..notes[i] })
}

pub open spec fn moved_segments(segments: Seq<TempoSegment>, shift: (int, int)) -> Seq<
    TempoSegment,
> {
    Seq::new(
        segments.len(),
        |i: int|
            TempoSegment { start_beat: moved_beat(segments[i].start_beat, shift), ..segments[i] },
    )
}

pub open spec fn moved_stops(stops: Seq<Stop>, shift: (int, int)) -> Seq<Stop> {
    Seq::new(stops.len(), |i: int| Stop { at_beat: moved_beat(stops[i].at_beat, shift), ..stops[i] })
}

pub open spec fn moved_events(events: Seq<SsqEvent>, shift: int) -> Seq<SsqEvent> {
    Seq::new(
        events.len(),
        |i: int| SsqEvent { tick: saturated(events[i].tick + shift), ..events[i] },
    )
}

pub open spec fn moved_charts(charts: Seq<ChartView>, shift: (int, int)) -> Seq<ChartView> {
    Seq::new(
        charts.len(),
        |i: int| ChartView { notes: moved_notes(charts[i].notes, shift), ..charts[i] },
    )
}

/// A parsed SSQ in modern shape. Where a tempo pair cannot be moved, the
/// transform stops there.
pub open spec fn modernized(v: SsqView) -> SsqView {
    if v.tps == 0 || v.raw_tempo_pairs.len() == 0 {
        SsqView { tps: 1000, ..v }
    } else {
        let pairs = v.raw_tempo_pairs;
        let tps = v.tps as int;
        let shift = -pairs[0].0;
        let beats = lowest(shift, 1024);
        match first_misfit(pairs, shift, tps, 0) {
            Some(i) => SsqView { raw_tempo_pairs: pairs_abandoned(pairs, shift, tps, i), ..v },
            None => SsqView {
                tps: 1000,
                tempo_segments: moved_segments(v.tempo_segments, beats),
                stops: moved_stops(v.stops, beats),
                charts: moved_charts(v.charts, beats),
                audio_sync_offset_seconds: Rational::of(
                    lowest(rescaled(pairs[0].1 as int, tps), 1000),
                ),
                events: moved_events(v.events, shift),
                raw_tempo_pairs: pairs_moved(pairs, shift, tps, pairs.len() as int),
                aux_chunks_dropped: v.aux_chunks_dropped,
            },
        }
    }
}

/// `n`, or the nearest `i32` to it.
fn nearest_i32(n: i64) -> (s: i32)
    ensures
        s == saturated(n as int),
{
    if n < i32::MIN as i64 {
        i32::MIN
    } else if n > i32::MAX as i64 {
        i32::MAX
    } else {
        n as i32
    }
}

/// `a + b`, or the nearest `i32` to it.
pub fn saturating_sum(a: i32, b: i32) -> (s: i32)
    ensures
        s == saturated(a + b),
{
    nearest_i32(a as i64 + b as i64)
}

fn shift_beat(beat: Beat, shift: &Rational) -> (b: Beat)
    ensures
        b == moved_beat(beat, shift@),
{
    match beat.as_rational().add(shift) {
        Ok(q) => Beat::from_rational(q),
        Err(_) => beat,
    }
}

fn shift_notes(notes: &Vec<Note>, shift: &Rational) -> (out: Vec<Note>)
    ensures
        out@ == moved_notes(notes@, shift@),
{
    let mut out: Vec<Note> = Vec::new();
    let mut i: usize = 0;
    while i < notes.len()
        invariant
            i <= notes@.len(),
            out@ =~= moved_notes(notes@, shift@).subrange(0, i as int),
        decreases notes@.len() - i,
    {
        let note: Note = notes[i];
        out.push(
            Note { beat: shift_beat(note.beat, shift), kind: note.kind, panels: note.panels },
        );
        i = i + 1;
    }
    out
}

/// Shift and rescale the tempo pairs, up to the first that does not fit.
/// Returns whether all of them did.
fn move_pairs(pairs: &mut Vec<(i32, i32)>, shift: i64, scale: &TickScale, tps: u32) -> (done: bool)
    requires
        tps > 0,
        scale@ == lowest(1000, tps as int),
        -0x8000_0000 <= shift <= 0x8000_0000,
    ensures
        match first_misfit(old(pairs)@, shift as int, tps as int, 0) {
            None => done && final(pairs)@ == pairs_moved(
                old(pairs)@,
                shift as int,
                tps as int,
                old(pairs)@.len() as int,
            ),
            Some(i) => !done && final(pairs)@ == pairs_abandoned(
                old(pairs)@,
                shift as int,
                tps as int,
                i,
            ),
        },
{
    let ghost before = pairs@;
    let mut i: usize = 0;
    assert(pairs@ =~= pairs_moved(before, shift as int, tps as int, 0));
    while i < pairs.len()
        invariant
            i <= pairs@.len(),
            before == old(pairs)@,
            pairs@.len() == before.len(),
            scale@ == lowest(1000, tps as int),
            -0x8000_0000 <= shift <= 0x8000_0000,
            pairs@ == pairs_moved(before, shift as int, tps as int, i as int),
            first_misfit(before, shift as int, tps as int, 0) == first_misfit(
                before,
                shift as int,
                tps as int,
                i as int,
            ),
        decreases pairs@.len() - i,
    {
        let (tick, time) = pairs[i];
        assert((tick, time) == before[i as int]);
        let moved: i64 = tick as i64 + shift;
        if moved < i32::MIN as i64 || moved > i32::MAX as i64 {
            return false;
        }
        pairs.set(i, (moved as i32, time));
        let ghost half = pairs@;
        let new_time: i32 = match scale.scale_rounded(time as i64) {
            Some(v) => if v < i32::MIN as i64 || v > i32::MAX as i64 {
                return false;
            } else {
                v as i32
            },
            None => {
                return false;
            },
        };
        pairs.set(i, (moved as i32, new_time));
        i = i + 1;
        assert(pairs@ =~= pairs_moved(before, shift as int, tps as int, i as int));
    }
    true
}

/// Modernize a parsed legacy SSQ in place.
pub fn modernize(result: &mut SsqParseResult)
    ensures
        final(result)@ == modernized(old(result)@),
        final(result).song.title == old(result).song.title,
        final(result).song.artist == old(result).song.artist,
        final(result).song.audio == old(result).song.audio,
        final(result).song.preview == old(result).song.preview,
{
    let src_tps: u32 = result.song.tps;
    if src_tps == 0 || result.raw_tempo_pairs.len() == 0 {
        result.song.tps = MODERN_TPS;
        return;
    }
    let scale = match TickScale::new(src_tps, MODERN_TPS) {
        Ok(s) => s,
        Err(_) => {
            return;
        },
    };
    let shift_ticks: i64 = -(result.raw_tempo_pairs[0].0 as i64);
    let ghost shift = shift_ticks as int;
    let ghost old_view = result@;
    assert(shift == -old_view.raw_tempo_pairs[0].0);
    if !move_pairs(&mut result.raw_tempo_pairs, shift_ticks, &scale, src_tps) {
        return;
    }
    // The same shift applies to event ticks and to positions in beats:
    // both are TPS-independent.
    let shift_beats = match Rational::new(shift_ticks, Beat::TICKS_PER_BEAT) {
        Ok(r) => r,
        Err(_) => Rational::zero(),
    };
    assert(shift_beats@ == lowest(shift, 1024));

    let mut events: Vec<SsqEvent> = Vec::new();
    let mut i: usize = 0;
    while i < result.events.len()
        invariant
            i <= result.events@.len(),
            shift == shift_ticks,
            -0x8000_0000 <= shift_ticks <= 0x8000_0000,
            events@ =~= moved_events(result.events@, shift).subrange(0, i as int),
        decreases result.events@.len() - i,
    {
        let ev: SsqEvent = result.events[i];
        events.push(
            SsqEvent { tick: nearest_i32(ev.tick as i64 + shift_ticks), code: ev.code, arg: ev.arg },
        );
        i = i + 1;
    }
    let mut segments: Vec<TempoSegment> = Vec::new();
    let mut j: usize = 0;
    while j < result.song.tempo_segments.len()
        invariant
            j <= result.song.tempo_segments@.len(),
            segments@ =~= moved_segments(result.song.tempo_segments@, shift_beats@).subrange(
                0,
                j as int,
            ),
        decreases result.song.tempo_segments@.len() - j,
    {
        let seg: TempoSegment = result.song.tempo_segments[j];
        segments.push(
            TempoSegment { start_beat: shift_beat(seg.start_beat, &shift_beats), bpm: seg.bpm },
        );
        j = j + 1;
    }
    let mut stops: Vec<Stop> = Vec::new();
    let mut k: usize = 0;
    while k < result.song.stops.len()
        invariant
            k <= result.song.stops@.len(),
            stops@ =~= moved_stops(result.song.stops@, shift_beats@).subrange(0, k as int),
        decreases result.song.stops@.len() - k,
    {
        let stop: Stop = result.song.stops[k];
        stops.push(
            Stop {
                at_beat: shift_beat(stop.at_beat, &shift_beats),
                duration_seconds: stop.duration_seconds,
            },
        );
        k = k + 1;
    }
    let mut charts: Vec<Chart> = Vec::new();
    let mut c: usize = 0;
    while c < result.song.charts.len()
        invariant
            c <= result.song.charts@.len(),
            charts_view(charts@) =~= moved_charts(
                charts_view(result.song.charts@),
                shift_beats@,
            ).subrange(0, c as int),
        decreases result.song.charts@.len() - c,
    {
        let chart = &result.song.charts[c];
        let ghost before = charts@;
        let moved = Chart {
            style: chart.style,
            difficulty: chart.difficulty,
            notes: shift_notes(&chart.notes, &shift_beats),
        };
        proof {
            let all = moved_charts(charts_view(result.song.charts@), shift_beats@);
            assert(moved@ =~= all[c as int]);
            assert(charts_view(before.push(moved)) =~= charts_view(before).push(moved@));
        }
        charts.push(moved);
        c = c + 1;
    }
    // The first seconds-tick is now in milliseconds.
    let sync = match Rational::new(result.raw_tempo_pairs[0].1 as i64, 1000) {
        Ok(r) => r,
        Err(_) => Rational::zero(),
    };
    result.events = events;
    result.song.tempo_segments = segments;
    result.song.stops = stops;
    result.song.charts = charts;
    result.song.audio_sync_offset_seconds = sync;
    result.song.tps = MODERN_TPS;
    assert(result@ =~= modernized(old_view));
}

/// Why a stepfile is not modernized.
pub open spec fn modernize_problem(v: SsqView) -> Option<Seq<char>> {
    if v.tps == 0 || v.raw_tempo_pairs.len() == 0 {
        None
    } else {
        let pairs = v.raw_tempo_pairs;
        let shift = -pairs[0].0;
        match first_misfit(pairs, shift, v.tps as int, 0) {
            None => None,
            Some(i) => Some(
                if in_i32(pairs[i].0 + shift) {
                    "modernize: tempo seconds-tick rescale overflow"@
                } else {
                    "modernize: tempo tick overflow during shift"@
                },
            ),
        }
    }
}

/// Say why [`modernize`] would leave a stepfile as it is, if it would.
pub fn modernize_warning(result: &SsqParseResult) -> (r: Option<&'static str>)
    ensures
        match modernize_problem(result@) {
            Some(text) => r is Some && r->0@ == text,
            None => r is None,
        },
{
    let tps: u32 = result.song.tps;
    let pairs = &result.raw_tempo_pairs;
    if tps == 0 || pairs.len() == 0 {
        return None;
    }
    let scale = match TickScale::new(tps, MODERN_TPS) {
        Ok(s) => s,
        Err(_) => {
            return None;
        },
    };
    let shift: i64 = -(pairs[0].0 as i64);
    let mut i: usize = 0;
    while i < pairs.len()
        invariant
            i <= pairs@.len(),
            tps > 0,
            scale@ == lowest(1000, tps as int),
            shift == -pairs@[0].0,
            pairs@ == result@.raw_tempo_pairs,
            tps == result@.tps,
            pairs@.len() > 0,
            first_misfit(pairs@, shift as int, tps as int, 0) == first_misfit(
                pairs@,
                shift as int,
                tps as int,
                i as int,
            ),
        decreases pairs@.len() - i,
    {
        let (tick, time) = pairs[i];
        let moved: i64 = tick as i64 + shift;
        if moved < i32::MIN as i64 || moved > i32::MAX as i64 {
            return Some("modernize: tempo tick overflow during shift");
        }
        let fits = match scale.scale_rounded(time as i64) {
            Some(v) => v >= i32::MIN as i64 && v <= i32::MAX as i64,
            None => false,
        };
        if !fits {
            return Some("modernize: tempo seconds-tick rescale overflow");
        }
        i = i + 1;
    }
    None
}

} // verus!
