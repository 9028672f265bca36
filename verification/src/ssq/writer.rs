//! Modern-profile SSQ writer (TPS=1000, chunks 1/2/3 plus 20 for mines).
//!
//! Refuses to emit anything else — the modern-subset restriction is
//! enforced at the writer boundary so legacy-profile SSQs cannot be
//! produced by this tool.
//!
//! Also owns tempo-chunk synthesis for sources with no raw tempo pairs
//! (SM5): `#BPMS`/`#STOPS` become `(measure_tick, seconds_tick)` anchors,
//! accumulated in fixed point rather than exact rationals because
//! arbitrary decimal BPMs make an exact running sum's denominator
//! overflow.

use crate::model::rational::{
    add_value, div_round, fits_wide, lemma_wide_products, q_lt, round_half_away, sub_value,
    Rational,
};
use crate::model::{
    charts_view, group_model_values, Beat, Bpm, Chart, ChartView, Difficulty, Note, NoteKind,
    ShockSide, Song, SongView, Stop, Style, TempoSegment,
};
use crate::ssq::events::SsqEvent;
use crate::ssq::mines::{self, in_i32, mine_chunk, nearest_tick, wide_tick};
use crate::ssq::{SsqError, SsqErrorView};
use crate::util::io::{bytes16, bytes32, put_i32, put_u16, put_u32, put_zeros, sbytes32};
use crate::util::sort::{sort_stable, stable_sorted, Ranked};
use crate::util::text::{dec, dec_string, signed_dec, signed_dec_string};
use vstd::prelude::*;
use vstd::string::StringExecFns;

verus! {

broadcast use group_model_values;

const MODERN_TPS: u32 = 1000;

/// Resolution of the seconds-tick accumulator used by tempo synthesis:
/// one seconds-tick (1 ms at TPS=1000) is this many accumulator units.
/// Every term is rounded to the nearest unit, so the error per term is
/// at most half a nanosecond and even a `u16::MAX`-entry chunk stays
/// four orders of magnitude inside the ±0.5 ms output quantum.
const SUBTICKS_PER_TICK: i128 = 1_000_000;

/// The 12 header bytes of a chunk. The length and the entry count are
/// truncated to their fields.
pub open spec fn chunk_header_bytes(body_len: nat, ty: u16, param2: u16, count: nat) -> Seq<u8> {
    bytes32(((12 + body_len) % 0x1_0000_0000) as u32) + bytes16(ty) + bytes16(param2) + bytes16(
        (count % 0x1_0000) as u16,
    ) + bytes16(0)
}

/// Write a chunk header (12 bytes) given its body length and type params.
pub fn write_chunk_header(out: &mut Vec<u8>, body_len: u128, ty: u16, param2: u16, count: usize)
    requires
        body_len <= u128::MAX - 12,
    ensures
        final(out)@ == old(out)@ + chunk_header_bytes(body_len as nat, ty, param2, count as nat),
{
    put_u32(out, ((12 + body_len) % 0x1_0000_0000) as u32);
    put_u16(out, ty);
    put_u16(out, param2);
    put_u16(out, (count % 0x1_0000) as u16);
    put_u16(out, 0);
    assert(out@ =~= old(out)@ + chunk_header_bytes(body_len as nat, ty, param2, count as nat));
}

/// The 16-bit code of a style and difficulty.
pub open spec fn code_of(style: Style, difficulty: Difficulty) -> u16 {
    let slot: u16 = match difficulty {
        Difficulty::Basic => 0x01,
        Difficulty::Difficult => 0x02,
        Difficulty::Expert => 0x03,
        Difficulty::Beginner => 0x04,
        Difficulty::Challenge => 0x06,
    };
    let low: u16 = match style {
        Style::Single => 0x14,
        Style::Double => 0x18,
    };
    (0x100 * slot + low) as u16
}

pub fn difficulty_code(style: Style, difficulty: Difficulty) -> (code: u16)
    ensures
        code == code_of(style, difficulty),
{
    let slot: u16 = match difficulty {
        Difficulty::Basic => 0x01,
        Difficulty::Difficult => 0x02,
        Difficulty::Expert => 0x03,
        Difficulty::Beginner => 0x04,
        Difficulty::Challenge => 0x06,
    };
    let low: u16 = match style {
        Style::Single => 0x14,
        Style::Double => 0x18,
    };
    0x100 * slot + low
}

/// An error while writing.
pub open spec fn write_fault<T>(reason: Seq<char>) -> Result<T, SsqErrorView> {
    Err(SsqErrorView::Write(reason))
}

/// Convert a `Beat` to an integer measure-tick count (1024 ticks per
/// beat). Rounds to nearest when the beat doesn't land exactly on a
/// tick boundary (e.g. triplets at 1/3 beat = 341.33 ticks).
pub fn beat_to_measure_ticks(beat: Beat) -> (r: Result<i32, SsqError>)
    ensures
        in_i32(nearest_tick(beat)) ==> r is Ok && r->Ok_0 == nearest_tick(beat),
        !in_i32(nearest_tick(beat)) ==> r is Err && r->Err_0@ == SsqErrorView::Write(
            "measure-tick out of i32 range"@,
        ),
{
    let rounded: i128 = wide_tick(beat);
    if rounded < i32::MIN as i128 || rounded > i32::MAX as i128 {
        Err(SsqError::Write("measure-tick out of i32 range".to_owned()))
    } else {
        Ok(rounded as i32)
    }
}

// ---------------------------------------------------------------------------
// Tempo synthesis
// ---------------------------------------------------------------------------

/// Seconds in sub-ticks, rounded.
pub open spec fn seconds_subticks(seconds: (int, int)) -> int {
    round_half_away(seconds.0 * 1_000_000_000, seconds.1)
}

pub open spec fn tempo_sign_reason(bpm: (int, int)) -> Seq<char> {
    "tempo must be positive, got "@ + signed_dec(bpm.0) + "/"@ + dec(bpm.1 as nat) + " BPM"@
}

/// Sub-ticks elapsed between two beats at `bpm`:
/// `Δbeats × 60 × TPS × SUBTICKS_PER_TICK / bpm`, rounded.
pub open spec fn elapsed_subticks(from: Beat, to: Beat, bpm: Bpm) -> Result<int, SsqErrorView> {
    match sub_value(to@, from@) {
        None => write_fault("beat delta: "@ + "arithmetic overflow"@),
        Some(delta) => {
            let num = delta.0 * bpm@.1 * 60_000_000_000;
            if bpm@.0 <= 0 {
                write_fault(tempo_sign_reason(bpm@))
            } else if !fits_wide(num) {
                write_fault("segment duration overflow"@)
            } else {
                Ok(round_half_away(num, delta.1 * bpm@.0))
            }
        },
    }
}

/// A point of the tempo timeline.
#[derive(Debug, Clone, Copy)]
pub enum TimelineEvent {
    Segment(TempoSegment),
    Stop(Stop),
}

/// Where a point of the timeline lies.
pub open spec fn event_beat(e: TimelineEvent) -> Beat {
    match e {
        TimelineEvent::Segment(s) => s.start_beat,
        TimelineEvent::Stop(s) => s.at_beat,
    }
}

impl TimelineEvent {
    fn beat(&self) -> (b: Beat)
        ensures
            b == event_beat(*self),
    {
        match self {
            TimelineEvent::Segment(s) => s.start_beat,
            TimelineEvent::Stop(s) => s.at_beat,
        }
    }
}

impl Ranked for TimelineEvent {
    open spec fn precedes(self, other: Self) -> bool {
        q_lt(event_beat(self)@, event_beat(other)@)
    }

    fn is_before(&self, other: &Self) -> (b: bool) {
        self.beat().is_before(&other.beat())
    }
}

/// The segment boundaries and stops of a song in order of their beats. A
/// tempo change comes before a stop at the same beat.
pub open spec fn timeline_of(segments: Seq<TempoSegment>, stops: Seq<Stop>) -> Seq<TimelineEvent> {
    stable_sorted(
        Seq::new(segments.len(), |i: int| TimelineEvent::Segment(segments[i])) + Seq::new(
            stops.len(),
            |i: int| TimelineEvent::Stop(stops[i]),
        ),
    )
}

/// The index of the earliest of the first `n` segments.
pub open spec fn earliest_segment(segments: Seq<TempoSegment>, n: nat) -> int
    decreases n,
{
    if n <= 1 {
        0
    } else {
        let m = earliest_segment(segments, (n - 1) as nat);
        if q_lt(segments[n - 1].start_beat@, segments[m].start_beat@) {
            n - 1
        } else {
            m
        }
    }
}

/// How far tempo synthesis has got.
#[verifier::ext_equal]
pub struct Synthesis {
    /// Audio time at `prev`, in sub-ticks.
    pub acc: int,
    /// The last position that was reached.
    pub prev: Beat,
    /// The tempo in force.
    pub bpm: Bpm,
    /// The anchors so far.
    pub entries: Seq<(i32, i32)>,
}

/// The accumulated time, advanced by `subticks`.
pub open spec fn passed(st: Synthesis, subticks: int) -> Result<Synthesis, SsqErrorView> {
    if fits_wide(st.acc + subticks) {
        Ok(Synthesis { acc: st.acc + subticks, ..st })
    } else {
        write_fault("cumulative time overflow"@)
    }
}

/// The timeline advanced to `to`, at the tempo in force.
pub open spec fn moved(st: Synthesis, to: Beat) -> Result<Synthesis, SsqErrorView> {
    match elapsed_subticks(st.prev, to, st.bpm) {
        Err(e) => Err(e),
        Ok(d) => match passed(st, d) {
            Err(e) => Err(e),
            Ok(after) => Ok(Synthesis { prev: to, ..after }),
        },
    }
}

/// The timeline advanced to `to`, if `to` is later.
pub open spec fn advanced(st: Synthesis, to: Beat) -> Result<Synthesis, SsqErrorView> {
    if q_lt(st.prev@, to@) {
        moved(st, to)
    } else {
        Ok(st)
    }
}

/// An anchor added at the tick of `beat` and the accumulated time, unless it
/// repeats the previous one.
pub open spec fn anchored(st: Synthesis, beat: Beat) -> Result<Synthesis, SsqErrorView> {
    let time = round_half_away(st.acc, 1_000_000);
    let entry = (nearest_tick(beat) as i32, time as i32);
    if !in_i32(nearest_tick(beat)) {
        write_fault("measure-tick out of i32 range"@)
    } else if !in_i32(time) {
        write_fault("seconds-tick out of i32 range"@)
    } else if st.entries.len() > 0 && st.entries.last() == entry {
        Ok(st)
    } else {
        Ok(Synthesis { entries: st.entries.push(entry), ..st })
    }
}

/// One point of the timeline taken in.
pub open spec fn took(st: Synthesis, e: TimelineEvent) -> Result<Synthesis, SsqErrorView> {
    match advanced(st, event_beat(e)) {
        Err(err) => Err(err),
        Ok(at) => match e {
            TimelineEvent::Segment(seg) => {
                let marked = if q_lt((0, 1), seg.start_beat@) {
                    anchored(at, seg.start_beat)
                } else {
                    Ok(at)
                };
                match marked {
                    Err(err) => Err(err),
                    Ok(m) => Ok(Synthesis { bpm: seg.bpm, ..m }),
                }
            },
            TimelineEvent::Stop(stop) => match anchored(at, stop.at_beat) {
                Err(err) => Err(err),
                Ok(open) => match passed(open, seconds_subticks(stop.duration_seconds@)) {
                    Err(err) => Err(err),
                    Ok(over) => anchored(over, stop.at_beat),
                },
            },
        },
    }
}

/// The first `n` points of the timeline taken in.
pub open spec fn took_all(
    start: Result<Synthesis, SsqErrorView>,
    timeline: Seq<TimelineEvent>,
    n: nat,
) -> Result<Synthesis, SsqErrorView>
    decreases n,
{
    if n == 0 {
        start
    } else {
        match took_all(start, timeline, (n - 1) as nat) {
            Err(e) => Err(e),
            Ok(st) => took(st, timeline[n - 1]),
        }
    }
}

/// Synthesis before the first point: time zero of the chart lies at the
/// audio-sync offset.
pub open spec fn synthesis_start(sync: (int, int), bpm: Bpm) -> Result<Synthesis, SsqErrorView> {
    let acc = seconds_subticks(sync);
    let time = round_half_away(acc, 1_000_000);
    if in_i32(time) {
        Ok(
            Synthesis {
                acc,
                prev: Beat::of((0, 1)),
                bpm,
                entries: seq![(0i32, time as i32)],
            },
        )
    } else {
        write_fault("seconds-tick out of i32 range"@)
    }
}

/// Where the trailing anchor goes, if there is one.
pub open spec fn trailing_beat(st: Synthesis, end_beat: Option<Beat>) -> Option<Beat> {
    match end_beat {
        Some(b) if q_lt(st.prev@, b@) => Some(b),
        _ => if st.entries.len() < 2 {
            Some(Beat::of((4, 1)))
        } else {
            None
        },
    }
}

/// The tempo pairs synthesized from segments and stops.
pub open spec fn synthesized(
    segments: Seq<TempoSegment>,
    stops: Seq<Stop>,
    sync: (int, int),
    end_beat: Option<Beat>,
) -> Result<Seq<(i32, i32)>, SsqErrorView> {
    if segments.len() == 0 {
        write_fault("cannot synthesize tempo chunk: no tempo segments"@)
    } else {
        let bpm = segments[earliest_segment(segments, segments.len())].bpm;
        let timeline = timeline_of(segments, stops);
        match took_all(synthesis_start(sync, bpm), timeline, timeline.len()) {
            Err(e) => Err(e),
            Ok(st) => match trailing_beat(st, end_beat) {
                None => Ok(st.entries),
                Some(end) => match moved(st, end) {
                    Err(e) => Err(e),
                    Ok(at) => match anchored(at, end) {
                        Err(e) => Err(e),
                        Ok(last) => Ok(last.entries),
                    },
                },
            },
        }
    }
}

/// Where a note is over: at its tail for a hold. None where the sum does not
/// fit.
pub open spec fn note_end(note: Note) -> Option<Beat> {
    match note.kind {
        NoteKind::HoldHead { length } => match add_value(note.beat@, length@) {
            Some(q) => Some(Beat::of(q)),
            None => None,
        },
        _ => Some(note.beat),
    }
}

/// The later of two positions.
pub open spec fn later(a: Option<Beat>, b: Option<Beat>) -> Option<Beat> {
    match (a, b) {
        (Some(x), Some(y)) => if q_lt(x@, y@) {
            b
        } else {
            a
        },
        (None, _) => b,
        (_, None) => a,
    }
}

/// Where the last of the first `n` notes is over.
pub open spec fn last_note_end(notes: Seq<Note>, n: nat) -> Option<Beat>
    decreases n,
{
    if n == 0 {
        None
    } else {
        later(last_note_end(notes, (n - 1) as nat), note_end(notes[n - 1]))
    }
}

/// Where the last note of the first `n` charts is over.
pub open spec fn last_chart_end(charts: Seq<ChartView>, n: nat) -> Option<Beat>
    decreases n,
{
    if n == 0 {
        None
    } else {
        later(
            last_chart_end(charts, (n - 1) as nat),
            last_note_end(charts[n - 1].notes, charts[n - 1].notes.len()),
        )
    }
}

/// Seconds → sub-ticks: `r × TPS × SUBTICKS_PER_TICK`, rounded.
fn rational_to_subticks(r: &Rational) -> (t: i128)
    ensures
        t == seconds_subticks(r@),
        fits_wide(seconds_subticks(r@)),
{
    proof {
        use_type_invariant(r);
    }
    div_round(r.num() as i128 * 1_000_000_000, r.den() as i128)
}

/// Sub-ticks elapsed between two beats at `bpm`.
///
/// Computed directly in `i128` rather than through `Rational` so that
/// the BPM's denominator never has to fit alongside everything else.
fn beats_to_subticks(from_beat: Beat, to_beat: Beat, bpm: Bpm) -> (r: Result<i128, SsqError>)
    ensures
        match elapsed_subticks(from_beat, to_beat, bpm) {
            Ok(t) => r is Ok && r->Ok_0 == t,
            Err(e) => r is Err && r->Err_0@ == e,
        },
{
    let delta = match to_beat.as_rational().sub(&from_beat.as_rational()) {
        Ok(d) => d,
        Err(e) => {
            return Err(SsqError::Write("beat delta: ".to_owned().concat(e.message().as_str())));
        },
    };
    let tempo = bpm.as_rational();
    if tempo.num() <= 0 {
        return Err(
            SsqError::Write(
                "tempo must be positive, got ".to_owned().concat(
                    signed_dec_string(tempo.num()).as_str(),
                ).concat("/").concat(dec_string(tempo.den() as u128).as_str()).concat(" BPM"),
            ),
        );
    }
    proof {
        use_type_invariant(&delta);
        use_type_invariant(&tempo);
        lemma_wide_products(delta@, tempo@);
        assert(delta@.1 * tempo@.0 == tempo@.0 * delta@.1) by (nonlinear_arith);
        assert(delta@.1 * tempo@.0 > 0) by (nonlinear_arith)
            requires
                delta@.1 > 0,
                tempo@.0 > 0,
        ;
    }
    let product: i128 = delta.num() as i128 * tempo.den() as i128;
    let num: i128 = match product.checked_mul(60_000_000_000) {
        Some(n) => n,
        None => {
            return Err(SsqError::Write("segment duration overflow".to_owned()));
        },
    };
    let den: i128 = delta.den() as i128 * tempo.num() as i128;
    Ok(div_round(num, den))
}

/// Sub-ticks → whole seconds-ticks as `i32`, rounded half away from zero.
fn subticks_to_i32(acc: i128) -> (r: Result<i32, SsqError>)
    ensures
        ({
            let time = round_half_away(acc as int, 1_000_000);
            &&& in_i32(time) ==> r is Ok && r->Ok_0 == time
            &&& !in_i32(time) ==> r is Err && r->Err_0@ == SsqErrorView::Write(
                "seconds-tick out of i32 range"@,
            )
        }),
{
    let time: i128 = div_round(acc, SUBTICKS_PER_TICK);
    if time < i32::MIN as i128 || time > i32::MAX as i128 {
        Err(SsqError::Write("seconds-tick out of i32 range".to_owned()))
    } else {
        Ok(time as i32)
    }
}

/// Append `(tick, round(acc))` unless it repeats the previous entry. A
/// BPM change and a stop at the same beat both want an anchor there;
/// emitting it twice would encode a zero-length stop.
fn push_entry(entries: &mut Vec<(i32, i32)>, tick: i32, acc: i128) -> (r: Result<(), SsqError>)
    ensures
        ({
            let time = round_half_away(acc as int, 1_000_000);
            if in_i32(time) {
                r is Ok && final(entries)@ == if old(entries)@.len() > 0 && old(entries)@.last()
                    == (tick, time as i32) {
                    old(entries)@
                } else {
                    old(entries)@.push((tick, time as i32))
                }
            } else {
                r is Err && r->Err_0@ == SsqErrorView::Write("seconds-tick out of i32 range"@)
                    && final(entries)@ == old(entries)@
            }
        }),
{
    let time: i32 = match subticks_to_i32(acc) {
        Ok(t) => t,
        Err(e) => return Err(e),
    };
    let n: usize = entries.len();
    if n > 0 && entries[n - 1].0 == tick && entries[n - 1].1 == time {
        return Ok(());
    }
    entries.push((tick, time));
    Ok(())
}

/// The running state of tempo synthesis.
struct Accumulator {
    acc: i128,
    prev: Beat,
    bpm: Bpm,
    entries: Vec<(i32, i32)>,
}

impl View for Accumulator {
    type V = Synthesis;

    closed spec fn view(&self) -> Synthesis {
        Synthesis { acc: self.acc as int, prev: self.prev, bpm: self.bpm, entries: self.entries@ }
    }
}

impl Accumulator {
    /// Let `subticks` pass.
    fn pass(&mut self, subticks: i128) -> (r: Result<(), SsqError>)
        ensures
            match passed(old(self)@, subticks as int) {
                Ok(st) => r is Ok && final(self)@ == st,
                Err(e) => r is Err && r->Err_0@ == e,
            },
    {
        match self.acc.checked_add(subticks) {
            Some(v) => {
                self.acc = v;
                Ok(())
            },
            None => Err(SsqError::Write("cumulative time overflow".to_owned())),
        }
    }

    /// Move on to `to` at the tempo in force.
    fn move_to(&mut self, to: Beat) -> (r: Result<(), SsqError>)
        ensures
            match moved(old(self)@, to) {
                Ok(st) => r is Ok && final(self)@ == st,
                Err(e) => r is Err && r->Err_0@ == e,
            },
    {
        let subticks: i128 = match beats_to_subticks(self.prev, to, self.bpm) {
            Ok(t) => t,
            Err(e) => return Err(e),
        };
        match self.pass(subticks) {
            Ok(_) => {},
            Err(e) => return Err(e),
        }
        self.prev = to;
        Ok(())
    }

    /// Move on to `to`, if it is later.
    fn advance(&mut self, to: Beat) -> (r: Result<(), SsqError>)
        ensures
            match advanced(old(self)@, to) {
                Ok(st) => r is Ok && final(self)@ == st,
                Err(e) => r is Err && r->Err_0@ == e,
            },
    {
        if self.prev.is_before(&to) {
            self.move_to(to)
        } else {
            Ok(())
        }
    }

    /// Set an anchor at `beat`.
    fn anchor(&mut self, beat: Beat) -> (r: Result<(), SsqError>)
        ensures
            match anchored(old(self)@, beat) {
                Ok(st) => r is Ok && final(self)@ == st,
                Err(e) => r is Err && r->Err_0@ == e,
            },
    {
        let tick: i32 = match beat_to_measure_ticks(beat) {
            Ok(t) => t,
            Err(e) => return Err(e),
        };
        push_entry(&mut self.entries, tick, self.acc)
    }

    /// Take in one point of the timeline.
    fn take(&mut self, e: &TimelineEvent) -> (r: Result<(), SsqError>)
        ensures
            match took(old(self)@, *e) {
                Ok(st) => r is Ok && final(self)@ == st,
                Err(err) => r is Err && r->Err_0@ == err,
            },
    {
        match self.advance(e.beat()) {
            Ok(_) => {},
            Err(err) => return Err(err),
        }
        match e {
            TimelineEvent::Segment(seg) => {
                if Beat::zero().is_before(&seg.start_beat) {
                    match self.anchor(seg.start_beat) {
                        Ok(_) => {},
                        Err(err) => return Err(err),
                    }
                }
                self.bpm = seg.bpm;
                Ok(())
            },
            TimelineEvent::Stop(stop) => {
                match self.anchor(stop.at_beat) {
                    Ok(_) => {},
                    Err(err) => return Err(err),
                }
                match self.pass(rational_to_subticks(&stop.duration_seconds)) {
                    Ok(_) => {},
                    Err(err) => return Err(err),
                }
                self.anchor(stop.at_beat)
            },
        }
    }
}

proof fn lemma_took_error_stays(
    start: Result<Synthesis, SsqErrorView>,
    timeline: Seq<TimelineEvent>,
    m: nat,
    n: nat,
)
    requires
        m <= n,
        took_all(start, timeline, m) is Err,
    ensures
        took_all(start, timeline, n) == took_all(start, timeline, m),
    decreases n,
{
    if m < n {
        lemma_took_error_stays(start, timeline, m, (n - 1) as nat);
    }
}

/// The segments and stops of a song, in order.
fn build_timeline(song: &Song) -> (timeline: Vec<TimelineEvent>)
    ensures
        timeline@ == timeline_of(song.tempo_segments@, song.stops@),
{
    let mut points: Vec<TimelineEvent> = Vec::new();
    let mut i: usize = 0;
    let ghost head = Seq::new(
        song.tempo_segments@.len(),
        |i: int| TimelineEvent::Segment(song.tempo_segments@[i]),
    );
    let ghost tail = Seq::new(song.stops@.len(), |i: int| TimelineEvent::Stop(song.stops@[i]));
    while i < song.tempo_segments.len()
        invariant
            i <= song.tempo_segments@.len(),
            head == Seq::new(
                song.tempo_segments@.len(),
                |i: int| TimelineEvent::Segment(song.tempo_segments@[i]),
            ),
            points@ =~= head.subrange(0, i as int),
        decreases song.tempo_segments@.len() - i,
    {
        points.push(TimelineEvent::Segment(song.tempo_segments[i]));
        i = i + 1;
    }
    let mut j: usize = 0;
    while j < song.stops.len()
        invariant
            j <= song.stops@.len(),
            tail == Seq::new(song.stops@.len(), |i: int| TimelineEvent::Stop(song.stops@[i])),
            points@ =~= head + tail.subrange(0, j as int),
        decreases song.stops@.len() - j,
    {
        points.push(TimelineEvent::Stop(song.stops[j]));
        j = j + 1;
    }
    assert(points@ =~= head + tail);
    sort_stable(&points)
}

/// Synthesize tempo entries from the model's semantic view (used for
/// SM5→DDR where no raw pairs are available). Requires at least one
/// tempo segment. The trailing entry is placed at the last chart beat
/// (see [`synthesize_tempo_entries_until`] for why one is always
/// needed); songs with no notes get a trailing entry one measure in.
pub fn synthesize_tempo_entries(song: &Song) -> (r: Result<Vec<(i32, i32)>, SsqError>)
    ensures
        match synthesized(
            song.tempo_segments@,
            song.stops@,
            song.audio_sync_offset_seconds@,
            last_chart_end(song@.charts, song@.charts.len()),
        ) {
            Ok(entries) => r is Ok && r->Ok_0@ == entries,
            Err(e) => r is Err && r->Err_0@ == e,
        },
{
    synthesize_tempo_entries_until(song, max_chart_beat(song))
}

/// Synthesize tempo entries from the model's semantic view, with the
/// trailing entry placed at `end_beat`.
///
/// SSQ has no explicit BPM field: the tempo of a segment is the slope
/// between consecutive `(measure_tick, seconds_tick)` entries. The final
/// `#BPMS` entry therefore only exists in the output if an entry follows
/// it, so a trailing entry is emitted at `end_beat` whenever that lies
/// past the last segment boundary or stop. Without it, a downstream
/// extrapolation (e.g. the FINISH/END guard in the job layer) would have
/// nothing but the *previous* segment's slope to extend, and the chart
/// would run at the wrong tempo from the last BPM change to the end.
///
/// `end_beat` is `None` when the caller has no chart to derive it from;
/// a trailing entry is then only added when the list would otherwise be
/// a single entry (one measure past beat 0), so a bare tempo map still
/// yields a derivable BPM.
///
/// Callers that need extra trailing entries should extend the returned
/// vec and pass the result back into [`write`] as `raw_tempo_pairs`.
pub fn synthesize_tempo_entries_until(song: &Song, end_beat: Option<Beat>) -> (r: Result<
    Vec<(i32, i32)>,
    SsqError,
>)
    ensures
        match synthesized(
            song.tempo_segments@,
            song.stops@,
            song.audio_sync_offset_seconds@,
            end_beat,
        ) {
            Ok(entries) => r is Ok && r->Ok_0@ == entries,
            Err(e) => r is Err && r->Err_0@ == e,
        },
{
    let segments = &song.tempo_segments;
    if segments.len() == 0 {
        return Err(
            SsqError::Write("cannot synthesize tempo chunk: no tempo segments".to_owned()),
        );
    }
    // StepMania applies the earliest `#BPMS` entry from beat 0 even when
    // it is written at a later beat, so that is the tempo in force before
    // any segment boundary is reached.
    let mut first: usize = 0;
    let mut i: usize = 1;
    while i < segments.len()
        invariant
            1 <= i <= segments@.len(),
            first < segments@.len(),
            first == earliest_segment(segments@, i as nat),
        decreases segments@.len() - i,
    {
        if segments[i].start_beat.is_before(&segments[first].start_beat) {
            first = i;
        }
        i = i + 1;
    }
    let acc: i128 = rational_to_subticks(&song.audio_sync_offset_seconds);
    let time: i32 = match subticks_to_i32(acc) {
        Ok(t) => t,
        Err(e) => {
            proof {
                let timeline = timeline_of(segments@, song.stops@);
                lemma_took_error_stays(
                    synthesis_start(
                        song.audio_sync_offset_seconds@,
                        segments@[first as int].bpm,
                    ),
                    timeline,
                    0,
                    timeline.len(),
                );
            }
            return Err(e);
        },
    };
    let mut state = Accumulator {
        acc,
        prev: Beat::zero(),
        bpm: segments[first].bpm,
        entries: vec![(0, time)],
    };
    let ghost start = synthesis_start(song.audio_sync_offset_seconds@, segments@[first as int].bpm);
    assert(state.entries@ =~= seq![(0i32, time)]);
    let timeline = build_timeline(song);
    let mut k: usize = 0;
    while k < timeline.len()
        invariant
            k <= timeline@.len(),
            segments@.len() > 0,
            segments@ == song.tempo_segments@,
            first == earliest_segment(segments@, segments@.len()),
            start == synthesis_start(song.audio_sync_offset_seconds@, segments@[first as int].bpm),
            timeline@ == timeline_of(song.tempo_segments@, song.stops@),
            took_all(start, timeline@, k as nat) == Ok::<Synthesis, SsqErrorView>(state@),
        decreases timeline@.len() - k,
    {
        match state.take(&timeline[k]) {
            Ok(_) => {},
            Err(e) => {
                proof {
                    lemma_took_error_stays(start, timeline@, (k + 1) as nat, timeline@.len());
                }
                return Err(e);
            },
        }
        k = k + 1;
    }
    // Trailing entry, so the tempo in force at the end is derivable. A
    // single entry has no slope at all: then one measure in will do.
    let late: Option<Beat> = match end_beat {
        Some(b) => if state.prev.is_before(&b) {
            Some(b)
        } else {
            None
        },
        None => None,
    };
    let trailing: Option<Beat> = match late {
        Some(b) => Some(b),
        None => if state.entries.len() < 2 {
            Some(Beat::from_rational(Rational::from_integer(4)))
        } else {
            None
        },
    };
    assert(trailing == trailing_beat(state@, end_beat));
    if let Some(end) = trailing {
        match state.move_to(end) {
            Ok(_) => {},
            Err(e) => return Err(e),
        }
        match state.anchor(end) {
            Ok(_) => {},
            Err(e) => return Err(e),
        }
    }
    Ok(state.entries)
}

/// Where a note is over.
pub fn end_of_note(note: &Note) -> (r: Option<Beat>)
    ensures
        r == note_end(*note),
{
    match note.kind {
        NoteKind::HoldHead { length } => match note.beat.as_rational().add(&length.as_rational()) {
            Ok(end) => Some(Beat::from_rational(end)),
            Err(_) => None,
        },
        _ => Some(note.beat),
    }
}

fn later_of(a: Option<Beat>, b: Option<Beat>) -> (r: Option<Beat>)
    ensures
        r == later(a, b),
{
    match (a, b) {
        (Some(x), Some(y)) => if x.is_before(&y) {
            Some(y)
        } else {
            Some(x)
        },
        (None, y) => y,
        (x, None) => x,
    }
}

fn max_chart_beat(song: &Song) -> (r: Option<Beat>)
    ensures
        r == last_chart_end(song@.charts, song@.charts.len()),
{
    let mut best: Option<Beat> = None;
    let mut c: usize = 0;
    while c < song.charts.len()
        invariant
            c <= song.charts@.len(),
            best == last_chart_end(song@.charts, c as nat),
        decreases song.charts@.len() - c,
    {
        let notes = &song.charts[c].notes;
        let mut last: Option<Beat> = None;
        let mut i: usize = 0;
        while i < notes.len()
            invariant
                i <= notes@.len(),
                last == last_note_end(notes@, i as nat),
            decreases notes@.len() - i,
        {
            last = later_of(last, end_of_note(&notes[i]));
            i = i + 1;
        }
        best = later_of(best, last);
        c = c + 1;
    }
    best
}

// ---------------------------------------------------------------------------
// Chunks
// ---------------------------------------------------------------------------

/// The bytes of a list of signed values.
pub open spec fn i32_column(values: Seq<i32>) -> Seq<u8>
    decreases values.len(),
{
    if values.len() == 0 {
        Seq::empty()
    } else {
        i32_column(values.drop_last()) + sbytes32(values.last())
    }
}

pub open spec fn zeros(n: nat) -> Seq<u8> {
    Seq::new(n, |i: int| 0u8)
}

/// The number of bytes that fill a chunk with `body` bytes up to a dword.
pub open spec fn dword_pad(body: nat) -> nat {
    ((4 - (12 + body) % 4) % 4) as nat
}

fn put_i32s(out: &mut Vec<u8>, values: &Vec<i32>)
    ensures
        final(out)@ == old(out)@ + i32_column(values@),
{
    let mut i: usize = 0;
    assert(old(out)@ =~= old(out)@ + i32_column(values@.subrange(0, 0)));
    while i < values.len()
        invariant
            i <= values@.len(),
            out@ == old(out)@ + i32_column(values@.subrange(0, i as int)),
        decreases values@.len() - i,
    {
        put_i32(out, values[i]);
        i = i + 1;
        let ghost now = values@.subrange(0, i as int);
        assert(now.drop_last() =~= values@.subrange(0, i - 1));
        assert(out@ =~= old(out)@ + i32_column(now));
    }
    assert(values@.subrange(0, i as int) =~= values@);
}

/// The bytes of a tempo chunk: the entries' ticks, then their times.
pub open spec fn tempo_chunk(entries: Seq<(i32, i32)>) -> Seq<u8> {
    let n = entries.len();
    chunk_header_bytes(8 * n, 1, 1000, n) + i32_column(Seq::new(n, |i: int| entries[i].0))
        + i32_column(Seq::new(n, |i: int| entries[i].1))
}

/// The tempo pairs that are written for a song: the raw ones, if there are
/// any, else synthesized ones.
pub open spec fn written_pairs(song: SongView, raw_pairs: Seq<(i32, i32)>) -> Result<
    Seq<(i32, i32)>,
    SsqErrorView,
> {
    if raw_pairs.len() > 0 {
        Ok(raw_pairs)
    } else {
        synthesized(
            song.tempo_segments,
            song.stops,
            song.audio_sync_offset_seconds@,
            last_chart_end(song.charts, song.charts.len()),
        )
    }
}

fn write_tempo_chunk(song: &Song, raw_pairs: &[(i32, i32)], out: &mut Vec<u8>) -> (r: Result<
    (),
    SsqError,
>)
    ensures
        match written_pairs(song@, raw_pairs@) {
            Ok(entries) => r is Ok && final(out)@ == old(out)@ + tempo_chunk(entries),
            Err(e) => r is Err && r->Err_0@ == e && final(out)@ == old(out)@,
        },
{
    let mut entries: Vec<(i32, i32)> = Vec::new();
    if raw_pairs.len() > 0 {
        let mut i: usize = 0;
        while i < raw_pairs.len()
            invariant
                i <= raw_pairs@.len(),
                entries@ =~= raw_pairs@.subrange(0, i as int),
            decreases raw_pairs@.len() - i,
        {
            entries.push(raw_pairs[i]);
            i = i + 1;
        }
        assert(entries@ =~= raw_pairs@);
    } else {
        entries = match synthesize_tempo_entries(song) {
            Ok(e) => e,
            Err(e) => return Err(e),
        };
    }
    assert(written_pairs(song@, raw_pairs@) == Ok::<Seq<(i32, i32)>, SsqErrorView>(entries@));
    let n: usize = entries.len();
    let mut ticks: Vec<i32> = Vec::new();
    let mut times: Vec<i32> = Vec::new();
    let mut i: usize = 0;
    while i < n
        invariant
            i <= n,
            n == entries@.len(),
            ticks@ =~= Seq::new(i as nat, |k: int| entries@[k].0),
            times@ =~= Seq::new(i as nat, |k: int| entries@[k].1),
        decreases n - i,
    {
        let (t, s) = entries[i];
        ticks.push(t);
        times.push(s);
        i = i + 1;
    }
    write_chunk_header(out, 8 * n as u128, 1, 1000, n);
    put_i32s(out, &ticks);
    put_i32s(out, &times);
    assert(out@ =~= old(out)@ + tempo_chunk(entries@));
    Ok(())
}

/// The bytes of the codes and arguments of a list of events.
pub open spec fn event_codes(events: Seq<SsqEvent>) -> Seq<u8>
    decreases events.len(),
{
    if events.len() == 0 {
        Seq::empty()
    } else {
        event_codes(events.drop_last()).push(events.last().code).push(events.last().arg)
    }
}

/// The bytes of an event chunk: the ticks, then code and argument of each
/// event, then padding.
pub open spec fn events_chunk(events: Seq<SsqEvent>) -> Seq<u8> {
    let n = events.len();
    let pad = dword_pad(6 * n);
    chunk_header_bytes(6 * n + pad, 2, 1, n) + i32_column(Seq::new(n, |i: int| events[i].tick))
        + event_codes(events) + zeros(pad)
}

fn write_events_chunk(events: &[SsqEvent], out: &mut Vec<u8>)
    ensures
        final(out)@ == old(out)@ + events_chunk(events@),
{
    let n: usize = events.len();
    let unpadded: u128 = 6 * n as u128;
    let pad: u128 = (4 - (12 + unpadded) % 4) % 4;
    let mut ticks: Vec<i32> = Vec::new();
    let mut i: usize = 0;
    while i < n
        invariant
            i <= n,
            n == events@.len(),
            ticks@ =~= Seq::new(i as nat, |k: int| events@[k].tick),
        decreases n - i,
    {
        ticks.push(events[i].tick);
        i = i + 1;
    }
    write_chunk_header(out, unpadded + pad, 2, 1, n);
    put_i32s(out, &ticks);
    let ghost head = out@;
    let mut j: usize = 0;
    assert(head =~= head + event_codes(events@.subrange(0, 0)));
    while j < n
        invariant
            j <= n,
            n == events@.len(),
            out@ == head + event_codes(events@.subrange(0, j as int)),
        decreases n - j,
    {
        out.push(events[j].code);
        out.push(events[j].arg);
        j = j + 1;
        let ghost now = events@.subrange(0, j as int);
        assert(now.drop_last() =~= events@.subrange(0, j - 1));
        assert(out@ =~= head + event_codes(now));
    }
    assert(events@.subrange(0, j as int) =~= events@);
    put_zeros(out, pad as usize);
    assert(out@ =~= old(out)@ + events_chunk(events@));
}

/// A panel mask at a tick: a step byte, or the panels of a freeze-end.
#[derive(Debug, Clone, Copy, PartialEq, Eq, Structural)]
pub struct TickMask {
    pub tick: i32,
    pub mask: u8,
}

/// Rows and freeze-ends go in order of their ticks.
impl Ranked for TickMask {
    open spec fn precedes(self, other: Self) -> bool {
        self.tick < other.tick
    }

    fn is_before(&self, other: &Self) -> (b: bool) {
        self.tick < other.tick
    }
}

/// The step byte of a note.
pub open spec fn byte_of_note(note: Note) -> u8 {
    match note.kind {
        NoteKind::Shock { side: ShockSide::BothSides } => 0xFF,
        NoteKind::Shock { side: ShockSide::P1Only } => 0x0F,
        NoteKind::Shock { side: ShockSide::P2Only } => 0xF0,
        _ => note.panels@,
    }
}

/// The `(tick, step byte)` rows and the `(tick, panels)` freeze-ends of the
/// first `n` notes, in note order. Mines travel in a chunk of their own.
pub open spec fn rows_of(notes: Seq<Note>, n: nat) -> Result<
    (Seq<TickMask>, Seq<TickMask>),
    SsqErrorView,
>
    decreases n,
{
    if n == 0 {
        Ok((Seq::empty(), Seq::empty()))
    } else {
        let note = notes[n - 1];
        match rows_of(notes, (n - 1) as nat) {
            Err(e) => Err(e),
            Ok((rows, ends)) => {
                let tick = nearest_tick(note.beat);
                let row = TickMask { tick: tick as i32, mask: byte_of_note(note) };
                if !in_i32(tick) {
                    write_fault("measure-tick out of i32 range"@)
                } else if note.kind is Mine {
                    Ok((rows, ends))
                } else if note.kind is HoldHead {
                    match note_end(note) {
                        None => write_fault("hold length: "@ + "arithmetic overflow"@),
                        Some(end) => if in_i32(nearest_tick(end)) {
                            Ok(
                                (
                                    rows.push(row),
                                    ends.push(
                                        TickMask {
                                            tick: nearest_tick(end) as i32,
                                            mask: note.panels@,
                                        },
                                    ),
                                ),
                            )
                        } else {
                            write_fault("measure-tick out of i32 range"@)
                        },
                    }
                } else {
                    Ok((rows.push(row), ends))
                }
            },
        }
    }
}

/// Consecutive pairs that share a tick, folded into one with the masks OR-ed.
pub open spec fn tick_masks(s: Seq<TickMask>) -> Seq<TickMask>
    decreases s.len(),
{
    if s.len() == 0 {
        s
    } else {
        let before = tick_masks(s.drop_last());
        if before.len() > 0 && before.last().tick == s.last().tick {
            before.drop_last().push(
                TickMask { tick: s.last().tick, mask: before.last().mask | s.last().mask },
            )
        } else {
            before.push(s.last())
        }
    }
}

/// Rows from `ri` on and freeze-ends from `fi` on in order of their ticks,
/// a freeze-end as the step byte 0. At the same tick the row comes first.
pub open spec fn interleaved(
    rows: Seq<TickMask>,
    ends: Seq<TickMask>,
    ri: int,
    fi: int,
) -> Seq<TickMask>
    decreases rows.len() - ri + ends.len() - fi,
{
    if ri < 0 || fi < 0 || ri > rows.len() || fi > ends.len() || (ri == rows.len() && fi
        == ends.len()) {
        Seq::empty()
    } else if ri < rows.len() && (fi >= ends.len() || rows[ri].tick <= ends[fi].tick) {
        seq![rows[ri]] + interleaved(rows, ends, ri + 1, fi)
    } else {
        seq![TickMask { tick: ends[fi].tick, mask: 0 }] + interleaved(rows, ends, ri, fi + 1)
    }
}

/// The steps and freeze entries that are written for a list of notes.
pub open spec fn steps_emitted(notes: Seq<Note>) -> Result<
    (Seq<TickMask>, Seq<(u8, u8)>),
    SsqErrorView,
> {
    match rows_of(notes, notes.len()) {
        Err(e) => Err(e),
        Ok((rows, ends)) => {
            let r = tick_masks(stable_sorted(rows));
            let f = tick_masks(stable_sorted(ends));
            Ok((interleaved(r, f, 0, 0), Seq::new(f.len(), |i: int| (f[i].mask, 1u8))))
        },
    }
}

/// The bytes of a list of freeze entries.
pub open spec fn freeze_bytes(freezes: Seq<(u8, u8)>) -> Seq<u8>
    decreases freezes.len(),
{
    if freezes.len() == 0 {
        Seq::empty()
    } else {
        freeze_bytes(freezes.drop_last()).push(freezes.last().0).push(freezes.last().1)
    }
}

/// The bytes of a step chunk with the given steps and freeze entries.
pub open spec fn steps_chunk_bytes(
    code: u16,
    steps: Seq<TickMask>,
    freezes: Seq<(u8, u8)>,
) -> Seq<u8> {
    let n = steps.len();
    let unpadded = 4 * n + n + n % 2 + 2 * freezes.len();
    let pad = dword_pad(unpadded);
    chunk_header_bytes(unpadded + pad, 3, code, n) + i32_column(Seq::new(n, |i: int| steps[i].tick))
        + Seq::new(n, |i: int| steps[i].mask) + zeros(n % 2) + freeze_bytes(freezes) + zeros(pad)
}

/// The bytes of a chart's step chunk.
#[verifier::opaque]
pub open spec fn steps_chunk(chart: ChartView) -> Result<Seq<u8>, SsqErrorView> {
    match steps_emitted(chart.notes) {
        Err(e) => Err(e),
        Ok((steps, freezes)) => Ok(
            steps_chunk_bytes(code_of(chart.style, chart.difficulty), steps, freezes),
        ),
    }
}

proof fn lemma_rows_error_stays(notes: Seq<Note>, m: nat, n: nat)
    requires
        m <= n,
        rows_of(notes, m) is Err,
    ensures
        rows_of(notes, n) == rows_of(notes, m),
    decreases n,
{
    if m < n {
        lemma_rows_error_stays(notes, m, (n - 1) as nat);
    }
}

/// Fold consecutive `(tick, mask)` pairs that share a tick into one pair
/// with the masks OR-ed.
fn or_same_tick(sorted: Vec<TickMask>) -> (out: Vec<TickMask>)
    ensures
        out@ == tick_masks(sorted@),
{
    let mut out: Vec<TickMask> = Vec::new();
    let mut i: usize = 0;
    assert(out@ =~= tick_masks(sorted@.subrange(0, 0)));
    while i < sorted.len()
        invariant
            i <= sorted@.len(),
            out@ == tick_masks(sorted@.subrange(0, i as int)),
        decreases sorted@.len() - i,
    {
        let TickMask { tick, mask } = sorted[i];
        let n: usize = out.len();
        let ghost now = sorted@.subrange(0, i + 1);
        assert(now.drop_last() =~= sorted@.subrange(0, i as int));
        assert(now.last() == (TickMask { tick, mask }));
        if n > 0 && out[n - 1].tick == tick {
            let merged: u8 = out[n - 1].mask | mask;
            let ghost before = out@;
            out.set(n - 1, TickMask { tick, mask: merged });
            assert(out@ =~= before.drop_last().push(TickMask { tick, mask: merged }));
        } else {
            out.push(TickMask { tick, mask });
        }
        i = i + 1;
    }
    assert(sorted@.subrange(0, i as int) =~= sorted@);
    out
}

/// Parallel arrays of time offsets, step bytes, and `(panels, kind)`
/// freeze entries.
pub type StepsBody = (Vec<i32>, Vec<u8>, Vec<(u8, u8)>);

/// Convert notes into parallel time-offset / step-byte / freeze-entry
/// arrays. Hold heads produce two step entries (head + freeze-end) and
/// one freeze entry.
///
/// A step chunk has one entry per tick, so notes the model keeps
/// separate at the same beat — a tap beside a hold head, or two holds
/// with different tails — are OR-ed into a single step byte here; the
/// freeze block carries which of that byte's panels are held.
/// Freeze-ends that coincide are likewise folded into one `0x00` step
/// with a multi-bit panel mask.
pub fn emit_steps_and_freezes(chart: &Chart) -> (r: Result<StepsBody, SsqError>)
    ensures
        match steps_emitted(chart.notes@) {
            Ok((steps, freezes)) => r is Ok && (r->Ok_0).0@ == Seq::new(
                steps.len(),
                |i: int| steps[i].tick,
            ) && (r->Ok_0).1@ == Seq::new(steps.len(), |i: int| steps[i].mask) && (r->Ok_0).2@
                == freezes,
            Err(e) => r is Err && r->Err_0@ == e,
        },
{
    // Intermediate: (tick, step_byte), plus a list of (end_tick, panel_mask).
    let mut rows: Vec<TickMask> = Vec::new();
    let mut ends: Vec<TickMask> = Vec::new();
    let notes = &chart.notes;
    let mut i: usize = 0;
    while i < notes.len()
        invariant
            i <= notes@.len(),
            notes@ == chart.notes@,
            rows_of(notes@, i as nat) == Ok::<(Seq<TickMask>, Seq<TickMask>), SsqErrorView>(
                (rows@, ends@),
            ),
        decreases notes@.len() - i,
    {
        let note: Note = notes[i];
        let head_tick: i32 = match beat_to_measure_ticks(note.beat) {
            Ok(t) => t,
            Err(e) => {
                proof {
                    lemma_rows_error_stays(notes@, (i + 1) as nat, notes@.len());
                }
                return Err(e);
            },
        };
        match note.kind {
            NoteKind::Tap => {
                rows.push(TickMask { tick: head_tick, mask: note.panels.bits() });
            },
            NoteKind::Shock { side } => {
                let byte: u8 = match side {
                    ShockSide::BothSides => 0xFF,
                    ShockSide::P1Only => 0x0F,
                    ShockSide::P2Only => 0xF0,
                };
                rows.push(TickMask { tick: head_tick, mask: byte });
            },
            NoteKind::HoldHead { length } => {
                rows.push(TickMask { tick: head_tick, mask: note.panels.bits() });
                let end = match note.beat.as_rational().add(&length.as_rational()) {
                    Ok(q) => Beat::from_rational(q),
                    Err(e) => {
                        proof {
                            lemma_rows_error_stays(notes@, (i + 1) as nat, notes@.len());
                        }
                        return Err(
                            SsqError::Write(
                                "hold length: ".to_owned().concat(e.message().as_str()),
                            ),
                        );
                    },
                };
                let end_tick: i32 = match beat_to_measure_ticks(end) {
                    Ok(t) => t,
                    Err(e) => {
                        proof {
                            lemma_rows_error_stays(notes@, (i + 1) as nat, notes@.len());
                        }
                        return Err(e);
                    },
                };
                ends.push(TickMask { tick: end_tick, mask: note.panels.bits() });
            },
            NoteKind::Mine => {},
        }
        i = i + 1;
    }
    // One step byte per tick, one freeze entry per freeze-end tick.
    let rows = or_same_tick(sort_stable(&rows));
    let ends = or_same_tick(sort_stable(&ends));

    // Walk both lists in time order, emitting a combined ordered stream.
    // When a freeze-end tick equals a row tick, the 0x00 step comes
    // AFTER the note at that tick (the parser walks freezes in file
    // order, so ordering matters for freeze matching).
    let mut time_offsets: Vec<i32> = Vec::new();
    let mut step_bytes: Vec<u8> = Vec::new();
    let mut freeze_entries: Vec<(u8, u8)> = Vec::new();
    let mut ri: usize = 0;
    let mut fi: usize = 0;
    let ghost mut merged: Seq<TickMask> = Seq::empty();
    let ghost all = interleaved(rows@, ends@, 0, 0);
    assert(merged + all =~= all);
    while ri < rows.len() || fi < ends.len()
        invariant
            ri <= rows@.len(),
            fi <= ends@.len(),
            merged + interleaved(rows@, ends@, ri as int, fi as int) == all,
            time_offsets@ =~= Seq::new(merged.len(), |i: int| merged[i].tick),
            step_bytes@ =~= Seq::new(merged.len(), |i: int| merged[i].mask),
            freeze_entries@ =~= Seq::new(fi as nat, |i: int| (ends@[i].mask, 1u8)),
        decreases rows@.len() - ri + ends@.len() - fi,
    {
        let ghost before = merged;
        if ri < rows.len() && (fi >= ends.len() || rows[ri].tick <= ends[fi].tick) {
            time_offsets.push(rows[ri].tick);
            step_bytes.push(rows[ri].mask);
            proof {
                merged = merged.push(rows@[ri as int]);
                assert(before + (seq![rows@[ri as int]] + interleaved(
                    rows@,
                    ends@,
                    ri + 1,
                    fi as int,
                )) =~= merged + interleaved(rows@, ends@, ri + 1, fi as int));
            }
            ri = ri + 1;
        } else {
            time_offsets.push(ends[fi].tick);
            step_bytes.push(0x00);
            freeze_entries.push((ends[fi].mask, 0x01));
            proof {
                merged = merged.push(TickMask { tick: ends@[fi as int].tick, mask: 0 });
                assert(before + (seq![TickMask { tick: ends@[fi as int].tick, mask: 0 }] + interleaved(
                    rows@,
                    ends@,
                    ri as int,
                    fi + 1,
                )) =~= merged + interleaved(rows@, ends@, ri as int, fi + 1));
            }
            fi = fi + 1;
        }
    }
    assert(merged + Seq::<TickMask>::empty() =~= merged);
    assert(merged == all);
    Ok((time_offsets, step_bytes, freeze_entries))
}

fn write_steps_chunk(chart: &Chart, out: &mut Vec<u8>) -> (r: Result<(), SsqError>)
    ensures
        match steps_chunk(chart@) {
            Ok(bytes) => r is Ok && final(out)@ == old(out)@ + bytes,
            Err(e) => r is Err && r->Err_0@ == e && final(out)@ == old(out)@,
        },
{
    proof {
        reveal(steps_chunk);
    }
    let (time_offsets, step_bytes, freeze_entries) = match emit_steps_and_freezes(chart) {
        Ok(b) => b,
        Err(e) => return Err(e),
    };
    let n: usize = time_offsets.len();
    let step_pad: usize = n % 2;
    let unpadded: u128 = 4 * n as u128 + n as u128 + step_pad as u128 + 2
        * freeze_entries.len() as u128;
    let pad: u128 = (4 - (12 + unpadded) % 4) % 4;
    let param2: u16 = difficulty_code(chart.style, chart.difficulty);
    write_chunk_header(out, unpadded + pad, 3, param2, n);
    put_i32s(out, &time_offsets);
    crate::util::io::put_bytes(out, step_bytes.as_slice());
    put_zeros(out, step_pad);
    let ghost head = out@;
    let mut i: usize = 0;
    assert(head =~= head + freeze_bytes(freeze_entries@.subrange(0, 0)));
    while i < freeze_entries.len()
        invariant
            i <= freeze_entries@.len(),
            out@ == head + freeze_bytes(freeze_entries@.subrange(0, i as int)),
        decreases freeze_entries@.len() - i,
    {
        let (panels, kind) = freeze_entries[i];
        out.push(panels);
        out.push(kind);
        i = i + 1;
        let ghost now = freeze_entries@.subrange(0, i as int);
        assert(now.drop_last() =~= freeze_entries@.subrange(0, i - 1));
        assert(out@ =~= head + freeze_bytes(now));
    }
    assert(freeze_entries@.subrange(0, i as int) =~= freeze_entries@);
    put_zeros(out, pad as usize);
    assert(out@ =~= old(out)@ + steps_chunk(chart@)->Ok_0);
    Ok(())
}

/// The step chunks of the first `n` charts.
pub open spec fn step_chunks(charts: Seq<ChartView>, n: nat) -> Result<Seq<u8>, SsqErrorView>
    decreases n,
{
    if n == 0 {
        Ok(Seq::empty())
    } else {
        match step_chunks(charts, (n - 1) as nat) {
            Err(e) => Err(e),
            Ok(before) => match steps_chunk(charts[n - 1]) {
                Err(e) => Err(e),
                Ok(bytes) => Ok(before + bytes),
            },
        }
    }
}

/// The mine chunks of the first `n` charts.
pub open spec fn mine_chunks(charts: Seq<ChartView>, n: nat) -> Result<Seq<u8>, SsqErrorView>
    decreases n,
{
    if n == 0 {
        Ok(Seq::empty())
    } else {
        match mine_chunks(charts, (n - 1) as nat) {
            Err(e) => Err(e),
            Ok(before) => match mine_chunk(charts[n - 1]) {
                Err(e) => Err(e),
                Ok(bytes) => Ok(before + bytes),
            },
        }
    }
}

/// The bytes of an SSQ file: tempo, events, the charts' steps, the charts'
/// mines, and a terminator.
pub open spec fn ssq_file(
    song: SongView,
    events: Seq<SsqEvent>,
    raw_pairs: Seq<(i32, i32)>,
) -> Result<Seq<u8>, SsqErrorView> {
    if song.tps != 1000 {
        Err(SsqErrorView::CannotWriteTps { tps: song.tps })
    } else {
        match written_pairs(song, raw_pairs) {
            Err(e) => Err(e),
            Ok(entries) => match step_chunks(song.charts, song.charts.len()) {
                Err(e) => Err(e),
                Ok(steps) => match mine_chunks(song.charts, song.charts.len()) {
                    Err(e) => Err(e),
                    Ok(mines) => Ok(
                        tempo_chunk(entries) + events_chunk(events) + steps + mines + zeros(4),
                    ),
                },
            },
        }
    }
}

proof fn lemma_step_chunks_error_stays(charts: Seq<ChartView>, m: nat, n: nat)
    requires
        m <= n,
        step_chunks(charts, m) is Err,
    ensures
        step_chunks(charts, n) == step_chunks(charts, m),
    decreases n,
{
    if m < n {
        lemma_step_chunks_error_stays(charts, m, (n - 1) as nat);
    }
}

proof fn lemma_mine_chunks_error_stays(charts: Seq<ChartView>, m: nat, n: nat)
    requires
        m <= n,
        mine_chunks(charts, m) is Err,
    ensures
        mine_chunks(charts, n) == mine_chunks(charts, m),
    decreases n,
{
    if m < n {
        lemma_mine_chunks_error_stays(charts, m, (n - 1) as nat);
    }
}

/// Append the step chunks of `charts`.
fn write_step_chunks(charts: &Vec<Chart>, out: &mut Vec<u8>) -> (r: Result<(), SsqError>)
    ensures
        match step_chunks(charts_view(charts@), charts@.len()) {
            Ok(bytes) => r is Ok && final(out)@ == old(out)@ + bytes,
            Err(e) => r is Err && r->Err_0@ == e,
        },
{
    let mut i: usize = 0;
    assert(out@ =~= old(out)@ + Seq::<u8>::empty());
    while i < charts.len()
        invariant
            i <= charts@.len(),
            step_chunks(charts_view(charts@), i as nat) is Ok,
            out@ == old(out)@ + step_chunks(charts_view(charts@), i as nat)->Ok_0,
        decreases charts@.len() - i,
    {
        match write_steps_chunk(&charts[i], out) {
            Ok(_) => {},
            Err(e) => {
                proof {
                    lemma_step_chunks_error_stays(charts_view(charts@), (i + 1) as nat, charts@.len());
                }
                return Err(e);
            },
        }
        i = i + 1;
        assert(out@ =~= old(out)@ + step_chunks(charts_view(charts@), i as nat)->Ok_0);
    }
    Ok(())
}

/// Append the mine chunks of `charts`. Charts without mines add nothing.
fn write_mine_chunks(charts: &Vec<Chart>, out: &mut Vec<u8>) -> (r: Result<(), SsqError>)
    ensures
        match mine_chunks(charts_view(charts@), charts@.len()) {
            Ok(bytes) => r is Ok && final(out)@ == old(out)@ + bytes,
            Err(e) => r is Err && r->Err_0@ == e,
        },
{
    let mut i: usize = 0;
    assert(out@ =~= old(out)@ + Seq::<u8>::empty());
    while i < charts.len()
        invariant
            i <= charts@.len(),
            mine_chunks(charts_view(charts@), i as nat) is Ok,
            out@ == old(out)@ + mine_chunks(charts_view(charts@), i as nat)->Ok_0,
        decreases charts@.len() - i,
    {
        match mines::write_chunk(&charts[i], out) {
            Ok(_) => {},
            Err(e) => {
                proof {
                    lemma_mine_chunks_error_stays(charts_view(charts@), (i + 1) as nat, charts@.len());
                }
                return Err(e);
            },
        }
        i = i + 1;
        assert(out@ =~= old(out)@ + mine_chunks(charts_view(charts@), i as nat)->Ok_0);
    }
    Ok(())
}

/// Serialize a `Song` plus its preserved SSQ sidecar data into the
/// bytes of a modern-profile SSQ file, appended to `out`. Nothing is
/// appended on an error.
///
/// `raw_tempo_pairs` is the `(time_offset, tempo_data)` list from
/// `SsqParseResult::raw_tempo_pairs`. When non-empty it is emitted
/// verbatim, so DDR→DDR writes reproduce the source tempo chunk
/// byte-for-byte. When empty (SM5→DDR path) the writer synthesizes the
/// pairs from the `Song`'s semantic `tempo_segments` + `stops`.
pub fn write(
    song: &Song,
    events: &[SsqEvent],
    raw_tempo_pairs: &[(i32, i32)],
    out: &mut Vec<u8>,
) -> (r: Result<(), SsqError>)
    ensures
        match ssq_file(song@, events@, raw_tempo_pairs@) {
            Ok(bytes) => r is Ok && final(out)@ == old(out)@ + bytes,
            Err(e) => r is Err && r->Err_0@ == e && final(out)@ == old(out)@,
        },
{
    if song.tps != MODERN_TPS {
        return Err(SsqError::CannotWriteTps { tps: song.tps });
    }
    let mut file: Vec<u8> = Vec::new();
    match write_tempo_chunk(song, raw_tempo_pairs, &mut file) {
        Ok(_) => {},
        Err(e) => return Err(e),
    }
    let ghost tempo = tempo_chunk(written_pairs(song@, raw_tempo_pairs@)->Ok_0);
    assert(file@ == tempo) by {
        assert(Seq::<u8>::empty() + tempo =~= tempo);
    }
    write_events_chunk(events, &mut file);
    match write_step_chunks(&song.charts, &mut file) {
        Ok(_) => {},
        Err(e) => return Err(e),
    }
    // Mine chunks are per difficulty and live between the last step chunk
    // and the file terminator.
    match write_mine_chunks(&song.charts, &mut file) {
        Ok(_) => {},
        Err(e) => return Err(e),
    }
    // File terminator — a chunk length of 0.
    put_u32(&mut file, 0);
    assert(bytes32(0) =~= zeros(4));
    crate::util::io::put_bytes(out, file.as_slice());
    Ok(())
}

} // verus!
