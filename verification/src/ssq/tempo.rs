//! Type-1 tempo chunk parser.
//!
//! Decodes TPS, BPM segments, stops, and the audio-sync offset from the
//! tempo chunk's body. The chunk body is `N × i32` measure-tick offsets
//! followed by `N × i32` seconds-tick tempo values.

use crate::model::rational::lowest;
use crate::model::{
    group_model_values, tick_beat, Beat, Bpm, Rational, RationalError, Stop, TempoSegment,
};
use crate::ssq::chunk::ChunkHeader;
use crate::ssq::{SsqError, SsqErrorView};
use crate::util::io::{get_i32s, sle32s};
use crate::util::text::{dec, dec_string, signed_dec, signed_dec_string, with_number};
use vstd::prelude::*;
use vstd::string::StringExecFns;

verus! {

broadcast use group_model_values;

/// Output of parsing one tempo chunk. These fields are folded into the
/// partial `Song` under construction.
#[derive(Debug)]
pub struct TempoParseResult {
    pub tps: u32,
    pub tempo_segments: Vec<TempoSegment>,
    pub stops: Vec<Stop>,
    pub audio_sync_offset_seconds: Rational,
    /// Raw `(time_offset, tempo_data)` pairs in file order. Preserved
    /// so a DDR→DDR writer can round-trip the tempo chunk byte-exactly.
    pub raw_pairs: Vec<(i32, i32)>,
}

/// The contents of a `TempoParseResult`.
#[verifier::ext_equal]
pub struct TempoView {
    pub tps: u32,
    pub tempo_segments: Seq<TempoSegment>,
    pub stops: Seq<Stop>,
    pub audio_sync_offset_seconds: Rational,
    pub raw_pairs: Seq<(i32, i32)>,
}

impl View for TempoParseResult {
    type V = TempoView;

    open spec fn view(&self) -> TempoView {
        TempoView {
            tps: self.tps,
            tempo_segments: self.tempo_segments@,
            stops: self.stops@,
            audio_sync_offset_seconds: self.audio_sync_offset_seconds,
            raw_pairs: self.raw_pairs@,
        }
    }
}

/// The `(time_offset, tempo_data)` pairs of a body with `n` entries.
pub open spec fn tempo_pairs(body: Seq<u8>, n: nat) -> Seq<(i32, i32)> {
    Seq::new(n, |i: int| (sle32s(body, 0, n)[i], sle32s(body, 4 * n as int, n)[i]))
}

/// The tempo between two pairs at different measure ticks:
/// `240 * TPS * Δmeasure / (4096 * Δseconds)` beats per minute.
pub open spec fn slope_bpm(tps: int, a: (i32, i32), b: (i32, i32)) -> Bpm {
    Bpm::of(lowest(240 * tps * (b.0 - a.0), 4096 * (b.1 - a.1)))
}

/// `ticks` seconds-ticks, in seconds.
pub open spec fn seconds_of(ticks: int, tps: int) -> Rational {
    Rational::of(lowest(ticks, tps))
}

/// The tempo segments that the first `n` pairs make: one for each two
/// consecutive pairs that differ in measure tick, from the first of them on.
pub open spec fn segments_of(tps: int, pairs: Seq<(i32, i32)>, n: nat) -> Seq<TempoSegment>
    decreases n,
{
    if n <= 1 {
        Seq::empty()
    } else {
        let before = segments_of(tps, pairs, (n - 1) as nat);
        let (a, b) = (pairs[n - 2], pairs[n - 1]);
        if a.0 == b.0 {
            before
        } else {
            before.push(
                TempoSegment { start_beat: tick_beat(a.0 as int), bpm: slope_bpm(tps, a, b) },
            )
        }
    }
}

/// The stops that the first `n` pairs make: one for each two consecutive
/// pairs at the same measure tick.
pub open spec fn stops_of(tps: int, pairs: Seq<(i32, i32)>, n: nat) -> Seq<Stop>
    decreases n,
{
    if n <= 1 {
        Seq::empty()
    } else {
        let before = stops_of(tps, pairs, (n - 1) as nat);
        let (a, b) = (pairs[n - 2], pairs[n - 1]);
        if a.0 == b.0 {
            before.push(
                Stop {
                    at_beat: tick_beat(b.0 as int),
                    duration_seconds: seconds_of(b.1 - a.1, tps),
                },
            )
        } else {
            before
        }
    }
}

/// Whether pair `i` advances measure-ticks without advancing seconds-ticks.
pub open spec fn stalls_at(pairs: Seq<(i32, i32)>, i: int) -> bool {
    pairs[i].0 != pairs[i - 1].0 && pairs[i].1 == pairs[i - 1].1
}

/// The first pair from `i` on that stalls.
pub open spec fn first_stall(pairs: Seq<(i32, i32)>, i: int) -> Option<int>
    decreases pairs.len() - i,
{
    if i >= pairs.len() {
        None
    } else if stalls_at(pairs, i) {
        Some(i)
    } else {
        first_stall(pairs, i + 1)
    }
}

pub open spec fn tempo_size_reason(size: nat, n: nat) -> Seq<char> {
    "tempo body size "@ + dec(size) + " does not match "@ + dec(n) + " entries × 8 bytes ("@ + dec(
        8 * n,
    ) + ")"@
}

pub open spec fn origin_reason(tick: i32) -> Seq<char> {
    "time_offset[0] must be 0, got "@ + signed_dec(tick as int)
}

pub open spec fn stall_reason(i: nat) -> Seq<char> {
    "tempo entry "@ + dec(i) + " advances measure-ticks without advancing seconds-ticks"@
}

/// What a tempo chunk parses to.
///
/// A chunk at the modern rate starts at tick 0. In a legacy chunk the first
/// tick may be any value: it is the shift between the chart timeline and the
/// audio timeline.
pub open spec fn tempo_outcome(header: ChunkHeader, body: Seq<u8>, chunk_offset: usize) -> Result<
    TempoView,
    SsqErrorView,
> {
    let tps = header.param2 as int;
    let n = header.param3 as nat;
    let pairs = tempo_pairs(body, n);
    let malformed = |reason: Seq<char>|
        Err::<TempoView, SsqErrorView>(
            SsqErrorView::MalformedChunk { offset: chunk_offset, reason },
        );
    if tps == 0 {
        Err(SsqErrorView::InvalidTps { offset: chunk_offset })
    } else if body.len() != 8 * n {
        malformed(tempo_size_reason(body.len(), n))
    } else if n == 0 {
        malformed("tempo chunk has zero entries"@)
    } else if tps == 1000 && pairs[0].0 != 0 {
        malformed(origin_reason(pairs[0].0))
    } else if first_stall(pairs, 1) is Some {
        malformed(stall_reason(first_stall(pairs, 1)->0 as nat))
    } else {
        Ok(
            TempoView {
                tps: tps as u32,
                tempo_segments: segments_of(tps, pairs, n),
                stops: stops_of(tps, pairs, n),
                audio_sync_offset_seconds: seconds_of(pairs[0].1 as int, tps),
                raw_pairs: pairs,
            },
        )
    }
}

/// Parse a type-1 tempo chunk.
pub fn parse_tempo_chunk(header: &ChunkHeader, body: &[u8], chunk_offset: usize) -> (r: Result<
    TempoParseResult,
    SsqError,
>)
    ensures
        match tempo_outcome(*header, body@, chunk_offset) {
            Ok(t) => r is Ok && r->Ok_0@ == t,
            Err(e) => r is Err && r->Err_0@ == e,
        },
{
    let tps: u32 = header.param2 as u32;
    if tps == 0 {
        return Err(SsqError::InvalidTps { offset: chunk_offset });
    }
    let entry_count: usize = header.param3 as usize;
    let expected_body: usize = entry_count * 8;
    if body.len() != expected_body {
        let reason = "tempo body size ".to_owned().concat(
            dec_string(body.len() as u128).as_str(),
        ).concat(" does not match ").concat(dec_string(entry_count as u128).as_str()).concat(
            " entries × 8 bytes (",
        ).concat(dec_string(expected_body as u128).as_str()).concat(")");
        return Err(SsqError::MalformedChunk { offset: chunk_offset, reason });
    }
    if entry_count == 0 {
        return Err(
            SsqError::MalformedChunk {
                offset: chunk_offset,
                reason: "tempo chunk has zero entries".to_owned(),
            },
        );
    }
    let time_offsets: Vec<i32> = get_i32s(body, 0, entry_count);
    let tempo_data: Vec<i32> = get_i32s(body, 4 * entry_count, entry_count);
    let ghost pairs = tempo_pairs(body@, entry_count as nat);

    if tps == 1000 && time_offsets[0] != 0 {
        let reason = "time_offset[0] must be 0, got ".to_owned().concat(
            signed_dec_string(time_offsets[0] as i64).as_str(),
        );
        return Err(SsqError::MalformedChunk { offset: chunk_offset, reason });
    }
    // tempo_data[0] is the audio-sync offset in seconds-ticks.
    let audio_sync_offset_seconds = match Rational::new(tempo_data[0] as i64, tps as i64) {
        Ok(v) => v,
        Err(e) => {
            return Err(chunk_math_err(chunk_offset, e));
        },
    };

    let mut tempo_segments: Vec<TempoSegment> = Vec::new();
    let mut stops: Vec<Stop> = Vec::new();
    let mut raw_pairs: Vec<(i32, i32)> = Vec::new();
    raw_pairs.push((time_offsets[0], tempo_data[0]));
    let mut i: usize = 1;
    while i < entry_count
        invariant
            1 <= i <= entry_count,
            entry_count == header.param3,
            entry_count == time_offsets@.len(),
            entry_count == tempo_data@.len(),
            entry_count == pairs.len(),
            body@.len() == 8 * entry_count,
            tps == header.param2,
            0 < tps <= 0xFFFF,
            pairs == tempo_pairs(body@, entry_count as nat),
            tps == 1000 ==> pairs[0].0 == 0,
            forall|k: int|
                0 <= k < entry_count ==> #[trigger] pairs[k] == (time_offsets@[k], tempo_data@[k]),
            raw_pairs@ =~= pairs.subrange(0, i as int),
            tempo_segments@ == segments_of(tps as int, pairs, i as nat),
            stops@ == stops_of(tps as int, pairs, i as nat),
            first_stall(pairs, 1) == first_stall(pairs, i as int),
        decreases entry_count - i,
    {
        let t0: i32 = time_offsets[i - 1];
        let t1: i32 = time_offsets[i];
        let delta_measure: i64 = t1 as i64 - t0 as i64;
        let delta_seconds_ticks: i64 = tempo_data[i] as i64 - tempo_data[i - 1] as i64;
        assert(pairs[i as int] == (time_offsets@[i as int], tempo_data@[i as int]));
        assert(pairs[i - 1] == (time_offsets@[i - 1], tempo_data@[i - 1]));
        if delta_measure == 0 {
            // A stop is encoded as equal consecutive time_offsets.
            let at_beat = match Beat::from_measure_ticks(t1 as i64) {
                Ok(v) => v,
                Err(e) => {
                    return Err(chunk_math_err(chunk_offset, e));
                },
            };
            let duration_seconds = match Rational::new(delta_seconds_ticks, tps as i64) {
                Ok(v) => v,
                Err(e) => {
                    return Err(chunk_math_err(chunk_offset, e));
                },
            };
            stops.push(Stop { at_beat, duration_seconds });
        } else {
            // BPM = 240 * TPS * delta_measure / (4096 * delta_seconds_ticks)
            if delta_seconds_ticks == 0 {
                return Err(
                    SsqError::MalformedChunk {
                        offset: chunk_offset,
                        reason: with_number(
                            "tempo entry ",
                            i as u128,
                            " advances measure-ticks without advancing seconds-ticks",
                        ),
                    },
                );
            }
            proof {
                assert(-0x1_0000_0000 * 0x1000_0000 <= 240 * tps * delta_measure <= 0x1_0000_0000
                    * 0x1000_0000) by (nonlinear_arith)
                    requires
                        -0x1_0000_0000 <= delta_measure <= 0x1_0000_0000,
                        0 < tps <= 0xFFFF,
                ;
            }
            let num: i64 = 240 * tps as i64 * delta_measure;
            let den: i64 = 4096 * delta_seconds_ticks;
            let bpm_rational = match Rational::new(num, den) {
                Ok(v) => v,
                Err(e) => {
                    return Err(chunk_math_err(chunk_offset, e));
                },
            };
            let start_beat = match Beat::from_measure_ticks(t0 as i64) {
                Ok(v) => v,
                Err(e) => {
                    return Err(chunk_math_err(chunk_offset, e));
                },
            };
            tempo_segments.push(TempoSegment { start_beat, bpm: Bpm::from_rational(bpm_rational) });
        }
        raw_pairs.push((t1, tempo_data[i]));
        i = i + 1;
    }
    Ok(TempoParseResult { tps, tempo_segments, stops, audio_sync_offset_seconds, raw_pairs })
}

fn chunk_math_err(offset: usize, err: RationalError) -> (e: SsqError)
    ensures
        e@ == (SsqErrorView::MalformedChunk {
            offset,
            reason: "tempo math: "@ + (match err {
                RationalError::ZeroDenominator => "denominator cannot be zero"@,
                RationalError::Overflow => "arithmetic overflow"@,
            }),
        }),
{
    SsqError::MalformedChunk {
        offset,
        reason: "tempo math: ".to_owned().concat(err.message().as_str()),
    }
}

} // verus!
