//! Type-2 event-stream chunk parser.
//!
//! Events are preserved opaquely as `(tick, code, arg)` triples so that
//! DDR→DDR round-trips reproduce non-canonical event sequences
//! verbatim. DDR→SM5 conversion ignores them — no cross-format mapping
//! is defined.

use crate::ssq::chunk::ChunkHeader;
use crate::ssq::{SsqError, SsqErrorView};
use crate::util::io::{get_i32, sle32};
use crate::util::text::{dec, dec_string};
use vstd::prelude::*;
use vstd::string::StringExecFns;

verus! {

/// One entry from a type-2 event chunk.
#[derive(Debug, Clone, Copy, PartialEq, Eq, Structural)]
pub struct SsqEvent {
    pub tick: i32,
    pub code: u8,
    pub arg: u8,
}

/// The `n` events of a body: `n` ticks, then `n` pairs of code and argument.
pub open spec fn events_of(body: Seq<u8>, n: nat) -> Seq<SsqEvent> {
    Seq::new(
        n,
        |i: int|
            SsqEvent {
                tick: sle32(body, 4 * i),
                code: body[4 * n + 2 * i],
                arg: body[4 * n + 2 * i + 1],
            },
    )
}

/// Why a body whose size does not fit its entry count is refused.
pub open spec fn events_size_reason(size: nat, n: nat) -> Seq<char> {
    "events body size "@ + dec(size) + " does not match "@ + dec(n)
        + " entries × 6 bytes (+ up to 3 pad)"@
}

/// What an event chunk parses to. The body may have up to 3 trailing pad
/// bytes so that the chunk length is dword-aligned.
pub open spec fn events_outcome(header: ChunkHeader, body: Seq<u8>, chunk_offset: usize) -> Result<
    Seq<SsqEvent>,
    SsqErrorView,
> {
    let n = header.param3 as nat;
    if 6 * n <= body.len() <= 6 * n + 3 {
        Ok(events_of(body, n))
    } else {
        Err(
            SsqErrorView::MalformedChunk {
                offset: chunk_offset,
                reason: events_size_reason(body.len(), n),
            },
        )
    }
}

/// Parse a type-2 event chunk into its raw event list.
pub fn parse_events_chunk(header: &ChunkHeader, body: &[u8], chunk_offset: usize) -> (r: Result<
    Vec<SsqEvent>,
    SsqError,
>)
    ensures
        match events_outcome(*header, body@, chunk_offset) {
            Ok(events) => r is Ok && r->Ok_0@ == events,
            Err(e) => r is Err && r->Err_0@ == e,
        },
{
    let entry_count: usize = header.param3 as usize;
    let expected_body: usize = entry_count * 6;
    if body.len() < expected_body || body.len() > expected_body + 3 {
        let reason = "events body size ".to_owned().concat(
            dec_string(body.len() as u128).as_str(),
        ).concat(" does not match ").concat(dec_string(entry_count as u128).as_str()).concat(
            " entries × 6 bytes (+ up to 3 pad)",
        );
        return Err(SsqError::MalformedChunk { offset: chunk_offset, reason });
    }
    let mut events: Vec<SsqEvent> = Vec::new();
    let mut i: usize = 0;
    while i < entry_count
        invariant
            i <= entry_count,
            entry_count <= 0xFFFF,
            6 * entry_count <= body@.len(),
            events@ =~= events_of(body@, entry_count as nat).subrange(0, i as int),
        decreases entry_count - i,
    {
        let tick: i32 = get_i32(body, 4 * i);
        let code: u8 = body[4 * entry_count + 2 * i];
        let arg: u8 = body[4 * entry_count + 2 * i + 1];
        events.push(SsqEvent { tick, code, arg });
        i = i + 1;
    }
    Ok(events)
}

} // verus!
