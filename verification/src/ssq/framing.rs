//! Written chunks read back.

use super::chunk::{header_at, ChunkHeader};
use super::events::{events_of, events_outcome, SsqEvent};
use super::tempo::{
    first_stall, seconds_of, segments_of, stops_of, tempo_outcome, tempo_pairs, TempoView,
};
use super::steps::{
    difficulty_of, freeze_ends, freeze_start, freezes_of, notes_outcome, split_fault, steps_of,
    steps_outcome, FreezeEntry,
};
use super::writer::{
    chunk_header_bytes, code_of, dword_pad, event_codes, events_chunk, freeze_bytes, i32_column,
    steps_chunk_bytes, tempo_chunk, zeros, TickMask,
};
use super::{dispatched, walked, PartialView, SsqErrorView};
use crate::model::{ChartView, Difficulty, Style};
use crate::util::io::{
    bytes16, bytes32, law_le16_round_trip, law_le32_round_trip, law_signed_round_trip, le16, le32,
    sbytes32, sle32s, word32,
};
use vstd::prelude::*;

verus! {

/// The difficulty code of a chart stands for its style and difficulty.
pub proof fn law_difficulty_code_round_trip(style: Style, difficulty: Difficulty)
    ensures
        difficulty_of(code_of(style, difficulty)) == Some((style, difficulty)),
{
}

/// The fields of a written header, wherever it stands.
pub proof fn lemma_header_read(
    pre: Seq<u8>,
    body_len: nat,
    ty: u16,
    param2: u16,
    count: nat,
    post: Seq<u8>,
)
    requires
        12 + body_len <= u32::MAX,
    ensures
        ({
            let b = pre + chunk_header_bytes(body_len, ty, param2, count) + post;
            let at = pre.len() as int;
            &&& chunk_header_bytes(body_len, ty, param2, count).len() == 12
            &&& le32(b, at) == 12 + body_len
            &&& le16(b, at + 4) == ty
            &&& le16(b, at + 6) == param2
            &&& le16(b, at + 8) == count % 0x1_0000
            &&& le16(b, at + 10) == 0
        }),
{
    let h = chunk_header_bytes(body_len, ty, param2, count);
    let b = pre + h + post;
    let n = pre.len() as int;
    let len = (12 + body_len) as u32;
    let c = (count % 0x1_0000) as u16;
    let tail = bytes16(ty) + bytes16(param2) + bytes16(c) + bytes16(0);
    law_le32_round_trip(pre, len, tail + post);
    assert(pre + bytes32(len) + (tail + post) =~= b);
    law_le16_round_trip(ty);
    law_le16_round_trip(param2);
    law_le16_round_trip(c);
    law_le16_round_trip(0);
    assert(h =~= bytes32(len) + tail);
    assert(b[n + 4] == bytes16(ty)[0] && b[n + 5] == bytes16(ty)[1]);
    assert(b[n + 6] == bytes16(param2)[0] && b[n + 7] == bytes16(param2)[1]);
    assert(b[n + 8] == bytes16(c)[0] && b[n + 9] == bytes16(c)[1]);
    assert(b[n + 10] == bytes16(0)[0] && b[n + 11] == bytes16(0)[1]);
}

/// The header of a written chunk.
pub open spec fn written_header(body_len: nat, ty: u16, param2: u16, count: nat) -> ChunkHeader {
    ChunkHeader {
        length: (12 + body_len) as u32,
        ty,
        param2,
        param3: count as u16,
        param4: 0,
    }
}

/// Walking over a written chunk takes it in.
pub proof fn lemma_walk_chunk(
    pre: Seq<u8>,
    body: Seq<u8>,
    ty: u16,
    param2: u16,
    count: nat,
    post: Seq<u8>,
    before: PartialView,
    after: PartialView,
)
    requires
        12 + body.len() <= u32::MAX,
        (12 + body.len()) % 4 == 0,
        count <= 0xFFFF,
        dispatched(
            written_header(body.len(), ty, param2, count),
            body,
            pre.len() as usize,
            before,
        ) == Ok::<PartialView, SsqErrorView>(after),
    ensures
        ({
            let chunk = chunk_header_bytes(body.len(), ty, param2, count) + body;
            let b = pre + chunk + post;
            walked(b, pre.len() as int, before) == walked(
                b,
                (pre + chunk).len() as int,
                after,
            )
        }),
{
    reveal(walked);
    let h = chunk_header_bytes(body.len(), ty, param2, count);
    let chunk = h + body;
    let b = pre + chunk + post;
    let at = pre.len() as int;
    lemma_header_read(pre, body.len(), ty, param2, count, body + post);
    assert(pre + h + (body + post) =~= b);
    let header = written_header(body.len(), ty, param2, count);
    assert(header_at(b, at) == Ok::<Option<ChunkHeader>, SsqErrorView>(Some(header)));
    assert(b.subrange(at + 12, at + header.length) =~= body);
}

/// A file ends where its terminator stands.
pub proof fn lemma_walk_end(pre: Seq<u8>, p: PartialView)
    ensures
        walked(pre + zeros(4), pre.len() as int, p) == Ok::<PartialView, SsqErrorView>(p),
{
    reveal(walked);
    let b = pre + zeros(4);
    let at = pre.len() as int;
    assert(b[at] == 0 && b[at + 1] == 0 && b[at + 2] == 0 && b[at + 3] == 0);
    assert(le32(b, at) == 0);
}

/// The values of a column, wherever it stands.
pub proof fn lemma_column(pre: Seq<u8>, values: Seq<i32>, post: Seq<u8>)
    ensures
        i32_column(values).len() == 4 * values.len(),
        sle32s(pre + i32_column(values) + post, pre.len() as int, values.len()) == values,
    decreases values.len(),
{
    let n = values.len();
    let all = pre + i32_column(values) + post;
    if n > 0 {
        let init = values.drop_last();
        let last = sbytes32(values.last());
        lemma_column(pre, init, last + post);
        let c = i32_column(init);
        assert(pre + c + (last + post) =~= all);
        law_le32_round_trip(pre + c, word32(values.last()), post);
        assert(pre + c + last + post =~= all);
        law_signed_round_trip(values.last(), 0);
        let read = sle32s(all, pre.len() as int, n);
        assert forall|i: int| 0 <= i < n implies read[i] == values[i] by {
            if i < n - 1 {
                assert(sle32s(all, pre.len() as int, init.len())[i] == init[i]);
            }
        }
        assert(read =~= values);
    } else {
        assert(sle32s(all, pre.len() as int, n) =~= values);
    }
}

/// What the tempo pairs of a modern file say.
pub open spec fn tempo_of(pairs: Seq<(i32, i32)>) -> TempoView {
    TempoView {
        tps: 1000,
        tempo_segments: segments_of(1000, pairs, pairs.len()),
        stops: stops_of(1000, pairs, pairs.len()),
        audio_sync_offset_seconds: seconds_of(pairs[0].1 as int, 1000),
        raw_pairs: pairs,
    }
}

/// Whether tempo pairs can stand in a modern file: they start at tick 0, and
/// time goes on wherever the chart does.
pub open spec fn sound_pairs(pairs: Seq<(i32, i32)>) -> bool {
    &&& 0 < pairs.len() <= 0xFFFF
    &&& pairs[0].0 == 0
    &&& first_stall(pairs, 1) is None
}

/// The body of a tempo chunk.
pub open spec fn tempo_body(pairs: Seq<(i32, i32)>) -> Seq<u8> {
    i32_column(Seq::new(pairs.len(), |i: int| pairs[i].0)) + i32_column(
        Seq::new(pairs.len(), |i: int| pairs[i].1),
    )
}

/// A written tempo chunk gives back its pairs, verbatim.
pub proof fn lemma_tempo_back(pairs: Seq<(i32, i32)>, offset: usize)
    requires
        sound_pairs(pairs),
    ensures
        tempo_body(pairs).len() == 8 * pairs.len(),
        tempo_outcome(
            written_header(8 * pairs.len(), 1, 1000, pairs.len()),
            tempo_body(pairs),
            offset,
        ) == Ok::<TempoView, SsqErrorView>(tempo_of(pairs)),
        tempo_chunk(pairs) == chunk_header_bytes(8 * pairs.len(), 1, 1000, pairs.len())
            + tempo_body(pairs),
{
    let n = pairs.len();
    let ticks = Seq::new(n, |i: int| pairs[i].0);
    let times = Seq::new(n, |i: int| pairs[i].1);
    let none = Seq::<u8>::empty();
    lemma_column(none, ticks, i32_column(times));
    lemma_column(i32_column(ticks), times, none);
    let body = tempo_body(pairs);
    assert(none + i32_column(ticks) + i32_column(times) =~= body);
    assert(i32_column(ticks) + i32_column(times) + none =~= body);
    assert(tempo_pairs(body, n) =~= pairs);
    assert(tempo_chunk(pairs) =~= chunk_header_bytes(8 * n, 1, 1000, n) + body);
}

proof fn lemma_codes(events: Seq<SsqEvent>, i: int)
    requires
        0 <= i < events.len(),
    ensures
        event_codes(events).len() == 2 * events.len(),
        event_codes(events)[2 * i] == events[i].code,
        event_codes(events)[2 * i + 1] == events[i].arg,
    decreases events.len(),
{
    let init = events.drop_last();
    if init.len() > 0 {
        lemma_codes(init, if i < init.len() { i } else { 0 });
    } else {
        assert(event_codes(init).len() == 0);
    }
}

/// The body of an event chunk.
pub open spec fn events_body(events: Seq<SsqEvent>) -> Seq<u8> {
    i32_column(Seq::new(events.len(), |i: int| events[i].tick)) + event_codes(events) + zeros(
        dword_pad(6 * events.len()),
    )
}

/// The events of three sections.
proof fn lemma_events_of(a: Seq<u8>, codes: Seq<u8>, pad: Seq<u8>, events: Seq<SsqEvent>)
    requires
        a == i32_column(Seq::new(events.len(), |i: int| events[i].tick)),
        codes == event_codes(events),
    ensures
        a.len() == 4 * events.len(),
        codes.len() == 2 * events.len(),
        events_of(a + codes + pad, events.len()) == events,
{
    let n = events.len();
    let ticks = Seq::new(n, |i: int| events[i].tick);
    let none = Seq::<u8>::empty();
    lemma_column(none, ticks, codes + pad);
    let body = a + codes + pad;
    assert(none + i32_column(ticks) + (codes + pad) =~= body);
    if n > 0 {
        lemma_codes(events, 0);
    }
    let read = events_of(body, n);
    assert forall|i: int| 0 <= i < n implies read[i] == events[i] by {
        lemma_codes(events, i);
        assert(sle32s(body, 0, n)[i] == ticks[i]);
        assert(body[4 * n + 2 * i] == codes[2 * i]);
        assert(body[4 * n + 2 * i + 1] == codes[2 * i + 1]);
    }
    assert(read =~= events);
}

proof fn lemma_pad(n: nat)
    ensures
        dword_pad(n) <= 3,
        (12 + n + dword_pad(n)) % 4 == 0,
{
}

/// A written event chunk gives back its events, verbatim.
pub proof fn lemma_events_back(events: Seq<SsqEvent>, offset: usize)
    requires
        events.len() <= 0xFFFF,
    ensures
        ({
            let n = events.len();
            let body = events_body(events);
            &&& body.len() == 6 * n + dword_pad(6 * n)
            &&& (12 + body.len()) % 4 == 0
            &&& events_outcome(written_header(body.len(), 2, 1, n), body, offset) == Ok::<
                Seq<SsqEvent>,
                SsqErrorView,
            >(events)
            &&& events_chunk(events) == chunk_header_bytes(body.len(), 2, 1, n) + body
        }),
{
    let n = events.len();
    let a = i32_column(Seq::new(n, |i: int| events[i].tick));
    let codes = event_codes(events);
    let pad = zeros(dword_pad(6 * n));
    lemma_events_of(a, codes, pad, events);
    lemma_pad(6 * n);
    let body = events_body(events);
    assert(body == a + codes + pad);
    assert(body.len() == 6 * n + dword_pad(6 * n));
    let h = chunk_header_bytes(body.len(), 2, 1, n);
    assert(h + a + codes + pad =~= h + body);
}

proof fn lemma_freeze_bytes(freezes: Seq<(u8, u8)>, i: int)
    requires
        0 <= i < freezes.len(),
    ensures
        freeze_bytes(freezes).len() == 2 * freezes.len(),
        freeze_bytes(freezes)[2 * i] == freezes[i].0,
        freeze_bytes(freezes)[2 * i + 1] == freezes[i].1,
    decreases freezes.len(),
{
    let init = freezes.drop_last();
    if init.len() > 0 {
        lemma_freeze_bytes(init, if i < init.len() { i } else { 0 });
    } else {
        assert(freeze_bytes(init).len() == 0);
    }
}

/// The body of a step chunk.
pub open spec fn steps_body(steps: Seq<TickMask>, freezes: Seq<(u8, u8)>) -> Seq<u8> {
    let n = steps.len();
    i32_column(Seq::new(n, |i: int| steps[i].tick)) + Seq::new(n, |i: int| steps[i].mask) + zeros(
        n % 2,
    ) + freeze_bytes(freezes) + zeros(dword_pad(4 * n + n + n % 2 + 2 * freezes.len()))
}

/// The ticks of some steps.
pub open spec fn ticks_of(steps: Seq<TickMask>) -> Seq<i32> {
    Seq::new(steps.len(), |i: int| steps[i].tick)
}

/// The step bytes of some steps.
pub open spec fn masks_of(steps: Seq<TickMask>) -> Seq<u8> {
    Seq::new(steps.len(), |i: int| steps[i].mask)
}

/// Freeze entries as they are read.
pub open spec fn entries_of(freezes: Seq<(u8, u8)>) -> Seq<FreezeEntry> {
    Seq::new(freezes.len(), |i: int| FreezeEntry { panels: freezes[i].0, kind: freezes[i].1 })
}

/// The sections of a step chunk's body.
proof fn lemma_steps_sections(
    a: Seq<u8>,
    m: Seq<u8>,
    z: Seq<u8>,
    f: Seq<u8>,
    pad: Seq<u8>,
    steps: Seq<TickMask>,
    freezes: Seq<(u8, u8)>,
)
    requires
        a == i32_column(ticks_of(steps)),
        m == masks_of(steps),
        z == zeros(steps.len() % 2),
        f == freeze_bytes(freezes),
        freeze_ends(masks_of(steps), steps.len()) == freezes.len(),
    ensures
        ({
            let n = steps.len();
            let body = a + m + z + f + pad;
            &&& a.len() == 4 * n
            &&& f.len() == 2 * freezes.len()
            &&& split_fault(body, n) is None
            &&& sle32s(body, 0, n) == ticks_of(steps)
            &&& steps_of(body, n) == masks_of(steps)
            &&& freezes_of(body, n) == entries_of(freezes)
        }),
{
    let n = steps.len();
    let body = a + m + z + f + pad;
    let none = Seq::<u8>::empty();
    lemma_column(none, ticks_of(steps), m + z + f + pad);
    assert(none + a + (m + z + f + pad) =~= body);
    assert(steps_of(body, n) =~= m);
    if freezes.len() > 0 {
        lemma_freeze_bytes(freezes, 0);
    }
    let start = freeze_start(n) as int;
    assert(start == (a + m + z).len());
    let read = freezes_of(body, n);
    assert forall|i: int| 0 <= i < freezes.len() implies read[i] == entries_of(freezes)[i] by {
        lemma_freeze_bytes(freezes, i);
        assert(body[start + 2 * i] == f[2 * i]);
        assert(body[start + 2 * i + 1] == f[2 * i + 1]);
    }
    assert(read =~= entries_of(freezes));
}

/// A written step chunk gives back its steps and freeze entries: what it parses
/// to is what they stand for.
pub proof fn lemma_steps_back(
    style: Style,
    difficulty: Difficulty,
    steps: Seq<TickMask>,
    freezes: Seq<(u8, u8)>,
    offset: usize,
)
    requires
        steps.len() <= 0xFFFF,
        freeze_ends(masks_of(steps), steps.len()) == freezes.len(),
    ensures
        ({
            let n = steps.len();
            let body = steps_body(steps, freezes);
            let code = code_of(style, difficulty);
            &&& body.len() <= 0x10_0000
            &&& (12 + body.len()) % 4 == 0
            &&& steps_chunk_bytes(code, steps, freezes) == chunk_header_bytes(
                body.len(),
                3,
                code,
                n,
            ) + body
            &&& steps_outcome(written_header(body.len(), 3, code, n), body, offset) == (
            match notes_outcome(
                style,
                ticks_of(steps),
                masks_of(steps),
                entries_of(freezes),
                n,
                offset,
            ) {
                Ok(notes) => Ok::<ChartView, SsqErrorView>(ChartView { style, difficulty, notes }),
                Err(e) => Err(e),
            })
        }),
{
    let n = steps.len();
    let a = i32_column(ticks_of(steps));
    let m = masks_of(steps);
    let z = zeros(n % 2);
    let f = freeze_bytes(freezes);
    let unpadded = 4 * n + n + n % 2 + 2 * freezes.len();
    let pad = zeros(dword_pad(unpadded));
    lemma_steps_sections(a, m, z, f, pad, steps, freezes);
    lemma_pad(unpadded);
    lemma_freeze_count(masks_of(steps), n);
    law_difficulty_code_round_trip(style, difficulty);
    let body = steps_body(steps, freezes);
    assert(ticks_of(steps) =~= Seq::new(n, |i: int| steps[i].tick));
    assert(body == a + m + z + f + pad);
    assert(body.len() == unpadded + dword_pad(unpadded));
    let h = chunk_header_bytes(body.len(), 3, code_of(style, difficulty), n);
    assert(h + a + m + z + f + pad =~= h + body);
}

proof fn lemma_freeze_count(steps: Seq<u8>, n: nat)
    ensures
        freeze_ends(steps, n) <= n,
    decreases n,
{
    if n > 0 {
        lemma_freeze_count(steps, (n - 1) as nat);
    }
}

} // verus!
