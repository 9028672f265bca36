//! What a written stepfile holds: the headers of its chunks, the steps and freezes of
//! its charts, and how far its tempo goes.

use super::chunk::{header_at, ChunkHeader};
use super::events::{events_outcome, SsqEvent};
use super::framing::lemma_header_read;
use super::writer::{
    chunk_header_bytes, dword_pad, event_codes, events_chunk, i32_column, last_chart_end,
    last_note_end, note_end, ssq_file, steps_emitted, tempo_chunk, zeros,
};
use crate::model::rational::{is_lowest, law_arithmetic_is_exact, law_order_is_total, q_lt};
use crate::model::{group_model_values, Beat, ChartView, Note, NoteKind, SongView};
use vstd::prelude::*;

verus! {

/// Whether a beat is where a note is over: where its hold ends, or where it stands.
pub open spec fn is_over(note: Note, end: Beat) -> bool {
    match note.kind {
        NoteKind::HoldHead { length } => is_sum(note.beat, length, end),
        _ => end == note.beat,
    }
}

/// Whether `c` is the sum of `a` and `b`.
pub open spec fn is_sum(a: Beat, b: Beat, c: Beat) -> bool {
    c@.1 > 0 && c@.0 * (a@.1 * b@.1) == (a@.0 * b@.1 + b@.0 * a@.1) * c@.1
}

/// A note is over where it stands, and a hold where it ends.
pub proof fn law_holds_end_after_their_length(note: Note)
    requires
        is_lowest(note.beat@),
        note.kind matches NoteKind::HoldHead { length } ==> is_lowest(length@),
    ensures
        note_end(note) matches Some(end) ==> is_over(note, end),
        !(note.kind is HoldHead) ==> note_end(note) == Some(note.beat),
{
    broadcast use group_model_values;

    if let NoteKind::HoldHead { length } = note.kind {
        law_arithmetic_is_exact(note.beat@, length@);
    }
}

/// Whether the notes of some charts, and their holds, are valid beats.
pub open spec fn valid_beats(notes: Seq<Note>) -> bool {
    forall|i: int|
        0 <= i < notes.len() ==> (#[trigger] note_end(notes[i]) matches Some(end) ==> is_lowest(
            end@,
        ))
}

/// The tempo of a chart reaches as far as the last of its notes: none is over later, and
/// one is over then.
pub proof fn law_last_note_ends_last(notes: Seq<Note>, n: nat, i: int)
    requires
        0 <= i < n <= notes.len(),
        valid_beats(notes),
        note_end(notes[i]) is Some,
    ensures
        last_note_end(notes, n) matches Some(last) && {
            &&& is_lowest(last@)
            &&& !q_lt(last@, (note_end(notes[i])->0)@)
            &&& exists|j: int| 0 <= j < n && #[trigger] note_end(notes[j]) == Some(last)
        },
    decreases n,
{
    let here = note_end(notes[n - 1]);
    let before = last_note_end(notes, (n - 1) as nat);
    lemma_last_is_of_a_note(notes, n);
    lemma_last_is_of_a_note(notes, (n - 1) as nat);
    let mine = note_end(notes[i]);
    if i < n - 1 {
        law_last_note_ends_last(notes, (n - 1) as nat, i);
        if here is Some {
            law_order_is_total(before->0@, here->0@, mine->0@);
            law_order_is_total(mine->0@, before->0@, here->0@);
        }
    } else if before is Some {
        law_order_is_total(before->0@, here->0@, here->0@);
    } else {
        law_order_is_total(here->0@, here->0@, here->0@);
    }
}

proof fn lemma_last_is_of_a_note(notes: Seq<Note>, n: nat)
    requires
        n <= notes.len(),
        valid_beats(notes),
    ensures
        last_note_end(notes, n) matches Some(last) ==> is_lowest(last@) && exists|j: int|
            0 <= j < n && #[trigger] note_end(notes[j]) == Some(last),
    decreases n,
{
    if n > 0 {
        lemma_last_is_of_a_note(notes, (n - 1) as nat);
        let here = note_end(notes[n - 1]);
        assert(0 <= n - 1 < n && note_end(notes[n - 1]) == here);
    }
}

/// The tempo of a song reaches as far as the last of its charts.
pub proof fn law_last_chart_ends_last(charts: Seq<ChartView>, n: nat, c: int, i: int)
    requires
        0 <= c < n <= charts.len(),
        0 <= i < charts[c].notes.len(),
        forall|k: int| 0 <= k < charts.len() ==> valid_beats((#[trigger] charts[k]).notes),
        note_end(charts[c].notes[i]) is Some,
    ensures
        last_chart_end(charts, n) matches Some(last) && is_lowest(last@) && !q_lt(
            last@,
            (note_end(charts[c].notes[i])->0)@,
        ),
    decreases n,
{
    let notes = charts[n - 1].notes;
    let here = last_note_end(notes, notes.len());
    let before = last_chart_end(charts, (n - 1) as nat);
    let mine = note_end(charts[c].notes[i]);
    assert(valid_beats(notes));
    assert(valid_beats(charts[c].notes));
    lemma_last_is_of_a_note(notes, notes.len());
    lemma_last_chart_valid(charts, (n - 1) as nat);
    if c < n - 1 {
        law_last_chart_ends_last(charts, (n - 1) as nat, c, i);
        if here is Some {
            law_order_is_total(before->0@, here->0@, mine->0@);
            law_order_is_total(mine->0@, before->0@, here->0@);
        }
    } else {
        law_last_note_ends_last(notes, notes.len(), i);
        if before is Some {
            law_order_is_total(before->0@, here->0@, mine->0@);
            law_order_is_total(mine->0@, here->0@, before->0@);
        }
    }
}

proof fn lemma_last_chart_valid(charts: Seq<ChartView>, n: nat)
    requires
        n <= charts.len(),
        forall|k: int| 0 <= k < charts.len() ==> valid_beats((#[trigger] charts[k]).notes),
    ensures
        last_chart_end(charts, n) matches Some(last) ==> is_lowest(last@),
    decreases n,
{
    if n > 0 {
        lemma_last_chart_valid(charts, (n - 1) as nat);
        let notes = charts[n - 1].notes;
        assert(valid_beats(notes));
        lemma_last_is_of_a_note(notes, notes.len());
    }
}

/// Every freeze is written with kind 1.
pub proof fn law_freezes_are_of_kind_one(notes: Seq<Note>)
    ensures
        steps_emitted(notes) matches Ok((steps, freezes)) ==> forall|i: int|
            0 <= i < freezes.len() ==> (#[trigger] freezes[i]).1 == 1,
{
}

/// A chunk starts with its length, its type, two parameters and a zero, low byte first.
pub open spec fn starts_chunk(b: Seq<u8>, at: int, ty: int, param: int, count: int) -> bool {
    &&& at + 12 <= b.len()
    &&& ty == b[at + 4] + 0x100 * b[at + 5]
    &&& param == b[at + 6] + 0x100 * b[at + 7]
    &&& count == b[at + 8] + 0x100 * b[at + 9]
    &&& b[at + 10] == 0
    &&& b[at + 11] == 0
}

/// The length that the chunk at `at` states.
pub open spec fn stated_length(b: Seq<u8>, at: int) -> int {
    b[at] + 0x100 * b[at + 1] + 0x1_0000 * b[at + 2] + 0x100_0000 * b[at + 3]
}

/// A written stepfile starts with its tempo, at 1000 ticks to the second, and then its
/// events; four zero bytes end it.
pub proof fn law_tempo_and_events_come_first(
    song: SongView,
    events: Seq<SsqEvent>,
    pairs: Seq<(i32, i32)>,
)
    requires
        0 < pairs.len() <= 0xFFFF,
        events.len() <= 0xFFFF,
    ensures
        ssq_file(song, events, pairs) matches Ok(b) ==> {
            let second = stated_length(b, 0);
            &&& song.tps == 1000
            &&& starts_chunk(b, 0, 1, 1000, pairs.len() as int)
            &&& second == 12 + 8 * pairs.len()
            &&& starts_chunk(b, second, 2, 1, events.len() as int)
            &&& 12 + 6 * events.len() <= stated_length(b, second) < 16 + 6 * events.len()
            &&& b[b.len() - 1] == 0 && b[b.len() - 2] == 0 && b[b.len() - 3] == 0 && b[b.len() - 4]
                == 0
        },
{
    if ssq_file(song, events, pairs) is Ok {
        let b = ssq_file(song, events, pairs)->Ok_0;
        let steps = super::writer::step_chunks(song.charts, song.charts.len())->Ok_0;
        let mines = super::writer::mine_chunks(song.charts, song.charts.len())->Ok_0;
        let tempo = tempo_chunk(pairs);
        let more = events_chunk(events);
        assert(b == tempo + more + steps + mines + zeros(4));
        let first = more + steps + mines + zeros(4);
        let last = steps + mines + zeros(4);
        assert(b =~= tempo + first);
        assert(b =~= tempo + more + last);
        lemma_tempo_head(pairs, first);
        lemma_events_head(tempo, events, last);
        lemma_zero_end(tempo + more + steps + mines);
    }
}

proof fn lemma_zero_end(s: Seq<u8>)
    ensures
        ({
            let b = s + zeros(4);
            b[b.len() - 1] == 0 && b[b.len() - 2] == 0 && b[b.len() - 3] == 0 && b[b.len() - 4] == 0
        }),
{
}

/// A chunk's header, between what stands before it and behind it.
proof fn lemma_head(pre: Seq<u8>, len: nat, ty: u16, param: u16, count: nat, post: Seq<u8>)
    requires
        12 + len <= u32::MAX,
        count <= 0xFFFF,
    ensures
        ({
            let b = pre + chunk_header_bytes(len, ty, param, count) + post;
            &&& starts_chunk(b, pre.len() as int, ty as int, param as int, count as int)
            &&& stated_length(b, pre.len() as int) == 12 + len
        }),
{
    let b = pre + chunk_header_bytes(len, ty, param, count) + post;
    let head = chunk_header_bytes(len, ty, param, count);
    lemma_header_read(pre, len, ty, param, count, post);
    let at = pre.len() as int;
    assert(head[10] == 0 && head[11] == 0);
    assert(b[at + 10] == head[10] && b[at + 11] == head[11]);
}

proof fn lemma_tempo_head(pairs: Seq<(i32, i32)>, rest: Seq<u8>)
    requires
        pairs.len() <= 0xFFFF,
    ensures
        starts_chunk(tempo_chunk(pairs) + rest, 0, 1, 1000, pairs.len() as int),
        stated_length(tempo_chunk(pairs) + rest, 0) == 12 + 8 * pairs.len(),
        tempo_chunk(pairs).len() == 12 + 8 * pairs.len(),
{
    let n = pairs.len();
    let a = i32_column(Seq::new(n, |i: int| pairs[i].0));
    let c = i32_column(Seq::new(n, |i: int| pairs[i].1));
    lemma_column_len(Seq::new(n, |i: int| pairs[i].0));
    lemma_column_len(Seq::new(n, |i: int| pairs[i].1));
    let none = Seq::<u8>::empty();
    let head = chunk_header_bytes(8 * n, 1, 1000, n);
    lemma_head(none, 8 * n, 1, 1000, n, a + c + rest);
    assert(none + head + (a + c + rest) =~= tempo_chunk(pairs) + rest);
}

proof fn lemma_events_head(before: Seq<u8>, events: Seq<SsqEvent>, rest: Seq<u8>)
    requires
        events.len() <= 0xFFFF,
    ensures
        ({
            let b = before + events_chunk(events) + rest;
            let at = before.len() as int;
            &&& starts_chunk(b, at, 2, 1, events.len() as int)
            &&& 12 + 6 * events.len() <= stated_length(b, at) < 16 + 6 * events.len()
        }),
{
    let n = events.len();
    let pad = dword_pad(6 * n);
    let a = i32_column(Seq::new(n, |i: int| events[i].tick));
    let c = event_codes(events);
    let head = chunk_header_bytes(6 * n + pad, 2, 1, n);
    let post = a + c + zeros(pad) + rest;
    lemma_head(before, 6 * n + pad, 2, 1, n, post);
    assert(before + head + post =~= before + events_chunk(events) + rest);
}

proof fn lemma_column_len(values: Seq<i32>)
    ensures
        i32_column(values).len() == 4 * values.len(),
    decreases values.len(),
{
    if values.len() > 0 {
        lemma_column_len(values.drop_last());
    }
}

/// A chunk that states fewer than its own twelve bytes, or no multiple of four, is
/// refused, as are events that do not fill their chunk up to three bytes.
pub proof fn law_ill_sized_chunks_are_refused(b: Seq<u8>, at: int, h: ChunkHeader, body: Seq<u8>)
    requires
        0 <= at,
        at + 12 <= b.len(),
    ensures
        0 < stated_length(b, at) < 12 ==> header_at(b, at) is Err,
        stated_length(b, at) % 4 != 0 ==> header_at(b, at) is Err,
        stated_length(b, at) >= 12 && stated_length(b, at) % 4 == 0 ==> header_at(b, at) is Ok,
        body.len() < 6 * h.param3 || body.len() > 6 * h.param3 + 3 ==> events_outcome(
            h,
            body,
            at as usize,
        ) is Err,
{
}

} // verus!
