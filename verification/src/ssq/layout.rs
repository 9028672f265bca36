//! The layout of a written file.

use super::events::SsqEvent;
use super::framing::lemma_column;
use super::mines::{mine_body, mine_chunk, mine_entries};
use super::writer::{
    chunk_header_bytes, code_of, dword_pad, event_codes, events_chunk, freeze_bytes, i32_column,
    mine_chunks, ssq_file, step_chunks, steps_chunk, steps_chunk_bytes, steps_emitted, tempo_chunk,
    written_pairs, zeros, TickMask,
};
use crate::model::{ChartView, SongView};
use vstd::prelude::*;

verus! {

pub proof fn lemma_column_len(values: Seq<i32>)
    ensures
        i32_column(values).len() == 4 * values.len(),
{
    lemma_column(Seq::empty(), values, Seq::empty());
}

proof fn lemma_codes_len(events: Seq<SsqEvent>)
    ensures
        event_codes(events).len() == 2 * events.len(),
    decreases events.len(),
{
    if events.len() > 0 {
        lemma_codes_len(events.drop_last());
    }
}

pub proof fn lemma_freezes_len(freezes: Seq<(u8, u8)>)
    ensures
        freeze_bytes(freezes).len() == 2 * freezes.len(),
    decreases freezes.len(),
{
    if freezes.len() > 0 {
        lemma_freezes_len(freezes.drop_last());
    }
}

pub proof fn lemma_mine_body_len(entries: Seq<(i32, u8)>, n: nat)
    ensures
        mine_body(entries, n).len() == 8 * n,
    decreases n,
{
    if n > 0 {
        lemma_mine_body_len(entries, (n - 1) as nat);
    }
}

proof fn lemma_header_len(body_len: nat, ty: u16, param2: u16, count: nat)
    ensures
        chunk_header_bytes(body_len, ty, param2, count).len() == 12,
{
}

/// Padding fills up the last word.
proof fn lemma_padded(n: nat)
    ensures
        (12 + n + zeros(dword_pad(n)).len()) % 4 == 0,
{
}

proof fn lemma_steps_aligned(code: u16, steps: Seq<TickMask>, freezes: Seq<(u8, u8)>)
    ensures
        steps_chunk_bytes(code, steps, freezes).len() % 4 == 0,
{
    lemma_column_len(Seq::new(steps.len(), |i: int| steps[i].tick));
    lemma_freezes_len(freezes);
}

proof fn lemma_step_chunk_aligned(chart: ChartView)
    ensures
        steps_chunk(chart) matches Ok(b) ==> b.len() % 4 == 0,
{
    reveal(steps_chunk);
    if let Ok((steps, freezes)) = steps_emitted(chart.notes) {
        lemma_steps_aligned(code_of(chart.style, chart.difficulty), steps, freezes);
    }
}

proof fn lemma_step_chunks_aligned(charts: Seq<ChartView>, n: nat)
    ensures
        step_chunks(charts, n) matches Ok(b) ==> b.len() % 4 == 0,
    decreases n,
{
    if n > 0 {
        lemma_step_chunks_aligned(charts, (n - 1) as nat);
        lemma_step_chunk_aligned(charts[n - 1]);
    }
}

proof fn lemma_mine_chunk_aligned(chart: ChartView)
    ensures
        mine_chunk(chart) matches Ok(b) ==> b.len() % 4 == 0,
{
    reveal(mine_chunk);
    if let Ok(entries) = mine_entries(chart.notes, chart.notes.len()) {
        lemma_mine_body_len(entries, entries.len());
        lemma_header_len(
            8 * entries.len(),
            20,
            code_of(chart.style, chart.difficulty),
            entries.len(),
        );
    }
}

proof fn lemma_mine_chunks_aligned(charts: Seq<ChartView>, n: nat)
    ensures
        mine_chunks(charts, n) matches Ok(b) ==> b.len() % 4 == 0,
    decreases n,
{
    if n > 0 {
        lemma_mine_chunks_aligned(charts, (n - 1) as nat);
        lemma_mine_chunk_aligned(charts[n - 1]);
    }
}

proof fn lemma_tempo_aligned(entries: Seq<(i32, i32)>)
    ensures
        tempo_chunk(entries).len() % 4 == 0,
{
    lemma_column_len(Seq::new(entries.len(), |i: int| entries[i].0));
    lemma_column_len(Seq::new(entries.len(), |i: int| entries[i].1));
}

proof fn lemma_events_aligned(events: Seq<SsqEvent>)
    ensures
        events_chunk(events).len() % 4 == 0,
{
    let n = events.len();
    let ticks = i32_column(Seq::new(n, |i: int| events[i].tick));
    lemma_column_len(Seq::new(n, |i: int| events[i].tick));
    lemma_codes_len(events);
    lemma_padded(6 * n);
    let pad = zeros(dword_pad(6 * n));
    let h = chunk_header_bytes(6 * n + dword_pad(6 * n), 2, 1, n);
    lemma_header_len(6 * n + dword_pad(6 * n), 2, 1, n);
    lemma_sum_len(h, ticks, event_codes(events), pad);
}

proof fn lemma_sum_len(a: Seq<u8>, b: Seq<u8>, c: Seq<u8>, d: Seq<u8>)
    ensures
        (a + b + c + d).len() == a.len() + b.len() + c.len() + d.len(),
{
}

proof fn lemma_join_aligned(a: Seq<u8>, b: Seq<u8>, c: Seq<u8>, d: Seq<u8>)
    requires
        a.len() % 4 == 0,
        b.len() % 4 == 0,
        c.len() % 4 == 0,
        d.len() % 4 == 0,
    ensures
        ({
            let all = a + b + c + d + zeros(4);
            all.len() % 4 == 0 && all.len() >= 4 && all.subrange(all.len() - 4, all.len() as int)
                == zeros(4)
        }),
{
    let all = a + b + c + d + zeros(4);
    assert(all.subrange(all.len() - 4, all.len() as int) =~= zeros(4));
}

/// A written file consists of whole 32-bit words, so that every chunk starts at
/// a multiple of four, and ends in the zero word that terminates it.
pub proof fn law_ssq_is_aligned(song: SongView, events: Seq<SsqEvent>, raw_pairs: Seq<(i32, i32)>)
    ensures
        ssq_file(song, events, raw_pairs) matches Ok(b) ==> b.len() % 4 == 0 && b.len() >= 4
            && b.subrange(b.len() - 4, b.len() as int) == zeros(4),
{
    let charts = song.charts;
    let n = charts.len();
    lemma_step_chunks_aligned(charts, n);
    lemma_mine_chunks_aligned(charts, n);
    if ssq_file(song, events, raw_pairs) is Ok {
        let entries = written_pairs(song, raw_pairs)->Ok_0;
        lemma_tempo_aligned(entries);
        lemma_events_aligned(events);
        lemma_join_aligned(
            tempo_chunk(entries),
            events_chunk(events),
            step_chunks(charts, n)->Ok_0,
            mine_chunks(charts, n)->Ok_0,
        );
    }
}

} // verus!
