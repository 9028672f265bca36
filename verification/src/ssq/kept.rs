//! What every file that was written and can be read gives back.

use super::chunk::{header_at, ChunkHeader};
use super::events::SsqEvent;
use super::framing::{
    events_body, law_difficulty_code_round_trip, lemma_column, lemma_events_back, lemma_header_read,
    lemma_walk_end, tempo_body, written_header,
};
use super::layout::{lemma_column_len, lemma_freezes_len, lemma_mine_body_len};
use super::mines::{mine_body, mine_chunk, mine_entries};
use super::tempo::{tempo_outcome, tempo_pairs};
use super::writer::{
    chunk_header_bytes, code_of, dword_pad, events_chunk, freeze_bytes, i32_column, mine_chunks,
    ssq_file, step_chunks, steps_chunk, steps_chunk_bytes, steps_emitted, tempo_chunk, zeros,
    TickMask,
};
use super::{
    chart_with_code, dispatched, mines_attached, nothing_seen, ssq_outcome, walked, with_tempo,
    PartialView, SsqErrorView,
};
use crate::model::{ChartView, Note, SongView};
use crate::util::io::{le16, le32};
use vstd::prelude::*;

verus! {

/// Whether two lists of charts have the same styles and difficulties.
pub open spec fn same_codes(a: Seq<ChartView>, b: Seq<ChartView>) -> bool {
    &&& a.len() == b.len()
    &&& forall|i: int|
        0 <= i < a.len() ==> (#[trigger] a[i]).style == b[i].style && a[i].difficulty
            == b[i].difficulty
}

/// Whether the length of every chunk of the charts fits the field that holds it.
pub open spec fn chunks_fit(charts: Seq<ChartView>) -> bool {
    forall|i: int|
        0 <= i < charts.len() ==> {
            &&& (steps_chunk(#[trigger] charts[i]) matches Ok(c) ==> c.len() <= u32::MAX)
            &&& (mine_chunk(charts[i]) matches Ok(c) ==> c.len() <= u32::MAX)
        }
}

/// Whether bytes are a chunk of a type with a parameter.
spec fn is_chunk(c: Seq<u8>, ty: u16, param2: u16) -> bool {
    &&& 12 <= c.len() <= u32::MAX
    &&& c.len() % 4 == 0
    &&& le32(c, 0) == c.len()
    &&& le16(c, 4) == ty
    &&& le16(c, 6) == param2
}

/// The header of a chunk.
spec fn header_of(c: Seq<u8>) -> ChunkHeader {
    ChunkHeader {
        length: le32(c, 0),
        ty: le16(c, 4),
        param2: le16(c, 6),
        param3: le16(c, 8),
        param4: le16(c, 10),
    }
}

/// What follows once a chunk has been taken in, if it can be.
spec fn onward(
    b: Seq<u8>,
    at: int,
    taken: Result<PartialView, SsqErrorView>,
) -> Result<PartialView, SsqErrorView> {
    match taken {
        Err(e) => Err(e),
        Ok(q) => walked(b, at, q),
    }
}

/// Walking over a chunk.
proof fn lemma_walk_any(pre: Seq<u8>, c: Seq<u8>, post: Seq<u8>, p: PartialView, ty: u16, param2: u16)
    requires
        is_chunk(c, ty, param2),
    ensures
        walked(pre + c + post, pre.len() as int, p) == onward(
            pre + c + post,
            (pre + c).len() as int,
            dispatched(
                header_of(c),
                c.subrange(12, c.len() as int),
                pre.len() as usize,
                p,
            ),
        ),
{
    reveal(walked);
    let b = pre + c + post;
    let at = pre.len() as int;
    assert forall|k: int| 0 <= k < c.len() implies b[at + k] == c[k] by {}
    assert(b[at] == c[0] && b[at + 1] == c[1] && b[at + 2] == c[2] && b[at + 3] == c[3]);
    assert(b[at + 4] == c[4] && b[at + 5] == c[5] && b[at + 6] == c[6] && b[at + 7] == c[7]);
    assert(b[at + 8] == c[8] && b[at + 9] == c[9] && b[at + 10] == c[10] && b[at + 11] == c[11]);
    assert(header_at(b, at) == Ok::<Option<ChunkHeader>, SsqErrorView>(Some(header_of(c))));
    assert(b.subrange(at + 12, at + c.len()) =~= c.subrange(12, c.len() as int));
}

/// A header with its body is a chunk.
proof fn lemma_is_chunk(body: Seq<u8>, ty: u16, param2: u16, count: nat)
    requires
        12 + body.len() <= u32::MAX,
        (12 + body.len()) % 4 == 0,
    ensures
        is_chunk(chunk_header_bytes(body.len(), ty, param2, count) + body, ty, param2),
        ({
            let c = chunk_header_bytes(body.len(), ty, param2, count) + body;
            &&& c.len() == 12 + body.len()
            &&& c.subrange(12, c.len() as int) == body
            &&& count <= 0xFFFF ==> header_of(c) == written_header(body.len(), ty, param2, count)
        }),
{
    let none = Seq::<u8>::empty();
    let h = chunk_header_bytes(body.len(), ty, param2, count);
    lemma_header_read(none, body.len(), ty, param2, count, body);
    assert(none + h + body =~= h + body);
    assert((h + body).subrange(12, (h + body).len() as int) =~= body);
}

/// A tempo chunk gives back its pairs, wherever it can be read.
proof fn lemma_pairs_back(pairs: Seq<(i32, i32)>, offset: usize)
    requires
        pairs.len() <= 0xFFFF,
    ensures
        tempo_body(pairs).len() == 8 * pairs.len(),
        tempo_chunk(pairs) == chunk_header_bytes(8 * pairs.len(), 1, 1000, pairs.len())
            + tempo_body(pairs),
        tempo_outcome(
            written_header(8 * pairs.len(), 1, 1000, pairs.len()),
            tempo_body(pairs),
            offset,
        ) matches Ok(t) ==> t.raw_pairs == pairs && t.tps == 1000,
{
    let n = pairs.len();
    let ticks = Seq::new(n, |i: int| pairs[i].0);
    let times = Seq::new(n, |i: int| pairs[i].1);
    let none = Seq::<u8>::empty();
    lemma_column(none, ticks, i32_column(times));
    lemma_column(i32_column(ticks), times, none);
    let body = tempo_body(pairs);
    assert(none + i32_column(ticks) + i32_column(times) =~= body);
    assert(i32_column(ticks) + i32_column(times) + none =~= body);
    assert(tempo_pairs(body, n) =~= pairs);
    assert(tempo_chunk(pairs) =~= chunk_header_bytes(8 * n, 1, 1000, n) + body);
}

/// The song once its tempo and events have been read, the rest untouched.
spec fn begun(p: PartialView, pairs: Seq<(i32, i32)>, events: Seq<SsqEvent>) -> bool {
    &&& p.tps == 1000
    &&& p.raw_tempo_pairs == pairs
    &&& p.events == events
    &&& p.aux_chunks_dropped.len() == 0
}

/// A tempo chunk is taken in as its parser has it.
proof fn lemma_tempo_dispatched(head: ChunkHeader, body: Seq<u8>, pairs: Seq<(i32, i32)>)
    requires
        head.ty == 1,
        tempo_outcome(head, body, 0) matches Ok(t) ==> t.raw_pairs == pairs && t.tps == 1000,
    ensures
        dispatched(head, body, 0, nothing_seen()) matches Ok(q) ==> begun(q, pairs, Seq::empty())
            && q.charts.len() == 0 && !q.events_seen,
{
    let outcome = tempo_outcome(head, body, 0);
    assert(dispatched(head, body, 0, nothing_seen()) == match outcome {
        Ok(t) => Ok::<PartialView, SsqErrorView>(with_tempo(nothing_seen(), t)),
        Err(e) => Err(e),
    }) by {
        reveal(dispatched);
    }
}

/// Taking in the tempo chunk.
proof fn lemma_tempo_taken(pairs: Seq<(i32, i32)>)
    requires
        pairs.len() <= 0xFFFF,
    ensures
        is_chunk(tempo_chunk(pairs), 1, 1000),
        ({
            let c = tempo_chunk(pairs);
            dispatched(header_of(c), c.subrange(12, c.len() as int), 0, nothing_seen()) matches Ok(
                q,
            ) ==> begun(q, pairs, Seq::empty()) && q.charts.len() == 0 && !q.events_seen
        }),
{
    lemma_pairs_back(pairs, 0);
    lemma_is_chunk(tempo_body(pairs), 1, 1000, pairs.len());
    let head = written_header(8 * pairs.len(), 1, 1000, pairs.len());
    lemma_tempo_dispatched(head, tempo_body(pairs), pairs);
}

/// Taking in the event chunk.
proof fn lemma_events_taken(events: Seq<SsqEvent>, offset: usize, q: PartialView)
    requires
        events.len() <= 0xFFFF,
        !q.events_seen,
    ensures
        is_chunk(events_chunk(events), 2, 1),
        ({
            let c = events_chunk(events);
            dispatched(header_of(c), c.subrange(12, c.len() as int), offset, q) == Ok::<
                PartialView,
                SsqErrorView,
            >(PartialView { events, events_seen: true, ..q })
        }),
{
    lemma_events_back(events, offset);
    lemma_is_chunk(events_body(events), 2, 1, events.len());
    reveal(dispatched);
}

proof fn lemma_head_kept(pairs: Seq<(i32, i32)>, events: Seq<SsqEvent>, post: Seq<u8>)
    requires
        pairs.len() <= 0xFFFF,
        events.len() <= 0xFFFF,
        walked(tempo_chunk(pairs) + events_chunk(events) + post, 0, nothing_seen()) is Ok,
    ensures
        exists|p: PartialView|
            begun(p, pairs, events) && p.charts.len() == 0 && #[trigger] walked(
                tempo_chunk(pairs) + events_chunk(events) + post,
                (tempo_chunk(pairs) + events_chunk(events)).len() as int,
                p,
            ) == walked(tempo_chunk(pairs) + events_chunk(events) + post, 0, nothing_seen()),
{
    let none = Seq::<u8>::empty();
    let t = tempo_chunk(pairs);
    let e = events_chunk(events);
    let b = t + e + post;
    lemma_tempo_taken(pairs);
    lemma_walk_any(none, t, e + post, nothing_seen(), 1, 1000);
    assert(none + t + (e + post) =~= b);
    assert(none + t =~= t);
    let q = dispatched(
        header_of(t),
        t.subrange(12, t.len() as int),
        0,
        nothing_seen(),
    )->Ok_0;
    lemma_events_taken(events, t.len() as usize, q);
    lemma_walk_any(t, e, post, q, 2, 1);
    let p = PartialView { events, events_seen: true, ..q };
    assert(begun(p, pairs, events));
    assert(walked(b, (t + e).len() as int, p) == walked(b, 0, nothing_seen()));
}

proof fn lemma_pad_words(n: nat)
    ensures
        (12 + n + zeros(dword_pad(n)).len()) % 4 == 0,
        zeros(dword_pad(n)).len() == dword_pad(n),
{
}

proof fn lemma_steps_is_chunk(chart: ChartView)
    requires
        steps_chunk(chart) is Ok,
        steps_chunk(chart)->Ok_0.len() <= u32::MAX,
    ensures
        is_chunk(steps_chunk(chart)->Ok_0, 3, code_of(chart.style, chart.difficulty)),
{
    reveal(steps_chunk);
    let (steps, freezes) = steps_emitted(chart.notes)->Ok_0;
    let code = code_of(chart.style, chart.difficulty);
    lemma_steps_bytes(code, steps, freezes);
}

proof fn lemma_steps_bytes(code: u16, steps: Seq<TickMask>, freezes: Seq<(u8, u8)>)
    ensures
        steps_chunk_bytes(code, steps, freezes).len() <= u32::MAX ==> is_chunk(
            steps_chunk_bytes(code, steps, freezes),
            3,
            code,
        ),
{
    let n = steps.len();
    let unpadded = 4 * n + n + n % 2 + 2 * freezes.len();
    let pad = dword_pad(unpadded);
    let ticks = i32_column(Seq::new(n, |i: int| steps[i].tick));
    let masks = Seq::new(n, |i: int| steps[i].mask);
    lemma_column_len(Seq::new(n, |i: int| steps[i].tick));
    lemma_freezes_len(freezes);
    lemma_pad_words(unpadded);
    let body = ticks + masks + zeros(n % 2) + freeze_bytes(freezes) + zeros(pad);
    assert(body.len() == unpadded + pad);
    let h = chunk_header_bytes(body.len(), 3, code, n);
    lemma_header_read(Seq::empty(), 0, 3, code, n, Seq::empty());
    assert(steps_chunk_bytes(code, steps, freezes) =~= h + body);
    if 12 + body.len() <= u32::MAX {
        lemma_is_chunk(body, 3, code, n);
    }
}

proof fn lemma_mines_is_chunk(chart: ChartView)
    requires
        mine_chunk(chart) is Ok,
        0 < mine_chunk(chart)->Ok_0.len() <= u32::MAX,
    ensures
        is_chunk(mine_chunk(chart)->Ok_0, 20, code_of(chart.style, chart.difficulty)),
{
    reveal(mine_chunk);
    let entries = mine_entries(chart.notes, chart.notes.len())->Ok_0;
    let code = code_of(chart.style, chart.difficulty);
    let body = mine_body(entries, entries.len());
    lemma_mine_body_len(entries, entries.len());
    lemma_header_read(Seq::empty(), 0, 20, code, entries.len(), Seq::empty());
    lemma_is_chunk(body, 20, code, entries.len());
}

/// Taking in a step chunk adds a chart with its style and difficulty.
proof fn lemma_steps_taken(c: Seq<u8>, chart: ChartView, offset: usize, p: PartialView)
    requires
        is_chunk(c, 3, code_of(chart.style, chart.difficulty)),
    ensures
        dispatched(header_of(c), c.subrange(12, c.len() as int), offset, p) matches Ok(q) ==> {
            &&& q.charts.len() == p.charts.len() + 1
            &&& q.charts.drop_last() == p.charts
            &&& q.charts.last().style == chart.style
            &&& q.charts.last().difficulty == chart.difficulty
            &&& q == (PartialView { charts: q.charts, ..p })
        },
{
    reveal(dispatched);
    law_difficulty_code_round_trip(chart.style, chart.difficulty);
    if let Ok(q) = dispatched(header_of(c), c.subrange(12, c.len() as int), offset, p) {
        assert(q.charts.drop_last() =~= p.charts);
    }
}

/// The charts of the first `n` step chunks.
proof fn lemma_steps_kept(
    head: Seq<u8>,
    charts: Seq<ChartView>,
    n: nat,
    post: Seq<u8>,
    p: PartialView,
)
    requires
        n <= charts.len(),
        step_chunks(charts, n) is Ok,
        chunks_fit(charts),
        p.charts.len() == 0,
        walked(head + step_chunks(charts, n)->Ok_0 + post, head.len() as int, p) is Ok,
    ensures
        ({
            let chunks = step_chunks(charts, n)->Ok_0;
            let b = head + chunks + post;
            exists|q: PartialView|
                same_codes(q.charts, charts.subrange(0, n as int)) && q == (PartialView {
                    charts: q.charts,
                    ..p
                }) && #[trigger] walked(b, (head + chunks).len() as int, q) == walked(
                    b,
                    head.len() as int,
                    p,
                )
        }),
    decreases n,
{
    let chunks = step_chunks(charts, n)->Ok_0;
    let b = head + chunks + post;
    if n == 0 {
        assert(head + chunks =~= head);
        assert(same_codes(p.charts, charts.subrange(0, 0)));
        assert(p == (PartialView { charts: p.charts, ..p }));
        assert(walked(b, (head + chunks).len() as int, p) == walked(b, head.len() as int, p));
    } else {
        let before = step_chunks(charts, (n - 1) as nat)->Ok_0;
        let c = steps_chunk(charts[n - 1])->Ok_0;
        assert(head + before + (c + post) =~= b);
        assert(head + before + c + post =~= b);
        assert(head + before + c =~= head + chunks);
        lemma_steps_kept(head, charts, (n - 1) as nat, c + post, p);
        let q = choose|q: PartialView|
            same_codes(q.charts, charts.subrange(0, n - 1)) && q == (PartialView {
                charts: q.charts,
                ..p
            }) && #[trigger] walked(b, (head + before).len() as int, q) == walked(
                b,
                head.len() as int,
                p,
            );
        lemma_steps_is_chunk(charts[n - 1]);
        let code = code_of(charts[n - 1].style, charts[n - 1].difficulty);
        lemma_walk_any(head + before, c, post, q, 3, code);
        lemma_steps_taken(c, charts[n - 1], (head + before).len() as usize, q);
        let taken = dispatched(
            header_of(c),
            c.subrange(12, c.len() as int),
            (head + before).len() as usize,
            q,
        );
        let r = taken->Ok_0;
        assert(same_codes(r.charts, charts.subrange(0, n as int))) by {
            assert forall|i: int| 0 <= i < r.charts.len() implies (#[trigger] r.charts[i]).style
                == charts.subrange(0, n as int)[i].style && r.charts[i].difficulty
                == charts.subrange(0, n as int)[i].difficulty by {
                if i < n - 1 {
                    assert(r.charts.drop_last()[i] == r.charts[i]);
                    assert(q.charts[i].style == charts.subrange(0, n - 1)[i].style);
                }
            }
        }
        assert(walked(b, (head + chunks).len() as int, r) == walked(b, head.len() as int, p));
    }
}

/// Mine chunks change nothing but the mines that wait for their charts.
proof fn lemma_mines_kept(
    head: Seq<u8>,
    charts: Seq<ChartView>,
    n: nat,
    post: Seq<u8>,
    p: PartialView,
)
    requires
        n <= charts.len(),
        mine_chunks(charts, n) is Ok,
        chunks_fit(charts),
    ensures
        ({
            let chunks = mine_chunks(charts, n)->Ok_0;
            let b = head + chunks + post;
            exists|q: PartialView|
                q == (PartialView { pending_mine_chunks: q.pending_mine_chunks, ..p })
                    && #[trigger] walked(b, (head + chunks).len() as int, q) == walked(
                    b,
                    head.len() as int,
                    p,
                )
        }),
    decreases n,
{
    let chunks = mine_chunks(charts, n)->Ok_0;
    let b = head + chunks + post;
    if n == 0 {
        assert(head + chunks =~= head);
        assert(p == (PartialView { pending_mine_chunks: p.pending_mine_chunks, ..p }));
        assert(walked(b, (head + chunks).len() as int, p) == walked(b, head.len() as int, p));
    } else {
        let before = mine_chunks(charts, (n - 1) as nat)->Ok_0;
        let c = mine_chunk(charts[n - 1])->Ok_0;
        assert(head + before + (c + post) =~= b);
        assert(head + before + c + post =~= b);
        assert(head + before + c =~= head + chunks);
        lemma_mines_kept(head, charts, (n - 1) as nat, c + post, p);
        let q = choose|q: PartialView|
            q == (PartialView { pending_mine_chunks: q.pending_mine_chunks, ..p })
                && #[trigger] walked(b, (head + before).len() as int, q) == walked(
                b,
                head.len() as int,
                p,
            );
        if c.len() == 0 {
            assert(head + before =~= head + chunks);
            assert(walked(b, (head + chunks).len() as int, q) == walked(b, head.len() as int, p));
        } else {
            lemma_mines_is_chunk(charts[n - 1]);
            let code = code_of(charts[n - 1].style, charts[n - 1].difficulty);
            lemma_walk_any(head + before, c, post, q, 20, code);
            let taken = dispatched(
                header_of(c),
                c.subrange(12, c.len() as int),
                (head + before).len() as usize,
                q,
            );
            assert(taken is Ok && taken->Ok_0 == (PartialView {
                pending_mine_chunks: taken->Ok_0.pending_mine_chunks,
                ..q
            })) by {
                reveal(dispatched);
            }
            let r = taken->Ok_0;
            assert(walked(b, (head + chunks).len() as int, r) == walked(b, head.len() as int, p));
        }
    }
}

/// Mines that are put back leave the styles and difficulties alone.
proof fn lemma_attached_codes(charts: Seq<ChartView>, pending: Seq<(u16, Seq<Note>)>, n: nat)
    ensures
        same_codes((mines_attached(charts, pending, n)).0, charts),
    decreases n,
{
    if n > 0 {
        lemma_attached_codes(charts, pending, (n - 1) as nat);
        let (now, done) = mines_attached(charts, pending, (n - 1) as nat);
        let after = (mines_attached(charts, pending, n)).0;
        let (code, notes) = pending[n - 1];
        lemma_code_found(now, code, 0);
        assert forall|i: int| 0 <= i < after.len() implies (#[trigger] after[i]).style
            == charts[i].style && after[i].difficulty == charts[i].difficulty by {
            assert(now[i].style == charts[i].style);
        }
    }
}

proof fn lemma_code_found(charts: Seq<ChartView>, code: u16, i: int)
    requires
        0 <= i,
    ensures
        chart_with_code(charts, code, i) matches Some(k) ==> i <= k < charts.len(),
    decreases charts.len() - i,
{
    if i < charts.len() {
        lemma_code_found(charts, code, i + 1);
    }
}

/// Every file that was written and can be read, its chunks no longer than their
/// length fields can say, gives back the tempo pairs and the
/// events verbatim and the charts' styles and difficulties in order, runs at 1000
/// ticks per second, and holds nothing that is left out.
pub proof fn law_written_files_keep_tempo_and_events(
    song: SongView,
    events: Seq<SsqEvent>,
    pairs: Seq<(i32, i32)>,
)
    requires
        0 < pairs.len() <= 0xFFFF,
        events.len() <= 0xFFFF,
        ssq_file(song, events, pairs) is Ok,
        chunks_fit(song.charts),
    ensures
        ssq_outcome(ssq_file(song, events, pairs)->Ok_0) matches Ok(r) ==> {
            &&& r.raw_tempo_pairs == pairs
            &&& r.events == events
            &&& r.tps == 1000
            &&& r.aux_chunks_dropped.len() == 0
            &&& same_codes(r.charts, song.charts)
        },
{
    let charts = song.charts;
    let n = charts.len();
    let head = tempo_chunk(pairs) + events_chunk(events);
    let steps = step_chunks(charts, n)->Ok_0;
    let mines = mine_chunks(charts, n)->Ok_0;
    let b = ssq_file(song, events, pairs)->Ok_0;
    assert(b == head + steps + mines + zeros(4));
    assert(head + (steps + mines + zeros(4)) =~= b);
    assert(head + steps + (mines + zeros(4)) =~= b);
    let all = walked(b, 0, nothing_seen());
    if all is Ok {
        lemma_head_kept(pairs, events, steps + mines + zeros(4));
        let p = choose|p: PartialView|
            begun(p, pairs, events) && p.charts.len() == 0 && #[trigger] walked(
                b,
                head.len() as int,
                p,
            ) == all;
        lemma_steps_kept(head, charts, n, mines + zeros(4), p);
        let q = choose|q: PartialView|
            same_codes(q.charts, charts.subrange(0, n as int)) && q == (PartialView {
                charts: q.charts,
                ..p
            }) && #[trigger] walked(b, (head + steps).len() as int, q) == walked(
                b,
                head.len() as int,
                p,
            );
        lemma_mines_kept(head + steps, charts, n, zeros(4), q);
        let m = choose|m: PartialView|
            m == (PartialView { pending_mine_chunks: m.pending_mine_chunks, ..q })
                && #[trigger] walked(b, (head + steps + mines).len() as int, m) == walked(
                b,
                (head + steps).len() as int,
                q,
            );
        lemma_walk_end(head + steps + mines, m);
        assert(all == Ok::<PartialView, SsqErrorView>(m));
        assert(charts.subrange(0, n as int) =~= charts);
        lemma_attached_codes(m.charts, m.pending_mine_chunks, m.pending_mine_chunks.len());
    }
}

} // verus!
