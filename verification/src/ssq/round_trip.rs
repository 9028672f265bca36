//! A stepfile that is written reads back as the same charts, events and tempo.

use super::chunk::ChunkHeader;
use super::events::SsqEvent;
use super::framing::{
    events_body, lemma_events_back, lemma_steps_back, lemma_tempo_back, lemma_walk_chunk,
    lemma_walk_end, sound_pairs, steps_body, tempo_body, tempo_of, written_header,
};
use super::mines_round_trip::{
    at_ticks, hits_from, lemma_mine_chunk_back, lemma_mines_put_back, lemma_steps_skip_mines,
    mines_body, mines_last, mines_upto,
};
use super::mines::{mine_chunk, mine_entries, mines_outcome};
use super::steps::steps_outcome;
use super::steps_round_trip::{law_steps_round_trip, stepwise};
use super::writer::{
    chunk_header_bytes, code_of, events_chunk, mine_chunks, ssq_file, step_chunks, steps_chunk,
    steps_emitted, tempo_chunk, written_pairs, zeros,
};
use super::{
    chart_with_code, dispatched, finalized, mines_attached, nothing_seen, ssq_outcome, walked,
    with_mines, with_tempo, PartialView, SsqErrorView, SsqView,
};
use crate::model::{ChartView, Note, SongView};
use vstd::prelude::*;

verus! {

/// Whether a step chunk and a mine chunk can hold a chart as it is.
#[verifier::opaque]
pub open spec fn storable(chart: ChartView) -> bool {
    &&& at_ticks(chart.notes, chart.style)
    &&& mines_last(chart.notes)
    &&& stepwise(hits_from(chart.notes, 0), chart.style)
    &&& (steps_emitted(chart.notes)->Ok_0).0.len() <= 0xFFFF
    &&& mines_upto(chart.notes, chart.notes.len()).len() <= 0xFFFF
}

/// Whether every chart can be stored, and no two have the same style and
/// difficulty.
pub open spec fn storable_charts(charts: Seq<ChartView>) -> bool {
    &&& forall|i: int| 0 <= i < charts.len() ==> storable(#[trigger] charts[i])
    &&& forall|i: int, j: int|
        0 <= i < j < charts.len() ==> code_of((#[trigger] charts[i]).style, charts[i].difficulty)
            != code_of((#[trigger] charts[j]).style, charts[j].difficulty)
}

/// A chart without its mines.
pub open spec fn mineless(chart: ChartView) -> ChartView {
    ChartView { notes: hits_from(chart.notes, 0), ..chart }
}

/// The mines of a chart.
pub open spec fn mines_of(chart: ChartView) -> Seq<Note> {
    mines_upto(chart.notes, chart.notes.len())
}

/// The song once its tempo and events have been read.
spec fn headed(pairs: Seq<(i32, i32)>, events: Seq<SsqEvent>) -> PartialView {
    PartialView { events, events_seen: true, ..with_tempo(nothing_seen(), tempo_of(pairs)) }
}

/// The song once the steps of the first `n` charts have been read.
spec fn stepped(p: PartialView, charts: Seq<ChartView>, n: int) -> PartialView {
    PartialView { charts: Seq::new(n as nat, |i: int| mineless(charts[i])), ..p }
}

/// The mine chunks of the first `n` charts.
pub open spec fn pending_for(charts: Seq<ChartView>, n: nat) -> Seq<(u16, Seq<Note>)>
    decreases n,
{
    if n == 0 {
        Seq::empty()
    } else {
        let before = pending_for(charts, (n - 1) as nat);
        let c = charts[n - 1];
        if mines_of(c).len() == 0 {
            before
        } else {
            before.push((code_of(c.style, c.difficulty), mines_of(c)))
        }
    }
}

/// Walking over the tempo and event chunks.
proof fn lemma_walk_head(pairs: Seq<(i32, i32)>, events: Seq<SsqEvent>, post: Seq<u8>)
    requires
        sound_pairs(pairs),
        events.len() <= 0xFFFF,
    ensures
        ({
            let head = tempo_chunk(pairs) + events_chunk(events);
            walked(head + post, 0, nothing_seen()) == walked(
                head + post,
                head.len() as int,
                headed(pairs, events),
            )
        }),
{
    reveal(dispatched);
    let none = Seq::<u8>::empty();
    let t = tempo_chunk(pairs);
    let e = events_chunk(events);
    let b = t + e + post;
    let start = nothing_seen();
    let mid = with_tempo(start, tempo_of(pairs));
    lemma_tempo_back(pairs, 0);
    lemma_walk_chunk(
        none,
        tempo_body(pairs),
        1,
        1000,
        pairs.len(),
        e + post,
        start,
        mid,
    );
    assert(none + t + (e + post) =~= b);
    assert(none + t =~= t);
    lemma_events_back(events, t.len() as usize);
    lemma_walk_chunk(
        t,
        events_body(events),
        2,
        1,
        events.len(),
        post,
        mid,
        headed(pairs, events),
    );
}

/// The step chunk of a chart that can be stored.
proof fn lemma_step_chunk(chart: ChartView, offset: usize)
    requires
        storable(chart),
    ensures
        steps_emitted(chart.notes) is Ok,
        ({
            let (steps, freezes) = steps_emitted(chart.notes)->Ok_0;
            let body = steps_body(steps, freezes);
            let code = code_of(chart.style, chart.difficulty);
            &&& steps.len() <= 0xFFFF
            &&& 12 + body.len() <= u32::MAX
            &&& (12 + body.len()) % 4 == 0
            &&& steps_chunk(chart) == Ok::<Seq<u8>, SsqErrorView>(
                chunk_header_bytes(body.len(), 3, code, steps.len()) + body,
            )
            &&& steps_outcome(written_header(body.len(), 3, code, steps.len()), body, offset) == Ok::<
                ChartView,
                SsqErrorView,
            >(mineless(chart))
        }),
{
    reveal(storable);
    reveal(steps_chunk);
    lemma_steps_skip_mines(chart.notes, chart.style);
    law_steps_round_trip(hits_from(chart.notes, 0), chart.style, offset);
    let (steps, freezes) = steps_emitted(chart.notes)->Ok_0;
    lemma_steps_back(chart.style, chart.difficulty, steps, freezes, offset);
}

/// Joining is associative.
proof fn lemma_regroup(a: Seq<u8>, b: Seq<u8>, c: Seq<u8>, d: Seq<u8>)
    ensures
        a + b + (c + d) == a + (b + c) + d,
        a + b + c + d == a + (b + c) + d,
        a + b + c == a + (b + c),
{
    assert(a + b + (c + d) =~= a + (b + c) + d);
    assert(a + b + c + d =~= a + (b + c) + d);
    assert(a + b + c =~= a + (b + c));
}

/// A step chunk adds its chart.
proof fn lemma_steps_dispatched(
    header: ChunkHeader,
    body: Seq<u8>,
    offset: usize,
    p: PartialView,
    chart: ChartView,
)
    requires
        header.ty == 3,
        steps_outcome(header, body, offset) == Ok::<ChartView, SsqErrorView>(chart),
    ensures
        dispatched(header, body, offset, p) == Ok::<PartialView, SsqErrorView>(
            PartialView { charts: p.charts.push(chart), ..p },
        ),
{
    reveal(dispatched);
}

/// A mine chunk adds its mines.
proof fn lemma_mines_dispatched(
    header: ChunkHeader,
    body: Seq<u8>,
    offset: usize,
    p: PartialView,
    mines: (u16, Seq<Note>),
)
    requires
        header.ty == 20,
        mines_outcome(header, body) == Some(mines),
    ensures
        dispatched(header, body, offset, p) == Ok::<PartialView, SsqErrorView>(
            PartialView { pending_mine_chunks: p.pending_mine_chunks.push(mines), ..p },
        ),
{
    reveal(dispatched);
}

/// Walking over the step chunk of one chart.
proof fn lemma_walk_one_step(
    pre: Seq<u8>,
    charts: Seq<ChartView>,
    n: int,
    post: Seq<u8>,
    p: PartialView,
)
    requires
        0 <= n < charts.len(),
        storable(charts[n]),
    ensures
        steps_chunk(charts[n]) is Ok,
        ({
            let chunk = steps_chunk(charts[n])->Ok_0;
            walked(pre + chunk + post, pre.len() as int, stepped(p, charts, n)) == walked(
                pre + chunk + post,
                (pre + chunk).len() as int,
                stepped(p, charts, n + 1),
            )
        }),
{
    let chart = charts[n];
    lemma_step_chunk(chart, pre.len() as usize);
    let (steps, freezes) = steps_emitted(chart.notes)->Ok_0;
    let body = steps_body(steps, freezes);
    let code = code_of(chart.style, chart.difficulty);
    let now = stepped(p, charts, n);
    let next = stepped(p, charts, n + 1);
    assert(now.charts.push(mineless(chart)) =~= next.charts);
    lemma_steps_dispatched(
        written_header(body.len(), 3, code, steps.len()),
        body,
        pre.len() as usize,
        now,
        mineless(chart),
    );
    lemma_walk_chunk(pre, body, 3, code, steps.len(), post, now, next);
}

/// Walking over the step chunks of the first `n` charts.
proof fn lemma_walk_steps(
    head: Seq<u8>,
    charts: Seq<ChartView>,
    n: nat,
    post: Seq<u8>,
    p: PartialView,
)
    requires
        storable_charts(charts),
        n <= charts.len(),
        p.charts.len() == 0,
    ensures
        step_chunks(charts, n) is Ok,
        ({
            let chunks = step_chunks(charts, n)->Ok_0;
            let b = head + chunks + post;
            walked(b, head.len() as int, p) == walked(
                b,
                (head + chunks).len() as int,
                stepped(p, charts, n as int),
            )
        }),
    decreases n,
{
    if n == 0 {
        assert(stepped(p, charts, 0) =~= p);
        assert(head + step_chunks(charts, 0)->Ok_0 =~= head);
    } else {
        let chunk = steps_chunk(charts[n - 1])->Ok_0;
        lemma_walk_steps(head, charts, (n - 1) as nat, chunk + post, p);
        let before = step_chunks(charts, (n - 1) as nat)->Ok_0;
        lemma_walk_one_step(head + before, charts, n - 1, post, p);
        lemma_regroup(head, before, chunk, post);
    }
}

/// The song once the mines of the first `n` charts have been read.
spec fn pended(p: PartialView, charts: Seq<ChartView>, n: int) -> PartialView {
    PartialView { pending_mine_chunks: pending_for(charts, n as nat), ..p }
}

/// Walking over the mine chunk of one chart.
proof fn lemma_walk_one_mines(
    pre: Seq<u8>,
    charts: Seq<ChartView>,
    n: int,
    post: Seq<u8>,
    p: PartialView,
)
    requires
        0 <= n < charts.len(),
        storable(charts[n]),
    ensures
        mine_chunk(charts[n]) is Ok,
        ({
            let chunk = mine_chunk(charts[n])->Ok_0;
            walked(pre + chunk + post, pre.len() as int, pended(p, charts, n)) == walked(
                pre + chunk + post,
                (pre + chunk).len() as int,
                pended(p, charts, n + 1),
            )
        }),
{
    let chart = charts[n];
    assert(storable(chart));
    assert(at_ticks(chart.notes, chart.style) && mines_last(chart.notes) && mines_of(chart).len()
        <= 0xFFFF) by {
        reveal(storable);
    }
    lemma_mine_chunk_back(chart);
    let mines = mines_of(chart);
    let body = mines_body(chart);
    let code = code_of(chart.style, chart.difficulty);
    let now = pended(p, charts, n);
    let next = pended(p, charts, n + 1);
    if mines.len() == 0 {
        assert(pre + mine_chunk(chart)->Ok_0 =~= pre);
    } else {
        lemma_mines_dispatched(
            written_header(body.len(), 20, code, mines.len()),
            body,
            pre.len() as usize,
            now,
            (code, mines),
        );
        lemma_walk_chunk(pre, body, 20, code, mines.len(), post, now, next);
    }
}

/// Walking over the mine chunks of the first `n` charts.
proof fn lemma_walk_mines(
    head: Seq<u8>,
    charts: Seq<ChartView>,
    n: nat,
    post: Seq<u8>,
    p: PartialView,
)
    requires
        storable_charts(charts),
        n <= charts.len(),
        p.pending_mine_chunks.len() == 0,
    ensures
        mine_chunks(charts, n) is Ok,
        ({
            let chunks = mine_chunks(charts, n)->Ok_0;
            let b = head + chunks + post;
            walked(b, head.len() as int, p) == walked(
                b,
                (head + chunks).len() as int,
                pended(p, charts, n as int),
            )
        }),
    decreases n,
{
    if n == 0 {
        assert(pended(p, charts, 0) =~= p);
        assert(head + mine_chunks(charts, 0)->Ok_0 =~= head);
    } else {
        let chunk = mine_chunk(charts[n - 1])->Ok_0;
        lemma_walk_mines(head, charts, (n - 1) as nat, chunk + post, p);
        let before = mine_chunks(charts, (n - 1) as nat)->Ok_0;
        lemma_walk_one_mines(head + before, charts, n - 1, post, p);
        lemma_regroup(head, before, chunk, post);
    }
}

/// The charts once the mines of the first `n` have been put back.
spec fn mined(charts: Seq<ChartView>, n: int) -> Seq<ChartView> {
    Seq::new(
        charts.len(),
        |i: int|
            if i < n {
                charts[i]
            } else {
                mineless(charts[i])
            },
    )
}

/// Which charts have got mines back once the first `n` have been seen to.
spec fn mines_done(charts: Seq<ChartView>, n: int) -> Seq<bool> {
    Seq::new(charts.len(), |i: int| i < n && mines_of(charts[i]).len() > 0)
}

proof fn lemma_find_chart(charts: Seq<ChartView>, now: Seq<ChartView>, n: int, i: int)
    requires
        storable_charts(charts),
        now.len() == charts.len(),
        forall|k: int|
            0 <= k < charts.len() ==> (#[trigger] now[k]).style == charts[k].style
                && now[k].difficulty == charts[k].difficulty,
        0 <= i <= n < charts.len(),
    ensures
        chart_with_code(now, code_of(charts[n].style, charts[n].difficulty), i) == Some(n),
    decreases n - i,
{
    if i < n {
        assert(code_of(charts[i].style, charts[i].difficulty) != code_of(
            charts[n].style,
            charts[n].difficulty,
        ));
        assert(now[i].style == charts[i].style);
        lemma_find_chart(charts, now, n, i + 1);
    } else {
        assert(now[n].style == charts[n].style);
    }
}

/// A chart without mines is the same without them.
proof fn lemma_mineless_same(chart: ChartView)
    requires
        storable(chart),
        mines_of(chart).len() == 0,
    ensures
        mineless(chart) == chart,
{
    lemma_no_mines(chart.notes, chart.notes.len(), 0);
}

/// Where there are no mines, all notes are hits.
proof fn lemma_no_mines(notes: Seq<Note>, n: nat, i: int)
    requires
        n == notes.len(),
        0 <= i <= n,
        mines_upto(notes, n).len() == 0,
    ensures
        hits_from(notes, i) == notes.subrange(i, n as int),
    decreases n - i,
{
    if i < n {
        lemma_no_mines(notes, n, i + 1);
        lemma_mines_grow(notes, (i + 1) as nat, n);
        assert(notes.subrange(i, n as int) =~= seq![notes[i]] + notes.subrange(i + 1, n as int));
        assert(!(notes[i].kind is Mine));
    } else {
        assert(notes.subrange(i, n as int) =~= Seq::empty());
    }
    if i == 0 {
        assert(notes.subrange(0, n as int) =~= notes);
    }
}

proof fn lemma_mines_grow(notes: Seq<Note>, m: nat, n: nat)
    requires
        m <= n,
    ensures
        mines_upto(notes, m).len() <= mines_upto(notes, n).len(),
    decreases n,
{
    if m < n {
        lemma_mines_grow(notes, m, (n - 1) as nat);
    }
}

/// Putting the mines of one chart back.
proof fn lemma_attach_one(charts: Seq<ChartView>, n: int)
    requires
        storable_charts(charts),
        0 <= n < charts.len(),
    ensures
        mined(charts, n).update(n, with_mines(mineless(charts[n]), mines_of(charts[n]))) == mined(
            charts,
            n + 1,
        ),
        mines_of(charts[n]).len() > 0 ==> mines_done(charts, n).update(n, true) == mines_done(
            charts,
            n + 1,
        ),
{
    assert(storable(charts[n]));
    reveal(storable);
    lemma_mines_put_back(charts[n]);
    assert(mined(charts, n).update(n, charts[n]) =~= mined(charts, n + 1));
    if mines_of(charts[n]).len() > 0 {
        assert(mines_done(charts, n).update(n, true) =~= mines_done(charts, n + 1));
    }
}

/// Putting the mines back, chart by chart.
proof fn lemma_attach(charts: Seq<ChartView>, n: nat)
    requires
        storable_charts(charts),
        n <= charts.len(),
    ensures
        mines_attached(
            mined(charts, 0),
            pending_for(charts, charts.len()),
            pending_for(charts, n).len(),
        ) == (mined(charts, n as int), mines_done(charts, n as int)),
    decreases n,
{
    let all = pending_for(charts, charts.len());
    if n == 0 {
        assert(mines_done(charts, 0) =~= Seq::new(charts.len(), |i: int| false));
    } else {
        lemma_attach(charts, (n - 1) as nat);
        let c = charts[n - 1];
        assert(storable(c));
        let now = mined(charts, n - 1);
        let done = mines_done(charts, n - 1);
        if mines_of(c).len() == 0 {
            lemma_mineless_same(c);
            assert(mined(charts, n as int) =~= now);
            assert(mines_done(charts, n as int) =~= done);
        } else {
            let k = pending_for(charts, (n - 1) as nat).len();
            lemma_pending_grows(charts, n, charts.len());
            assert(all[k as int] == pending_for(charts, n)[k as int]);
            assert(all[k as int] == (code_of(c.style, c.difficulty), mines_of(c)));
            lemma_find_chart(charts, now, n - 1, 0);
            lemma_attach_one(charts, n - 1);
            assert(now[n - 1] == mineless(c));
            assert(!done[n - 1]);
            assert(pending_for(charts, n).len() == k + 1);
        }
    }
}

proof fn lemma_pending_grows(charts: Seq<ChartView>, m: nat, n: nat)
    requires
        m <= n,
    ensures
        pending_for(charts, m).len() <= pending_for(charts, n).len(),
        forall|i: int|
            0 <= i < pending_for(charts, m).len() ==> pending_for(charts, n)[i] == #[trigger]
            pending_for(charts, m)[i],
    decreases n,
{
    if m < n {
        lemma_pending_grows(charts, m, (n - 1) as nat);
    }
}

/// What the file of a song reads back as.
pub open spec fn read_back(
    song: SongView,
    events: Seq<SsqEvent>,
    pairs: Seq<(i32, i32)>,
) -> SsqView {
    let t = tempo_of(pairs);
    SsqView {
        tps: 1000,
        tempo_segments: t.tempo_segments,
        stops: t.stops,
        charts: song.charts,
        audio_sync_offset_seconds: t.audio_sync_offset_seconds,
        events,
        raw_tempo_pairs: pairs,
        aux_chunks_dropped: Seq::empty(),
    }
}

/// Writing a song as SSQ and reading the file gives back its charts note for
/// note, the mines among them, and its events and tempo pairs verbatim.
pub proof fn law_ssq_round_trip(
    song: SongView,
    events: Seq<SsqEvent>,
    raw_pairs: Seq<(i32, i32)>,
    pairs: Seq<(i32, i32)>,
)
    requires
        song.tps == 1000,
        storable_charts(song.charts),
        events.len() <= 0xFFFF,
        written_pairs(song, raw_pairs) == Ok::<Seq<(i32, i32)>, SsqErrorView>(pairs),
        sound_pairs(pairs),
    ensures
        ssq_file(song, events, raw_pairs) is Ok,
        ssq_outcome(ssq_file(song, events, raw_pairs)->Ok_0) == Ok::<SsqView, SsqErrorView>(
            read_back(song, events, pairs),
        ),
{
    let charts = song.charts;
    let n = charts.len();
    let head = tempo_chunk(pairs) + events_chunk(events);
    let p0 = headed(pairs, events);
    lemma_walk_steps(head, charts, n, Seq::empty(), p0);
    let steps = step_chunks(charts, n)->Ok_0;
    let p1 = stepped(p0, charts, n as int);
    lemma_walk_mines(head + steps, charts, n, zeros(4), p1);
    let mines = mine_chunks(charts, n)->Ok_0;
    let p2 = pended(p1, charts, n as int);
    let b = ssq_file(song, events, raw_pairs)->Ok_0;
    assert(b == head + steps + mines + zeros(4));
    lemma_walk_head(pairs, events, steps + mines + zeros(4));
    assert(head + (steps + mines + zeros(4)) =~= b);
    lemma_walk_steps(head, charts, n, mines + zeros(4), p0);
    assert(head + steps + (mines + zeros(4)) =~= b);
    lemma_walk_end(head + steps + mines, p2);
    assert(walked(b, 0, nothing_seen()) == Ok::<PartialView, SsqErrorView>(p2));
    assert(p2.charts =~= mined(charts, 0));
    lemma_attach(charts, n);
    assert(mined(charts, n as int) =~= charts);
    assert(finalized(p2) == Ok::<SsqView, SsqErrorView>(read_back(song, events, pairs)));
}

/// Writing what was read back gives the same file, byte for byte: whatever song
/// has the charts, with the events and tempo pairs that were read.
pub proof fn law_ssq_rewrite_is_identical(
    song: SongView,
    events: Seq<SsqEvent>,
    raw_pairs: Seq<(i32, i32)>,
    pairs: Seq<(i32, i32)>,
    again: SongView,
)
    requires
        song.tps == 1000,
        written_pairs(song, raw_pairs) == Ok::<Seq<(i32, i32)>, SsqErrorView>(pairs),
        sound_pairs(pairs),
        again.tps == read_back(song, events, pairs).tps,
        again.charts == read_back(song, events, pairs).charts,
    ensures
        ssq_file(
            again,
            read_back(song, events, pairs).events,
            read_back(song, events, pairs).raw_tempo_pairs,
        ) == ssq_file(song, events, raw_pairs),
{
}

/// A chart without mines adds no mine chunk to its file.
pub proof fn law_no_mines_no_chunk(chart: ChartView)
    requires
        forall|i: int| 0 <= i < chart.notes.len() ==> !((#[trigger] chart.notes[i]).kind is Mine),
    ensures
        mine_chunk(chart) == Ok::<Seq<u8>, SsqErrorView>(Seq::empty()),
{
    reveal(mine_chunk);
    lemma_no_entries(chart.notes, chart.notes.len());
}

proof fn lemma_no_entries(notes: Seq<Note>, n: nat)
    requires
        n <= notes.len(),
        forall|i: int| 0 <= i < notes.len() ==> !((#[trigger] notes[i]).kind is Mine),
    ensures
        mine_entries(notes, n) == Ok::<Seq<(i32, u8)>, SsqErrorView>(Seq::empty()),
    decreases n,
{
    if n > 0 {
        lemma_no_entries(notes, (n - 1) as nat);
        assert(!(notes[n - 1].kind is Mine));
    }
}

} // verus!
