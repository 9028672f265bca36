//! Songs keep their charts from one format to the other and back.

use crate::model::{ChartView, Note, SongView};
use crate::ssc::file_round_trip::{law_ssc_round_trip, representable};
use crate::ssc::row_order::{
    law_simfile_hides_note_order, row_ordered, row_ordered_chart, row_ordered_charts,
    row_ordered_song, row_placed, unmarked,
};
use crate::ssc::{ssc_outcome, ssc_written};
use crate::ssq::events::SsqEvent;
use crate::ssq::framing::sound_pairs;
use crate::ssq::mines::{in_i32, mine_chunk, mine_entries, nearest_tick};
use crate::ssq::round_trip::{law_ssq_round_trip, read_back, storable_charts};
use crate::ssq::writer::{
    mine_chunks, rows_of, ssq_file, step_chunks, steps_chunk, steps_emitted, TickMask,
};
use crate::ssq::{ssq_outcome, SsqErrorView, SsqView};
use vstd::prelude::*;

verus! {

/// Whether every note of a list has a tick.
pub open spec fn have_ticks(notes: Seq<Note>) -> bool {
    forall|i: int| 0 <= i < notes.len() ==> in_i32(nearest_tick((#[trigger] notes[i]).beat))
}

/// Whether every note of some charts has a tick.
pub open spec fn charts_have_ticks(charts: Seq<ChartView>) -> bool {
    forall|i: int| 0 <= i < charts.len() ==> have_ticks((#[trigger] charts[i]).notes)
}

/// What the first notes of a list write does not depend on those behind them.
proof fn lemma_prefix(s: Seq<Note>, x: Note, n: nat)
    requires
        n <= s.len(),
    ensures
        rows_of(s.push(x), n) == rows_of(s, n),
        mine_entries(s.push(x), n) == mine_entries(s, n),
    decreases n,
{
    if n > 0 {
        lemma_prefix(s, x, (n - 1) as nat);
        assert(s.push(x)[n - 1] == s[n - 1]);
    }
}

/// What a list of notes writes.
spec fn written(s: Seq<Note>) -> (
    Result<(Seq<TickMask>, Seq<TickMask>), SsqErrorView>,
    Result<Seq<(i32, u8)>, SsqErrorView>,
) {
    (rows_of(s, s.len()), mine_entries(s, s.len()))
}

/// What another note adds depends on what was written before it alone.
proof fn lemma_next(a: Seq<Note>, b: Seq<Note>, x: Note)
    requires
        written(a) == written(b),
    ensures
        written(a.push(x)) == written(b.push(x)),
{
    lemma_prefix(a, x, a.len());
    lemma_prefix(b, x, b.len());
}

/// The panels of a shock are not written.
proof fn lemma_next_unmarked(s: Seq<Note>, x: Note)
    ensures
        written(s.push(unmarked(x))) == written(s.push(x)),
{
    lemma_prefix(s, x, s.len());
    lemma_prefix(s, unmarked(x), s.len());
}

/// A mine and another note may change places.
proof fn lemma_next_two(s: Seq<Note>, hit: Note, mine: Note)
    requires
        !(hit.kind is Mine),
        mine.kind is Mine,
        in_i32(nearest_tick(mine.beat)),
    ensures
        written(s.push(mine).push(hit)) == written(s.push(hit).push(mine)),
{
    lemma_prefix(s, mine, s.len());
    lemma_prefix(s, hit, s.len());
    lemma_prefix(s.push(mine), hit, s.len() + 1);
    lemma_prefix(s.push(hit), mine, s.len() + 1);
}

/// Putting a mine in front of the other notes of its beat.
proof fn lemma_placed_writes(s: Seq<Note>, x: Note)
    requires
        in_i32(nearest_tick(x.beat)),
    ensures
        written(row_placed(s, x)) == written(s.push(x)),
    decreases s.len(),
{
    if x.kind is Mine && s.len() > 0 && !(s.last().kind is Mine) && s.last().beat == x.beat {
        let init = s.drop_last();
        lemma_placed_writes(init, x);
        lemma_next(row_placed(init, x), init.push(x), s.last());
        lemma_next_two(init, s.last(), x);
        assert(init.push(s.last()) =~= s);
    }
}

/// A stepfile does not show the order of a row's notes.
proof fn lemma_ordered_writes(notes: Seq<Note>)
    requires
        have_ticks(notes),
    ensures
        written(row_ordered(notes)) == written(notes),
    decreases notes.len(),
{
    if notes.len() > 0 {
        let init = notes.drop_last();
        let x = notes.last();
        assert(have_ticks(init)) by {
            assert forall|i: int| 0 <= i < init.len() implies in_i32(
                nearest_tick((#[trigger] init[i]).beat),
            ) by {
                assert(init[i] == notes[i]);
            }
        }
        assert(in_i32(nearest_tick(notes[notes.len() - 1].beat)));
        lemma_ordered_writes(init);
        lemma_placed_writes(row_ordered(init), unmarked(x));
        lemma_next(row_ordered(init), init, unmarked(x));
        lemma_next_unmarked(init, x);
        assert(init.push(x) =~= notes);
    }
}

proof fn lemma_ordered_chart(chart: ChartView)
    requires
        have_ticks(chart.notes),
    ensures
        steps_chunk(row_ordered_chart(chart)) == steps_chunk(chart),
        mine_chunk(row_ordered_chart(chart)) == mine_chunk(chart),
{
    lemma_ordered_writes(chart.notes);
    assert(steps_emitted(row_ordered(chart.notes)) == steps_emitted(chart.notes));
    reveal(steps_chunk);
    reveal(mine_chunk);
}

proof fn lemma_ordered_charts(charts: Seq<ChartView>, n: nat)
    requires
        charts_have_ticks(charts),
        n <= charts.len(),
    ensures
        step_chunks(row_ordered_charts(charts), n) == step_chunks(charts, n),
        mine_chunks(row_ordered_charts(charts), n) == mine_chunks(charts, n),
    decreases n,
{
    if n > 0 {
        lemma_ordered_charts(charts, (n - 1) as nat);
        lemma_ordered_chart(charts[n - 1]);
        assert(row_ordered_charts(charts)[n - 1] == row_ordered_chart(charts[n - 1]));
    }
}

/// A stepfile with given tempo pairs does not show in which order a chart listed
/// the notes of a row, nor the panels that it gave a shock.
pub proof fn law_stepfile_hides_note_order(
    song: SongView,
    events: Seq<SsqEvent>,
    pairs: Seq<(i32, i32)>,
)
    requires
        charts_have_ticks(song.charts),
        pairs.len() > 0,
    ensures
        ssq_file(row_ordered_song(song), events, pairs) == ssq_file(song, events, pairs),
{
    lemma_ordered_charts(song.charts, song.charts.len());
}

/// A stepfile that goes to SSC and back is the same, byte for byte: nothing of its
/// charts, mines and shocks among them, is lost on the way.
pub proof fn law_stepfile_survives_sm5(
    song: SongView,
    events: Seq<SsqEvent>,
    pairs: Seq<(i32, i32)>,
)
    requires
        song.tps == 1000,
        charts_have_ticks(song.charts),
        representable(row_ordered_song(song)),
        ssc_written(row_ordered_song(song)) is Ok,
        pairs.len() > 0,
    ensures
        ({
            let text = ssc_written(song)->Ok_0;
            &&& ssc_written(song) is Ok
            &&& ssc_outcome(text) is Ok
            &&& ssq_file(ssc_outcome(text)->Ok_0, events, pairs) == ssq_file(song, events, pairs)
        }),
{
    let ordered = row_ordered_song(song);
    assert forall|k: int| 0 <= k < song.charts.len() implies crate::ssc::round_trip::legible(
        row_ordered((#[trigger] song.charts[k]).notes),
        song.charts[k].style,
    ) by {
        assert(ordered.charts[k] == row_ordered_chart(song.charts[k]));
    }
    law_simfile_hides_note_order(song);
    law_ssc_round_trip(ordered);
    law_stepfile_hides_note_order(song, events, pairs);
}

/// A simfile that goes to SSQ and back has the same charts, mines and shocks among
/// them, and written again it is the same file. The song is given as the stepfile
/// has it, and the simfile's is the same in the order of a note grid.
pub proof fn law_simfile_survives_ddr(
    song: SongView,
    events: Seq<SsqEvent>,
    pairs: Seq<(i32, i32)>,
)
    requires
        song.tps == 1000,
        storable_charts(song.charts),
        charts_have_ticks(song.charts),
        representable(row_ordered_song(song)),
        ssc_written(row_ordered_song(song)) is Ok,
        events.len() <= 0xFFFF,
        sound_pairs(pairs),
    ensures
        ({
            let simfile = ssc_written(row_ordered_song(song))->Ok_0;
            let stepfile = ssq_file(ssc_outcome(simfile)->Ok_0, events, pairs);
            &&& ssc_outcome(simfile) is Ok
            &&& stepfile is Ok
            &&& ssq_outcome(stepfile->Ok_0) == Ok::<SsqView, SsqErrorView>(
                read_back(song, events, pairs),
            )
            &&& ssc_written(
                SongView { charts: ssq_outcome(stepfile->Ok_0)->Ok_0.charts, ..song },
            )->Ok_0 == simfile
        }),
{
    law_stepfile_survives_sm5(song, events, pairs);
    let ordered = row_ordered_song(song);
    assert forall|k: int| 0 <= k < song.charts.len() implies crate::ssc::round_trip::legible(
        row_ordered((#[trigger] song.charts[k]).notes),
        song.charts[k].style,
    ) by {
        assert(ordered.charts[k] == row_ordered_chart(song.charts[k]));
    }
    law_simfile_hides_note_order(song);
    law_ssq_round_trip(song, events, pairs, pairs);
}

} // verus!
