//! What the tags of a simfile set.

use super::decimal::{decimal_value, lemma_first_at};
use super::msd::tag_of;
use super::notes::{
    body_outcome, closed_outcome, difficulty_outcome, first_open, stepstype_outcome, Board,
};
use super::text_round_trip::lacks;
use super::{
    draft_outcome, inline_chart, pairs_from, pairs_outcome, song_tag_outcome, value_outcome,
    DraftView, SscErrorView,
};
use crate::model::{group_model_values, Beat, Bpm, Rational, SongView};
use crate::util::chars::{split, split_once, trimmed};
use vstd::prelude::*;

verus! {

/// Before the first chart, the title, the artist, the offset and the two times of the
/// preview set just these; the tempos and the stops set theirs, a pair of beat and value
/// for each; whatever is set to nothing, and every other tag, changes nothing.
pub proof fn law_song_tags(song: SongView, value: Seq<Seq<char>>)
    requires
        value.len() >= 2,
    ensures
        ({
            let tag = tag_of(value);
            let v = trimmed(value[1]);
            let next = song_tag_outcome(song, value);
            &&& tag == "TITLE"@ ==> (next matches Ok(s) && s.artist == song.artist && s.title == if v.len() > 0 {
                Some(v)
            } else {
                song.title
            })
            &&& tag == "ARTIST"@ ==> (next matches Ok(s) && s.title == song.title && s.artist == if v.len() > 0 {
                Some(v)
            } else {
                song.artist
            })
            &&& tag == "OFFSET"@ ==> match decimal_value(v) {
                Some(q) => next matches Ok(s) && s.audio_sync_offset_seconds == Rational::of(q) && s.preview
                    == song.preview,
                None => next is Err,
            }
            &&& tag == "SAMPLESTART"@ ==> match decimal_value(v) {
                Some(q) => next matches Ok(s) && s.preview.start_seconds == Rational::of(q)
                    && s.preview.length_seconds == song.preview.length_seconds
                    && s.audio_sync_offset_seconds == song.audio_sync_offset_seconds,
                None => next is Err,
            }
            &&& tag == "SAMPLELENGTH"@ ==> match decimal_value(v) {
                Some(q) => next matches Ok(s) && s.preview.length_seconds == Rational::of(q)
                    && s.preview.start_seconds == song.preview.start_seconds
                    && s.audio_sync_offset_seconds == song.audio_sync_offset_seconds,
                None => next is Err,
            }
            &&& next matches Ok(s) ==> s.charts == song.charts && s.tps == song.tps && s.audio
                == song.audio
        }),
{
    broadcast use group_model_values;

    reveal(song_tag_outcome);
    lemma_tags();
}

/// The tags are told apart.
proof fn lemma_tags()
    ensures
        "TITLE"@.len() == 5 && "STOPS"@.len() == 5 && "TITLE"@[0] == 'T' && "STOPS"@[0] == 'S',
        "ARTIST"@.len() == 6 && "OFFSET"@.len() == 6 && "ARTIST"@[0] == 'A' && "OFFSET"@[0] == 'O',
        "BPMS"@.len() == 4 && "SAMPLESTART"@.len() == 11 && "SAMPLELENGTH"@.len() == 12,
{
    reveal_strlit("TITLE");
    reveal_strlit("ARTIST");
    reveal_strlit("OFFSET");
    reveal_strlit("BPMS");
    reveal_strlit("STOPS");
    reveal_strlit("SAMPLESTART");
    reveal_strlit("SAMPLELENGTH");
}

/// A list of pairs has one for each entry between commas: what stands before its first
/// equals sign, and what stands behind it, as decimals.
pub proof fn law_pairs_are_read_in_order(
    tag: Seq<char>,
    what: Seq<char>,
    s: Seq<char>,
    i: int,
    a: Seq<char>,
    b: Seq<char>,
)
    requires
        trimmed(s).len() > 0,
        0 <= i < split(s, ',').len(),
        split(s, ',')[i] == a + seq!['='] + b,
        lacks(a, '='),
    ensures
        pairs_outcome(tag, what, s) matches Ok(pairs) ==> {
            &&& pairs.len() == split(s, ',').len()
            &&& decimal_value(a) matches Some(x) && pairs[i].0 == Rational::of(x)
            &&& decimal_value(b) matches Some(y) && pairs[i].1 == Rational::of(y)
        },
        decimal_value(a) is None || decimal_value(b) is None ==> pairs_outcome(tag, what, s) is Err,
{
    lemma_pairs_from(split(s, ','), 0, tag, what, Seq::empty(), i);
    let entry = a + seq!['='] + b;
    let at = a.len() as int;
    assert forall|k: int| 0 <= k < at implies #[trigger] entry[k] != '=' by {
        assert(entry[k] == a[k]);
    }
    lemma_first_at(entry, '=', 0, at);
    assert(entry.subrange(0, at) =~= a);
    assert(entry.subrange(at + 1, entry.len() as int) =~= b);
}

proof fn lemma_pairs_from(
    entries: Seq<Seq<char>>,
    from: int,
    tag: Seq<char>,
    what: Seq<char>,
    done: Seq<(Rational, Rational)>,
    i: int,
)
    requires
        0 <= from <= entries.len(),
        0 <= i < entries.len(),
        done.len() == from,
    ensures
        pairs_from(entries, from, tag, what, done) matches Ok(pairs) ==> {
            &&& pairs.len() == entries.len()
            &&& i < from ==> pairs[i] == done[i]
            &&& i >= from ==> (split_once(entries[i], '=') matches Some((a, b)) && (decimal_value(a)
                matches Some(x) && pairs[i].0 == Rational::of(x)) && (decimal_value(b) matches Some(
                y,
            ) && pairs[i].1 == Rational::of(y)))
        },
    decreases entries.len() - from,
{
    if from < entries.len() {
        if let Some((a, b)) = split_once(entries[from], '=') {
            if decimal_value(a) is Some && decimal_value(b) is Some {
                let pair = (Rational::of(decimal_value(a)->0), Rational::of(decimal_value(b)->0));
                lemma_pairs_from(entries, from + 1, tag, what, done.push(pair), i);
            }
        }
    }
}

/// The tempos of a song are the pairs of its `#BPMS`, and its stops those of its `#STOPS`.
pub proof fn law_tempos_and_stops_are_pairs(song: SongView, value: Seq<Seq<char>>, i: int)
    requires
        value.len() >= 2,
    ensures
        tag_of(value) == "BPMS"@ ==> match pairs_outcome(
            "BPMS"@,
            "bpm"@,
            trimmed(value[1]),
        ) {
            Ok(pairs) => song_tag_outcome(song, value) matches Ok(s) && s.tempo_segments.len()
                == pairs.len() && s.stops == song.stops && (0 <= i < pairs.len()
                ==> s.tempo_segments[i].start_beat == Beat::of(pairs[i].0@)
                && s.tempo_segments[i].bpm == Bpm::of(pairs[i].1@)),
            Err(_) => song_tag_outcome(song, value) is Err,
        },
        tag_of(value) == "STOPS"@ ==> match pairs_outcome(
            "STOPS"@,
            "duration"@,
            trimmed(value[1]),
        ) {
            Ok(pairs) => song_tag_outcome(song, value) matches Ok(s) && s.stops.len() == pairs.len()
                && s.tempo_segments == song.tempo_segments && (0 <= i < pairs.len()
                ==> s.stops[i].at_beat == Beat::of(pairs[i].0@) && s.stops[i].duration_seconds
                == pairs[i].1),
            Err(_) => song_tag_outcome(song, value) is Err,
        },
{
    broadcast use group_model_values;

    reveal(song_tag_outcome);
    lemma_tags();
}

/// A chart on one line has its style in the first field, its difficulty in the third and
/// its notes in the sixth. One of another style, and an edit chart, are left out.
pub proof fn law_inline_charts(value: Seq<Seq<char>>)
    requires
        value.len() == 7,
    ensures
        ({
            let chart = inline_chart(value);
            match (stepstype_outcome(value[1]), difficulty_outcome(value[3])) {
                (Err(_), _) => chart matches Ok(None),
                (_, Err(SscErrorView::EditChartSkipped)) => chart matches Ok(None),
                (_, Err(_)) => chart is Err,
                (Ok(style), Ok(difficulty)) => match body_outcome(value[6], style) {
                    Ok(notes) => chart matches Ok(Some(c)) && c.style == style && c.difficulty
                        == difficulty && c.notes == notes,
                    Err(_) => chart is Err,
                },
            }
        }),
{
}

/// Within a chart's section no tag changes the song.
pub proof fn law_sections_keep_the_song(value: Seq<Seq<char>>, song: SongView, draft: DraftView)
    requires
        tag_of(value) != "NOTEDATA"@,
    ensures
        value_outcome(value, song, Some(draft)) matches Ok((next, open)) ==> next == song
            && open is Some,
{
}

/// A chart is complete with a style, a difficulty and notes, unless it is left out.
pub proof fn law_sections_are_charts(draft: DraftView)
    ensures
        draft.skip ==> (draft_outcome(draft) matches Ok(None)),
        !draft.skip && (draft.stepstype is None || draft.difficulty is None || draft.notes_body
            is None) ==> draft_outcome(draft) is Err,
        !draft.skip && draft.stepstype is Some && draft.difficulty is Some && draft.notes_body
            is Some ==> match body_outcome(draft.notes_body->0, draft.stepstype->0) {
            Ok(notes) => draft_outcome(draft) matches Ok(Some(c)) && c.style == draft.stepstype->0
                && c.difficulty == draft.difficulty->0 && c.notes == notes,
            Err(_) => draft_outcome(draft) is Err,
        },
{
}

/// The notes of a chart are complete where no hold is left open; the first panel with one
/// is reported else.
pub proof fn law_open_holds_are_refused(board: Board, p: int)
    requires
        0 <= p < board.open.len(),
        forall|q: int| 0 <= q < p ==> (#[trigger] board.open[q]) is None,
    ensures
        board.open[p] is Some ==> closed_outcome(board) == Err::<
            Seq<crate::model::Note>,
            SscErrorView,
        >(SscErrorView::UnclosedHold { panel: p, note_index: board.open[p]->0 }),
        p == board.open.len() - 1 && board.open[p] is None ==> closed_outcome(board) == Ok::<
            Seq<crate::model::Note>,
            SscErrorView,
        >(board.notes),
{
    lemma_first_open(board.open, 0, p);
}

proof fn lemma_first_open(open: Seq<Option<int>>, from: int, p: int)
    requires
        0 <= from <= p < open.len(),
        forall|q: int| from <= q < p ==> (#[trigger] open[q]) is None,
    ensures
        open[p] is Some ==> first_open(open, from) == Some(p),
        open[p] is None ==> first_open(open, from) == first_open(open, p + 1),
    decreases p - from,
{
    if from < p {
        assert(open[from] is None);
        lemma_first_open(open, from + 1, p);
    }
}

} // verus!
