//! A song that is written as SSC reads back as the same song.

use super::chart_round_trip::{
    drawn_grid, drawn_row, is_drawn_char, law_chart_round_trip, law_notes_body_round_trip,
    within_reach,
};
use super::decimal::{
    decimal_text, law_decimal_round_trip, lemma_first_at, lemma_ten_to_6, lemma_trimmed_fixed,
    micros_text, round_half_even,
};
use super::laws::{law_difficulty_round_trip, law_stepstype_round_trip};
use super::msd::{param_of, tag_of};
use super::notes::{difficulty_text, stepstype_text};
use super::round_trip::legible;
use super::scan_round_trip::{
    law_lines_round_trip, lemma_lines_add, line_values, lines_scannable, lines_text, scannable,
};
use super::text_round_trip::{lacks, lemma_split_one, lemma_split_step};
use super::writer::{body_written, grid_text, grid_written, notedata_written, rows_text, tag_text};
use super::{
    bare_song, draft_outcome, draft_tag_outcome, empty_draft, header_text, or_empty, pairs_from,
    pairs_outcome, pairs_text, seconds_outcome, section_ended, sections_from, segment_of,
    segment_pairs, song_tag_outcome, ssc_outcome, ssc_written, stop_of, stop_pairs, value_outcome,
    values_from, with_chart, DraftView, SscErrorView,
};
use crate::model::rational::{is_lowest, magnitude, q_fits};
use crate::model::{
    group_model_values, Beat, Bpm, ChartView, PreviewSlice, Rational, SongView, Stop, TempoSegment,
};
use crate::util::chars::{split, split_once, trimmed, upper};
use crate::util::number::{is_digit, lemma_dec_reads_back, lemma_fixed_reads_back};
use crate::util::text::{dec, digits_fixed};
use vstd::prelude::*;

verus! {

/// Whether a value keeps its worth in six decimal places.
pub open spec fn exact_decimal(q: (int, int)) -> bool {
    &&& is_lowest(q)
    &&& q_fits(q)
    &&& 1_000_000int % q.1 == 0
    &&& -0x7fff_ffff_ffff_ffff <= q.0 * (1_000_000int / q.1) <= i64::MAX
}

/// A character of a decimal number.
spec fn is_decimal_char(c: char) -> bool {
    is_digit(c) || c == '-' || c == '.'
}

spec fn decimal_chars(s: Seq<char>) -> bool {
    forall|i: int| 0 <= i < s.len() ==> is_decimal_char(#[trigger] s[i])
}

proof fn lemma_micros_chars(micros: int)
    ensures
        decimal_chars(micros_text(micros)),
        micros_text(micros).len() > 0,
{
    let m = magnitude(micros);
    let s = micros_text(micros);
    let a = dec(m / 1_000_000);
    let b = digits_fixed(m % 1_000_000, 10, 6);
    lemma_ten_to_6();
    lemma_dec_reads_back(m / 1_000_000);
    lemma_fixed_reads_back(m % 1_000_000, 6);
    let sign = if micros < 0 { 1int } else { 0int };
    assert forall|i: int| 0 <= i < s.len() implies is_decimal_char(#[trigger] s[i]) by {
        if i < sign {
            assert(s[i] == '-');
        } else if i < sign + a.len() {
            assert(s[i] == a[i - sign]);
        } else if i == sign + a.len() {
            assert(s[i] == '.');
        } else {
            assert(s[i] == b[i - sign - a.len() - 1]);
        }
    }
}

/// Text of decimal characters stands for itself anywhere.
proof fn lemma_decimal_text(q: (int, int))
    ensures
        decimal_chars(decimal_text(q)),
        decimal_text(q).len() > 0,
        scannable(decimal_text(q)),
        lacks(decimal_text(q), ','),
        lacks(decimal_text(q), '='),
        trimmed(decimal_text(q)) == decimal_text(q),
{
    let s = decimal_text(q);
    lemma_micros_chars(round_half_even(q.0 * 1_000_000, q.1));
    assert(is_decimal_char(s[0]) && is_decimal_char(s[s.len() - 1]));
    lemma_trimmed_fixed(s);
    assert forall|i: int| 0 <= i < s.len() implies #[trigger] s[i] != ',' by {
        assert(is_decimal_char(s[i]));
    }
    assert forall|i: int| 0 <= i < s.len() implies #[trigger] s[i] != '=' by {
        assert(is_decimal_char(s[i]));
    }
}

/// One entry of a list of pairs.
spec fn entry_text(p: ((int, int), (int, int))) -> Seq<char> {
    decimal_text(p.0) + seq!['='] + decimal_text(p.1)
}

spec fn entry_char(c: char) -> bool {
    is_decimal_char(c) || c == '='
}

proof fn lemma_entry(p: ((int, int), (int, int)))
    ensures
        lacks(entry_text(p), ','),
        forall|i: int| 0 <= i < entry_text(p).len() ==> entry_char(#[trigger] entry_text(p)[i]),
        entry_text(p).len() > 0,
        split_once(entry_text(p), '=') == Some((decimal_text(p.0), decimal_text(p.1))),
{
    let a = decimal_text(p.0);
    let b = decimal_text(p.1);
    let e = entry_text(p);
    lemma_decimal_text(p.0);
    lemma_decimal_text(p.1);
    let n = a.len() as int;
    assert forall|i: int| 0 <= i < e.len() implies entry_char(#[trigger] e[i]) by {
        if i < n {
            assert(e[i] == a[i]);
        } else if i > n {
            assert(e[i] == b[i - n - 1]);
        }
    }
    assert forall|i: int| 0 <= i < e.len() implies #[trigger] e[i] != ',' by {
        assert(entry_char(e[i]));
    }
    assert(e[n] == '=');
    assert forall|k: int| 0 <= k < n implies e[k] != '=' by {
        assert(e[k] == a[k]);
    }
    lemma_first_at(e, '=', 0, n);
    assert(e.subrange(0, n) =~= a);
    assert(e.subrange(n + 1, e.len() as int) =~= b);
}

spec fn list_char(c: char) -> bool {
    entry_char(c) || c == ','
}

/// The entries of a list of pairs, as they are read.
proof fn lemma_pairs_split(pairs: Seq<((int, int), (int, int))>)
    requires
        pairs.len() > 0,
    ensures
        split(pairs_text(pairs), ',') == Seq::new(pairs.len(), |i: int| entry_text(pairs[i])),
        forall|i: int|
            0 <= i < pairs_text(pairs).len() ==> list_char(#[trigger] pairs_text(pairs)[i]),
        pairs_text(pairs).len() > 0,
    decreases pairs.len(),
{
    let all = Seq::new(pairs.len(), |i: int| entry_text(pairs[i]));
    let init = pairs.drop_last();
    let last = entry_text(pairs.last());
    lemma_entry(pairs.last());
    let text = pairs_text(pairs);
    if init.len() == 0 {
        assert(pairs_text(init) =~= Seq::empty());
        assert(text =~= last);
        lemma_split_one(last, ',');
        assert(all =~= seq![last]);
        assert forall|i: int| 0 <= i < text.len() implies list_char(#[trigger] text[i]) by {
            assert(entry_char(last[i]));
        }
    } else {
        lemma_pairs_split(init);
        let before = pairs_text(init);
        assert(text =~= before + seq![','] + last);
        lemma_split_step(before, last, ',');
        assert(all =~= Seq::new(init.len(), |i: int| entry_text(init[i])).push(last));
        assert forall|i: int| 0 <= i < text.len() implies list_char(#[trigger] text[i]) by {
            if i < before.len() {
                assert(text[i] == before[i]);
            } else if i > before.len() {
                assert(text[i] == last[i - before.len() - 1]);
            }
        }
    }
}

proof fn lemma_pairs_text(pairs: Seq<((int, int), (int, int))>)
    ensures
        scannable(pairs_text(pairs)),
        trimmed(pairs_text(pairs)) == pairs_text(pairs),
{
    let text = pairs_text(pairs);
    if pairs.len() > 0 {
        lemma_pairs_split(pairs);
        assert(list_char(text[0]) && list_char(text[text.len() - 1]));
        lemma_trimmed_fixed(text);
    } else {
        assert(text =~= Seq::empty());
    }
}

/// The values of some pairs.
spec fn rationals(pairs: Seq<((int, int), (int, int))>) -> Seq<(Rational, Rational)> {
    Seq::new(pairs.len(), |i: int| (Rational::of(pairs[i].0), Rational::of(pairs[i].1)))
}

spec fn pairs_exact(pairs: Seq<((int, int), (int, int))>) -> bool {
    forall|i: int|
        0 <= i < pairs.len() ==> exact_decimal((#[trigger] pairs[i]).0) && exact_decimal(pairs[i].1)
}

proof fn lemma_pairs_from(
    pairs: Seq<((int, int), (int, int))>,
    i: int,
    tag: Seq<char>,
    what: Seq<char>,
)
    requires
        pairs_exact(pairs),
        0 <= i <= pairs.len(),
    ensures
        pairs_from(
            Seq::new(pairs.len(), |k: int| entry_text(pairs[k])),
            i,
            tag,
            what,
            rationals(pairs).subrange(0, i),
        ) == Ok::<Seq<(Rational, Rational)>, SscErrorView>(rationals(pairs)),
    decreases pairs.len() - i,
{
    let all = rationals(pairs);
    if i == pairs.len() {
        assert(all.subrange(0, i) =~= all);
    } else {
        lemma_entry(pairs[i]);
        law_decimal_round_trip(pairs[i].0);
        law_decimal_round_trip(pairs[i].1);
        assert(all.subrange(0, i).push(all[i]) =~= all.subrange(0, i + 1));
        lemma_pairs_from(pairs, i + 1, tag, what);
    }
}

/// A list of pairs reads back.
proof fn lemma_pairs_back(
    pairs: Seq<((int, int), (int, int))>,
    tag: Seq<char>,
    what: Seq<char>,
)
    requires
        pairs_exact(pairs),
    ensures
        pairs_outcome(tag, what, trimmed(pairs_text(pairs))) == Ok::<
            Seq<(Rational, Rational)>,
            SscErrorView,
        >(rationals(pairs)),
{
    lemma_pairs_text(pairs);
    if pairs.len() == 0 {
        assert(pairs_text(pairs) =~= Seq::empty());
        assert(rationals(pairs) =~= Seq::empty());
    } else {
        lemma_pairs_split(pairs);
        lemma_pairs_from(pairs, 0, tag, what);
        assert(rationals(pairs).subrange(0, 0) =~= Seq::empty());
    }
}

/// Whether a title or artist reads back: there is none, or one that is not
/// empty, has no white space around it and stands in a value as it is.
pub open spec fn plain_text(text: Option<Seq<char>>) -> bool {
    match text {
        None => true,
        Some(t) => t.len() > 0 && trimmed(t) == t && scannable(t),
    }
}

/// Whether an SSC file can hold a song as it is.
pub open spec fn representable(song: SongView) -> bool {
    &&& plain_text(song.title)
    &&& plain_text(song.artist)
    &&& exact_decimal(song.audio_sync_offset_seconds@)
    &&& exact_decimal(song.preview.start_seconds@)
    &&& exact_decimal(song.preview.length_seconds@)
    &&& forall|i: int|
        0 <= i < song.tempo_segments.len() ==> exact_decimal(
            (#[trigger] song.tempo_segments[i]).start_beat@,
        ) && exact_decimal(song.tempo_segments[i].bpm@)
    &&& forall|i: int|
        0 <= i < song.stops.len() ==> exact_decimal((#[trigger] song.stops[i]).at_beat@)
            && exact_decimal(song.stops[i].duration_seconds@)
    &&& forall|i: int|
        0 <= i < song.charts.len() ==> legible((#[trigger] song.charts[i]).notes, song.charts[i].style)
            && within_reach(song.charts[i].notes)
}

/// The song-level tag lines.
spec fn header_lines(song: SongView) -> Seq<(Seq<char>, Seq<char>)> {
    seq![
        ("VERSION"@, "0.83"@),
        ("TITLE"@, or_empty(song.title)),
        ("ARTIST"@, or_empty(song.artist)),
        ("OFFSET"@, decimal_text(song.audio_sync_offset_seconds@)),
        ("BPMS"@, pairs_text(segment_pairs(song.tempo_segments))),
        ("STOPS"@, pairs_text(stop_pairs(song.stops))),
        ("SAMPLESTART"@, decimal_text(song.preview.start_seconds@)),
        ("SAMPLELENGTH"@, decimal_text(song.preview.length_seconds@)),
    ]
}

/// The tag lines of one chart.
spec fn section_lines(chart: ChartView) -> Seq<(Seq<char>, Seq<char>)> {
    seq![
        ("NOTEDATA"@, Seq::empty()),
        ("STEPSTYPE"@, stepstype_text(chart.style)),
        ("DIFFICULTY"@, difficulty_text(chart.difficulty)),
        ("NOTES"@, seq!['\n'] + body_written(chart)->Ok_0),
    ]
}

/// The tag lines of the first `n` charts.
spec fn charts_lines(charts: Seq<ChartView>, n: nat) -> Seq<(Seq<char>, Seq<char>)>
    decreases n,
{
    if n == 0 {
        Seq::empty()
    } else {
        charts_lines(charts, (n - 1) as nat) + section_lines(charts[n - 1])
    }
}

proof fn lemma_lines_push(lines: Seq<(Seq<char>, Seq<char>)>, tag: Seq<char>, value: Seq<char>)
    ensures
        lines_text(lines.push((tag, value))) == lines_text(lines) + tag_text(tag, value),
{
    assert(lines.push((tag, value)).drop_last() =~= lines);
}

proof fn lemma_section_text(chart: ChartView)
    requires
        notedata_written(chart) is Ok,
    ensures
        notedata_written(chart)->Ok_0 == lines_text(section_lines(chart)),
{
    let none = Seq::<(Seq<char>, Seq<char>)>::empty();
    let (a, b, c, d) = (
        section_lines(chart)[0],
        section_lines(chart)[1],
        section_lines(chart)[2],
        section_lines(chart)[3],
    );
    lemma_lines_push(none, a.0, a.1);
    lemma_lines_push(none.push(a), b.0, b.1);
    lemma_lines_push(none.push(a).push(b), c.0, c.1);
    lemma_lines_push(none.push(a).push(b).push(c), d.0, d.1);
    assert(none.push(a).push(b).push(c).push(d) =~= section_lines(chart));
    assert(lines_text(none) =~= Seq::empty());
    assert(notedata_written(chart)->Ok_0 =~= lines_text(section_lines(chart)));
}

proof fn lemma_header_lines(song: SongView)
    ensures
        header_text(song) == lines_text(header_lines(song)),
{
    let none = Seq::<(Seq<char>, Seq<char>)>::empty();
    let h = header_lines(song);
    let l1 = none.push(h[0]);
    let l2 = l1.push(h[1]);
    let l3 = l2.push(h[2]);
    let l4 = l3.push(h[3]);
    let l5 = l4.push(h[4]);
    let l6 = l5.push(h[5]);
    let l7 = l6.push(h[6]);
    let l8 = l7.push(h[7]);
    lemma_lines_push(none, h[0].0, h[0].1);
    lemma_lines_push(l1, h[1].0, h[1].1);
    lemma_lines_push(l2, h[2].0, h[2].1);
    lemma_lines_push(l3, h[3].0, h[3].1);
    lemma_lines_push(l4, h[4].0, h[4].1);
    lemma_lines_push(l5, h[5].0, h[5].1);
    lemma_lines_push(l6, h[6].0, h[6].1);
    lemma_lines_push(l7, h[7].0, h[7].1);
    assert(l8 =~= h);
    assert(lines_text(none) =~= Seq::empty());
    assert(header_text(song) =~= lines_text(h));
}

proof fn lemma_sections_text(
    charts: Seq<ChartView>,
    i: int,
    head: Seq<(Seq<char>, Seq<char>)>,
    text: Seq<char>,
)
    requires
        0 <= i <= charts.len(),
        sections_from(charts, i, lines_text(head + charts_lines(charts, i as nat))) == Ok::<
            Seq<char>,
            SscErrorView,
        >(text),
    ensures
        text == lines_text(head + charts_lines(charts, charts.len())),
        forall|k: int| i <= k < charts.len() ==> notedata_written(#[trigger] charts[k]) is Ok,
    decreases charts.len() - i,
{
    if i < charts.len() {
        let before = head + charts_lines(charts, i as nat);
        let section = section_lines(charts[i]);
        lemma_section_text(charts[i]);
        lemma_lines_add(before, section);
        assert(before + section =~= head + charts_lines(charts, (i + 1) as nat));
        lemma_sections_text(charts, i + 1, head, text);
    }
}

/// What an SSC file of a song consists of.
proof fn lemma_file_lines(song: SongView)
    requires
        ssc_written(song) is Ok,
    ensures
        ssc_written(song)->Ok_0 == lines_text(
            header_lines(song) + charts_lines(song.charts, song.charts.len()),
        ),
        forall|k: int|
            0 <= k < song.charts.len() ==> notedata_written(#[trigger] song.charts[k]) is Ok,
{
    lemma_header_lines(song);
    let h = header_lines(song);
    assert(h + charts_lines(song.charts, 0) =~= h);
    lemma_sections_text(song.charts, 0, h, ssc_written(song)->Ok_0);
}

/// A character of a note grid.
spec fn grid_char(c: char) -> bool {
    is_drawn_char(c) || c == ',' || c == '\n'
}

spec fn grid_chars(s: Seq<char>) -> bool {
    forall|i: int| 0 <= i < s.len() ==> grid_char(#[trigger] s[i])
}

proof fn lemma_grid_chars_add(a: Seq<char>, b: Seq<char>)
    requires
        grid_chars(a),
        grid_chars(b),
    ensures
        grid_chars(a + b),
{
    assert forall|i: int| 0 <= i < (a + b).len() implies grid_char(#[trigger] (a + b)[i]) by {
        if i < a.len() {
            assert((a + b)[i] == a[i]);
        } else {
            assert((a + b)[i] == b[i - a.len()]);
        }
    }
}

proof fn lemma_rows_text_chars(rows: Seq<Seq<char>>)
    requires
        forall|r: int| 0 <= r < rows.len() ==> drawn_row(#[trigger] rows[r]),
    ensures
        grid_chars(rows_text(rows)),
    decreases rows.len(),
{
    if rows.len() > 0 {
        let init = rows.drop_last();
        assert forall|r: int| 0 <= r < init.len() implies drawn_row(#[trigger] init[r]) by {
            assert(init[r] == rows[r]);
        }
        lemma_rows_text_chars(init);
        let last = rows[rows.len() - 1];
        assert(drawn_row(last));
        assert(grid_chars(last)) by {
            assert forall|i: int| 0 <= i < last.len() implies grid_char(#[trigger] last[i]) by {
                assert(is_drawn_char(last[i]));
            }
        }
        lemma_grid_chars_add(rows_text(init), last);
        assert(grid_chars(seq!['\n']));
        lemma_grid_chars_add(rows_text(init) + last, seq!['\n']);
    }
}

proof fn lemma_grid_text_chars(grid: Seq<Seq<Seq<char>>>)
    requires
        drawn_grid(grid),
    ensures
        grid_chars(grid_text(grid)),
    decreases grid.len(),
{
    if grid.len() > 0 {
        let init = grid.drop_last();
        assert(drawn_grid(init)) by {
            assert forall|m: int, r: int|
                0 <= m < init.len() && 0 <= r < init[m].len() implies drawn_row(
                #[trigger] init[m][r],
            ) by {
                assert(init[m] == grid[m]);
                assert(drawn_row(grid[m][r]));
            }
        }
        lemma_grid_text_chars(init);
        let rows = grid.last();
        assert forall|r: int| 0 <= r < rows.len() implies drawn_row(#[trigger] rows[r]) by {
            assert(drawn_row(grid[grid.len() - 1][r]));
        }
        lemma_rows_text_chars(rows);
        let comma: Seq<char> = if grid.len() > 1 {
            seq![',', '\n']
        } else {
            Seq::empty()
        };
        assert(grid_chars(comma));
        lemma_grid_chars_add(grid_text(init), comma);
        lemma_grid_chars_add(grid_text(init) + comma, rows_text(rows));
    }
}

/// The `#NOTES` value of a legible chart stands for itself.
proof fn lemma_notes_value(chart: ChartView)
    requires
        legible(chart.notes, chart.style),
        within_reach(chart.notes),
        body_written(chart) is Ok,
    ensures
        scannable(seq!['\n'] + body_written(chart)->Ok_0),
{
    law_chart_round_trip(chart);
    let body = body_written(chart)->Ok_0;
    lemma_grid_text_chars(grid_written(chart)->Ok_0);
    assert(grid_chars(seq!['\n']));
    lemma_grid_chars_add(seq!['\n'], body);
    let v = seq!['\n'] + body;
    assert forall|i: int| 0 <= i < v.len() implies {
        let c = #[trigger] v[i];
        &&& c <= '\u{7f}'
        &&& c != ':'
        &&& c != ';'
        &&& c != '\\'
        &&& c != '#'
        &&& c != '/'
    } by {
        assert(grid_char(v[i]));
    }
}

/// Text in capital letters is its own upper-case form.
proof fn lemma_upper_fixed(s: Seq<char>)
    requires
        forall|i: int| 0 <= i < s.len() ==> 'A' <= #[trigger] s[i] && s[i] <= 'Z',
    ensures
        upper(s) == s,
        scannable(s),
{
    assert(upper(s) =~= s);
}

/// The tags, as they are read.
proof fn lemma_tags()
    ensures
        upper("VERSION"@) == "VERSION"@ && scannable("VERSION"@),
        upper("TITLE"@) == "TITLE"@ && scannable("TITLE"@),
        upper("ARTIST"@) == "ARTIST"@ && scannable("ARTIST"@),
        upper("OFFSET"@) == "OFFSET"@ && scannable("OFFSET"@),
        upper("BPMS"@) == "BPMS"@ && scannable("BPMS"@),
        upper("STOPS"@) == "STOPS"@ && scannable("STOPS"@),
        upper("SAMPLESTART"@) == "SAMPLESTART"@ && scannable("SAMPLESTART"@),
        upper("SAMPLELENGTH"@) == "SAMPLELENGTH"@ && scannable("SAMPLELENGTH"@),
        upper("NOTEDATA"@) == "NOTEDATA"@ && scannable("NOTEDATA"@),
        upper("STEPSTYPE"@) == "STEPSTYPE"@ && scannable("STEPSTYPE"@),
        upper("DIFFICULTY"@) == "DIFFICULTY"@ && scannable("DIFFICULTY"@),
        upper("NOTES"@) == "NOTES"@ && scannable("NOTES"@),
{
    reveal_strlit("VERSION");
    reveal_strlit("TITLE");
    reveal_strlit("ARTIST");
    reveal_strlit("OFFSET");
    reveal_strlit("BPMS");
    reveal_strlit("STOPS");
    reveal_strlit("SAMPLESTART");
    reveal_strlit("SAMPLELENGTH");
    reveal_strlit("NOTEDATA");
    reveal_strlit("STEPSTYPE");
    reveal_strlit("DIFFICULTY");
    reveal_strlit("NOTES");
    lemma_upper_fixed("VERSION"@);
    lemma_upper_fixed("TITLE"@);
    lemma_upper_fixed("ARTIST"@);
    lemma_upper_fixed("OFFSET"@);
    lemma_upper_fixed("BPMS"@);
    lemma_upper_fixed("STOPS"@);
    lemma_upper_fixed("SAMPLESTART"@);
    lemma_upper_fixed("SAMPLELENGTH"@);
    lemma_upper_fixed("NOTEDATA"@);
    lemma_upper_fixed("STEPSTYPE"@);
    lemma_upper_fixed("DIFFICULTY"@);
    lemma_upper_fixed("NOTES"@);
}

/// No two tags are the same.
proof fn lemma_tags_differ()
    ensures
        "VERSION"@.len() == 7,
        "TITLE"@.len() == 5 && "TITLE"@[0] == 'T',
        "ARTIST"@.len() == 6 && "ARTIST"@[0] == 'A',
        "OFFSET"@.len() == 6 && "OFFSET"@[0] == 'O',
        "BPMS"@.len() == 4,
        "STOPS"@.len() == 5 && "STOPS"@[0] == 'S',
        "SAMPLESTART"@.len() == 11,
        "SAMPLELENGTH"@.len() == 12,
        "NOTEDATA"@.len() == 8,
        "STEPSTYPE"@.len() == 9,
        "DIFFICULTY"@.len() == 10,
        "NOTES"@.len() == 5 && "NOTES"@[0] == 'N',
        "NOTES2"@.len() == 6 && "NOTES2"@[0] == 'N',
{
    reveal_strlit("VERSION");
    reveal_strlit("TITLE");
    reveal_strlit("ARTIST");
    reveal_strlit("OFFSET");
    reveal_strlit("BPMS");
    reveal_strlit("STOPS");
    reveal_strlit("SAMPLESTART");
    reveal_strlit("SAMPLELENGTH");
    reveal_strlit("NOTEDATA");
    reveal_strlit("STEPSTYPE");
    reveal_strlit("DIFFICULTY");
    reveal_strlit("NOTES");
    reveal_strlit("NOTES2");
}

/// The lines of a representable song stand for themselves.
proof fn lemma_header_scannable(song: SongView)
    requires
        representable(song),
    ensures
        lines_scannable(header_lines(song)),
{
    lemma_tags();
    lemma_decimal_text(song.audio_sync_offset_seconds@);
    lemma_decimal_text(song.preview.start_seconds@);
    lemma_decimal_text(song.preview.length_seconds@);
    lemma_pairs_text(segment_pairs(song.tempo_segments));
    lemma_pairs_text(stop_pairs(song.stops));
    reveal_strlit("0.83");
    assert(scannable("0.83"@));
    let none = Seq::<char>::empty();
    assert(scannable(none));
    assert(scannable(or_empty(song.title)));
    assert(scannable(or_empty(song.artist)));
}

proof fn lemma_names_scannable(chart: ChartView)
    ensures
        scannable(stepstype_text(chart.style)),
        scannable(difficulty_text(chart.difficulty)),
{
    reveal_strlit("dance-single");
    reveal_strlit("dance-double");
    reveal_strlit("Beginner");
    reveal_strlit("Easy");
    reveal_strlit("Medium");
    reveal_strlit("Hard");
    reveal_strlit("Challenge");
}

proof fn lemma_charts_scannable(charts: Seq<ChartView>, n: nat)
    requires
        n <= charts.len(),
        forall|i: int|
            0 <= i < charts.len() ==> legible((#[trigger] charts[i]).notes, charts[i].style)
                && within_reach(charts[i].notes) && notedata_written(charts[i]) is Ok,
    ensures
        lines_scannable(charts_lines(charts, n)),
        charts_lines(charts, n).len() == 4 * n,
    decreases n,
{
    if n > 0 {
        lemma_charts_scannable(charts, (n - 1) as nat);
        let before = charts_lines(charts, (n - 1) as nat);
        let chart = charts[n - 1];
        let section = section_lines(chart);
        lemma_tags();
        lemma_names_scannable(chart);
        lemma_notes_value(chart);
        assert(scannable(Seq::<char>::empty()));
        assert(lines_scannable(section));
        let all = before + section;
        assert forall|i: int| 0 <= i < all.len() implies scannable((#[trigger] all[i]).0)
            && scannable(all[i].1) by {
            if i < before.len() {
                assert(all[i] == before[i]);
            } else {
                assert(all[i] == section[i - before.len()]);
            }
        }
    }
}

/// The song once its title has been read.
spec fn titled(song: SongView) -> SongView {
    SongView { title: song.title, ..bare_song() }
}

spec fn credited(song: SongView) -> SongView {
    SongView { artist: song.artist, ..titled(song) }
}

spec fn offset(song: SongView) -> SongView {
    SongView { audio_sync_offset_seconds: song.audio_sync_offset_seconds, ..credited(song) }
}

spec fn timed(song: SongView) -> SongView {
    SongView { tempo_segments: song.tempo_segments, ..offset(song) }
}

spec fn stopped(song: SongView) -> SongView {
    SongView { stops: song.stops, ..timed(song) }
}

spec fn sampled(song: SongView) -> SongView {
    SongView {
        preview: PreviewSlice {
            start_seconds: song.preview.start_seconds,
            ..bare_song().preview
        },
        ..stopped(song)
    }
}

/// The song once all its song-level tags have been read.
spec fn headed(song: SongView) -> SongView {
    SongView { preview: song.preview, ..stopped(song) }
}

proof fn lemma_read_names(song: SongView)
    requires
        representable(song),
    ensures
        value_outcome(seq!["VERSION"@, "0.83"@], bare_song(), None) == Ok::<
            (SongView, Option<DraftView>),
            SscErrorView,
        >((bare_song(), None)),
        value_outcome(seq!["TITLE"@, or_empty(song.title)], bare_song(), None) == Ok::<
            (SongView, Option<DraftView>),
            SscErrorView,
        >((titled(song), None)),
        value_outcome(seq!["ARTIST"@, or_empty(song.artist)], titled(song), None) == Ok::<
            (SongView, Option<DraftView>),
            SscErrorView,
        >((credited(song), None)),
{
    reveal(song_tag_outcome);
    lemma_tags();
    lemma_tags_differ();
    let none = Seq::<char>::empty();
    assert(trimmed(none) =~= none);
    assert(tag_of(seq!["VERSION"@, "0.83"@]) == "VERSION"@);
    assert(tag_of(seq!["TITLE"@, or_empty(song.title)]) == "TITLE"@);
    assert(param_of(seq!["TITLE"@, or_empty(song.title)], 1) == or_empty(song.title));
    assert(titled(song) =~= SongView { title: song.title, ..bare_song() });
    assert(tag_of(seq!["ARTIST"@, or_empty(song.artist)]) == "ARTIST"@);
    assert(param_of(seq!["ARTIST"@, or_empty(song.artist)], 1) == or_empty(song.artist));
}

proof fn lemma_read_seconds(tag: Seq<char>, r: Rational)
    requires
        exact_decimal(r@),
    ensures
        seconds_outcome(tag, trimmed(decimal_text(r@))) == Ok::<Rational, SscErrorView>(r),
{
    broadcast use group_model_values;

    lemma_decimal_text(r@);
    law_decimal_round_trip(r@);
}

proof fn lemma_read_offset(song: SongView)
    requires
        representable(song),
    ensures
        value_outcome(
            seq!["OFFSET"@, decimal_text(song.audio_sync_offset_seconds@)],
            credited(song),
            None,
        ) == Ok::<(SongView, Option<DraftView>), SscErrorView>((offset(song), None)),
{
    reveal(song_tag_outcome);
    lemma_tags();
    lemma_tags_differ();
    let v = seq!["OFFSET"@, decimal_text(song.audio_sync_offset_seconds@)];
    assert(tag_of(v) == "OFFSET"@);
    assert(param_of(v, 1) == decimal_text(song.audio_sync_offset_seconds@));
    lemma_read_seconds("OFFSET"@, song.audio_sync_offset_seconds);
}

proof fn lemma_read_bpms(song: SongView)
    requires
        representable(song),
    ensures
        value_outcome(
            seq!["BPMS"@, pairs_text(segment_pairs(song.tempo_segments))],
            offset(song),
            None,
        ) == Ok::<(SongView, Option<DraftView>), SscErrorView>((timed(song), None)),
{
    broadcast use group_model_values;

    reveal(song_tag_outcome);
    lemma_tags();
    lemma_tags_differ();
    let pairs = segment_pairs(song.tempo_segments);
    let v = seq!["BPMS"@, pairs_text(pairs)];
    assert(tag_of(v) == "BPMS"@);
    assert(param_of(v, 1) == pairs_text(pairs));
    assert(pairs_exact(pairs)) by {
        assert forall|i: int| 0 <= i < pairs.len() implies exact_decimal((#[trigger] pairs[i]).0)
            && exact_decimal(pairs[i].1) by {
            assert(exact_decimal(song.tempo_segments[i].start_beat@));
        }
    }
    lemma_pairs_back(pairs, "BPMS"@, "bpm"@);
    let read = Seq::new(rationals(pairs).len(), |i: int| segment_of(rationals(pairs)[i]));
    assert forall|i: int| 0 <= i < read.len() implies read[i] == song.tempo_segments[i] by {
        assert(exact_decimal(pairs[i].0) && exact_decimal(pairs[i].1));
        let s = song.tempo_segments[i];
        assert(read[i] == TempoSegment {
            start_beat: Beat::of(Rational::of(s.start_beat@)@),
            bpm: Bpm::of(Rational::of(s.bpm@)@),
        });
    }
    assert(read =~= song.tempo_segments);
}

proof fn lemma_read_stops(song: SongView)
    requires
        representable(song),
    ensures
        value_outcome(
            seq!["STOPS"@, pairs_text(stop_pairs(song.stops))],
            timed(song),
            None,
        ) == Ok::<(SongView, Option<DraftView>), SscErrorView>((stopped(song), None)),
{
    broadcast use group_model_values;

    reveal(song_tag_outcome);
    lemma_tags();
    lemma_tags_differ();
    let pairs = stop_pairs(song.stops);
    let v = seq!["STOPS"@, pairs_text(pairs)];
    assert(tag_of(v) == "STOPS"@);
    assert(param_of(v, 1) == pairs_text(pairs));
    assert(pairs_exact(pairs)) by {
        assert forall|i: int| 0 <= i < pairs.len() implies exact_decimal((#[trigger] pairs[i]).0)
            && exact_decimal(pairs[i].1) by {
            assert(exact_decimal(song.stops[i].at_beat@));
        }
    }
    lemma_pairs_back(pairs, "STOPS"@, "duration"@);
    let read = Seq::new(rationals(pairs).len(), |i: int| stop_of(rationals(pairs)[i]));
    assert forall|i: int| 0 <= i < read.len() implies read[i] == song.stops[i] by {
        assert(exact_decimal(pairs[i].0) && exact_decimal(pairs[i].1));
        let s = song.stops[i];
        assert(read[i] == Stop {
            at_beat: Beat::of(Rational::of(s.at_beat@)@),
            duration_seconds: Rational::of(s.duration_seconds@),
        });
    }
    assert(read =~= song.stops);
}

proof fn lemma_read_preview_start(song: SongView)
    requires
        representable(song),
    ensures
        value_outcome(
            seq!["SAMPLESTART"@, decimal_text(song.preview.start_seconds@)],
            stopped(song),
            None,
        ) == Ok::<(SongView, Option<DraftView>), SscErrorView>((sampled(song), None)),
{
    reveal(song_tag_outcome);
    lemma_tags();
    lemma_tags_differ();
    let v = seq!["SAMPLESTART"@, decimal_text(song.preview.start_seconds@)];
    assert(tag_of(v) == "SAMPLESTART"@);
    assert(param_of(v, 1) == decimal_text(song.preview.start_seconds@));
    lemma_read_seconds("SAMPLESTART"@, song.preview.start_seconds);
}

proof fn lemma_read_preview_length(song: SongView)
    requires
        representable(song),
    ensures
        value_outcome(
            seq!["SAMPLELENGTH"@, decimal_text(song.preview.length_seconds@)],
            sampled(song),
            None,
        ) == Ok::<(SongView, Option<DraftView>), SscErrorView>((headed(song), None)),
{
    reveal(song_tag_outcome);
    lemma_tags();
    lemma_tags_differ();
    let v = seq!["SAMPLELENGTH"@, decimal_text(song.preview.length_seconds@)];
    assert(tag_of(v) == "SAMPLELENGTH"@);
    assert(param_of(v, 1) == decimal_text(song.preview.length_seconds@));
    lemma_read_seconds("SAMPLELENGTH"@, song.preview.length_seconds);
}

/// Reading one value outside of the sections.
proof fn lemma_read_one(
    values: Seq<Seq<Seq<char>>>,
    i: int,
    v: Seq<Seq<char>>,
    before: SongView,
    after: SongView,
)
    requires
        0 <= i < values.len(),
        values[i] == v,
        value_outcome(v, before, None) == Ok::<(SongView, Option<DraftView>), SscErrorView>(
            (after, None),
        ),
    ensures
        values_from(values, i, before, None) == values_from(values, i + 1, after, None),
{
}

/// Whether some values start with those of a song's own tags.
spec fn starts_with_header(song: SongView, values: Seq<Seq<Seq<char>>>) -> bool {
    &&& values.len() >= 8
    &&& values[0] == seq!["VERSION"@, "0.83"@]
    &&& values[1] == seq!["TITLE"@, or_empty(song.title)]
    &&& values[2] == seq!["ARTIST"@, or_empty(song.artist)]
    &&& values[3] == seq!["OFFSET"@, decimal_text(song.audio_sync_offset_seconds@)]
    &&& values[4] == seq!["BPMS"@, pairs_text(segment_pairs(song.tempo_segments))]
    &&& values[5] == seq!["STOPS"@, pairs_text(stop_pairs(song.stops))]
    &&& values[6] == seq!["SAMPLESTART"@, decimal_text(song.preview.start_seconds@)]
    &&& values[7] == seq!["SAMPLELENGTH"@, decimal_text(song.preview.length_seconds@)]
}

proof fn lemma_starts_with_header(song: SongView, values: Seq<Seq<Seq<char>>>)
    requires
        values.len() >= 8,
        values.subrange(0, 8) == line_values(header_lines(song)),
    ensures
        starts_with_header(song, values),
{
    let h = line_values(header_lines(song));
    let s = values.subrange(0, 8);
    assert(values[0] == s[0] && values[1] == s[1] && values[2] == s[2] && values[3] == s[3]);
    assert(values[4] == s[4] && values[5] == s[5] && values[6] == s[6] && values[7] == s[7]);
}

proof fn lemma_read_first_half(song: SongView, values: Seq<Seq<Seq<char>>>)
    requires
        representable(song),
        starts_with_header(song, values),
    ensures
        values_from(values, 0, bare_song(), None) == values_from(values, 4, offset(song), None),
{
    lemma_read_names(song);
    lemma_read_one(values, 0, values[0], bare_song(), bare_song());
    lemma_read_one(values, 1, values[1], bare_song(), titled(song));
    lemma_read_one(values, 2, values[2], titled(song), credited(song));
    lemma_read_offset(song);
    lemma_read_one(values, 3, values[3], credited(song), offset(song));
}

proof fn lemma_read_second_half(song: SongView, values: Seq<Seq<Seq<char>>>)
    requires
        representable(song),
        starts_with_header(song, values),
    ensures
        values_from(values, 4, offset(song), None) == values_from(values, 8, headed(song), None),
{
    lemma_read_bpms(song);
    lemma_read_one(values, 4, values[4], offset(song), timed(song));
    lemma_read_stops(song);
    lemma_read_one(values, 5, values[5], timed(song), stopped(song));
    lemma_read_preview_start(song);
    lemma_read_one(values, 6, values[6], stopped(song), sampled(song));
    lemma_read_preview_length(song);
    lemma_read_one(values, 7, values[7], sampled(song), headed(song));
}

/// Reading the song-level tags.
proof fn lemma_read_header(song: SongView, values: Seq<Seq<Seq<char>>>)
    requires
        representable(song),
        values.len() >= 8,
        values.subrange(0, 8) == line_values(header_lines(song)),
    ensures
        values_from(values, 0, bare_song(), None) == values_from(values, 8, headed(song), None),
{
    lemma_starts_with_header(song, values);
    lemma_read_first_half(song, values);
    lemma_read_second_half(song, values);
}

/// A section once all its tags have been read.
spec fn finished(chart: ChartView) -> DraftView {
    DraftView {
        stepstype: Some(chart.style),
        difficulty: Some(chart.difficulty),
        notes_body: Some(seq!['\n'] + body_written(chart)->Ok_0),
        skip: false,
    }
}

/// Reading the tags of a chart, behind whatever came before.
proof fn lemma_read_section(
    chart: ChartView,
    song: SongView,
    draft: Option<DraftView>,
    next: SongView,
    values: Seq<Seq<Seq<char>>>,
    at: int,
)
    requires
        0 <= at,
        at + 4 <= values.len(),
        values.subrange(at, at + 4) == line_values(section_lines(chart)),
        section_ended(song, draft) == Ok::<SongView, SscErrorView>(next),
    ensures
        values_from(values, at, song, draft) == values_from(
            values,
            at + 4,
            next,
            Some(finished(chart)),
        ),
{
    let s = line_values(section_lines(chart));
    assert forall|i: int| 0 <= i < 4 implies #[trigger] values[at + i] == s[i] by {
        assert(values.subrange(at, at + 4)[i] == values[at + i]);
    }
    reveal(draft_tag_outcome);
    lemma_tags();
    lemma_tags_differ();
    law_stepstype_round_trip(chart.style);
    law_difficulty_round_trip(chart.difficulty);
    let none = Seq::<char>::empty();
    let body = seq!['\n'] + body_written(chart)->Ok_0;
    assert(values[at + 0] =~= seq!["NOTEDATA"@, none]);
    assert(values[at + 1] =~= seq!["STEPSTYPE"@, stepstype_text(chart.style)]);
    assert(values[at + 2] =~= seq!["DIFFICULTY"@, difficulty_text(chart.difficulty)]);
    assert(values[at + 3] =~= seq!["NOTES"@, body]);
    assert(tag_of(values[at]) == "NOTEDATA"@);
    assert(tag_of(values[at + 1]) == "STEPSTYPE"@);
    assert(tag_of(values[at + 2]) == "DIFFICULTY"@);
    assert(tag_of(values[at + 3]) == "NOTES"@);
    let d0 = empty_draft();
    let d1 = DraftView { stepstype: Some(chart.style), ..d0 };
    let d2 = DraftView { difficulty: Some(chart.difficulty), ..d1 };
    assert(values_from(values, at, song, draft) == values_from(values, at + 1, next, Some(d0)));
    assert(draft_tag_outcome(d0, values[at + 1]) == Ok::<DraftView, SscErrorView>(d1));
    assert(values_from(values, at + 1, next, Some(d0)) == values_from(
        values,
        at + 2,
        next,
        Some(d1),
    ));
    assert(draft_tag_outcome(d1, values[at + 2]) == Ok::<DraftView, SscErrorView>(d2));
    assert(values_from(values, at + 2, next, Some(d1)) == values_from(
        values,
        at + 3,
        next,
        Some(d2),
    ));
    assert(draft_tag_outcome(d2, values[at + 3]) == Ok::<DraftView, SscErrorView>(finished(chart)));
    assert(values_from(values, at + 3, next, Some(d2)) == values_from(
        values,
        at + 4,
        next,
        Some(finished(chart)),
    ));
}

/// The song with its first `n` charts.
spec fn with_charts(song: SongView, n: int) -> SongView {
    SongView { charts: song.charts.subrange(0, n), ..headed(song) }
}

/// What is open once the first `n` charts have been read.
spec fn open_section(song: SongView, n: int) -> Option<DraftView> {
    if n == 0 {
        None
    } else {
        Some(finished(song.charts[n - 1]))
    }
}

proof fn lemma_section_ends(song: SongView, n: int)
    requires
        representable(song),
        0 <= n <= song.charts.len(),
        forall|k: int|
            0 <= k < song.charts.len() ==> notedata_written(#[trigger] song.charts[k]) is Ok,
    ensures
        section_ended(
            with_charts(
                song,
                if n == 0 {
                    0
                } else {
                    n - 1
                },
            ),
            open_section(song, n),
        ) == Ok::<SongView, SscErrorView>(with_charts(song, n)),
{
    if n > 0 {
        let chart = song.charts[n - 1];
        law_notes_body_round_trip(chart, true);
        assert(draft_outcome(finished(chart)) == Ok::<Option<ChartView>, SscErrorView>(
            Some(ChartView { style: chart.style, difficulty: chart.difficulty, notes: chart.notes }),
        ));
        let before = with_charts(song, n - 1);
        assert(before.charts.push(chart) =~= song.charts.subrange(0, n));
        assert(with_chart(before, Some(chart)) =~= with_charts(song, n));
    }
}

/// Reading the charts from the `n`th on.
proof fn lemma_read_charts(song: SongView, values: Seq<Seq<Seq<char>>>, n: int)
    requires
        representable(song),
        0 <= n <= song.charts.len(),
        values.len() == 8 + 4 * song.charts.len(),
        forall|k: int|
            0 <= k < song.charts.len() ==> notedata_written(#[trigger] song.charts[k]) is Ok,
        forall|k: int|
            0 <= k < song.charts.len() ==> values.subrange(8 + 4 * k, 8 + 4 * k + 4)
                == line_values(section_lines(#[trigger] song.charts[k])),
    ensures
        values_from(
            values,
            8 + 4 * n,
            with_charts(
                song,
                if n == 0 {
                    0
                } else {
                    n - 1
                },
            ),
            open_section(song, n),
        ) == Ok::<SongView, SscErrorView>(with_charts(song, song.charts.len() as int)),
    decreases song.charts.len() - n,
{
    lemma_section_ends(song, n);
    if n < song.charts.len() {
        let before = with_charts(
            song,
            if n == 0 {
                0
            } else {
                n - 1
            },
        );
        lemma_read_section(
            song.charts[n],
            before,
            open_section(song, n),
            with_charts(song, n),
            values,
            8 + 4 * n,
        );
        lemma_read_charts(song, values, n + 1);
    }
}

proof fn lemma_charts_values(charts: Seq<ChartView>, n: nat, k: int)
    requires
        n <= charts.len(),
        0 <= k < n,
    ensures
        charts_lines(charts, n).len() == 4 * n,
        charts_lines(charts, n).subrange(4 * k, 4 * k + 4) == section_lines(charts[k]),
    decreases n,
{
    let before = charts_lines(charts, (n - 1) as nat);
    let section = section_lines(charts[n - 1]);
    let all = charts_lines(charts, n);
    if k < n - 1 {
        lemma_charts_values(charts, (n - 1) as nat, k);
        assert(all.subrange(4 * k, 4 * k + 4) =~= before.subrange(4 * k, 4 * k + 4));
    } else {
        if n > 1 {
            lemma_charts_values(charts, (n - 1) as nat, 0);
        }
        assert(before.len() == 4 * (n - 1));
        assert(all.subrange(4 * k, 4 * k + 4) =~= section);
    }
}

/// The lines of a representable song stand for themselves.
proof fn lemma_lines_scannable(song: SongView)
    requires
        representable(song),
        ssc_written(song) is Ok,
    ensures
        lines_scannable(header_lines(song) + charts_lines(song.charts, song.charts.len())),
        charts_lines(song.charts, song.charts.len()).len() == 4 * song.charts.len(),
{
    let n = song.charts.len();
    let h = header_lines(song);
    let c = charts_lines(song.charts, n);
    let lines = h + c;
    lemma_file_lines(song);
    lemma_header_scannable(song);
    lemma_charts_scannable(song.charts, n);
    assert(h.len() == 8);
    assert forall|i: int| 0 <= i < lines.len() implies scannable((#[trigger] lines[i]).0)
        && scannable(lines[i].1) by {
        if i < 8 {
            assert(lines[i] == h[i]);
        } else {
            assert(lines[i] == c[i - 8]);
        }
    }
}

/// The values of a song's file: those of its tags, then four for each chart.
proof fn lemma_song_values(
    h: Seq<(Seq<char>, Seq<char>)>,
    charts: Seq<ChartView>,
    k: int,
)
    requires
        h.len() == 8,
        0 <= k < charts.len(),
    ensures
        line_values(h + charts_lines(charts, charts.len())).subrange(8 + 4 * k, 8 + 4 * k + 4)
            == line_values(section_lines(charts[k])),
{
    let n = charts.len();
    let c = charts_lines(charts, n);
    let lines = h + c;
    let values = line_values(lines);
    lemma_charts_values(charts, n, k);
    let s = section_lines(charts[k]);
    let part = values.subrange(8 + 4 * k, 8 + 4 * k + 4);
    assert forall|i: int| 0 <= i < 4 implies part[i] == line_values(s)[i] by {
        assert(c.subrange(4 * k, 4 * k + 4)[i] == s[i]);
        assert(lines[8 + 4 * k + i] == c[4 * k + i]);
    }
    assert(part =~= line_values(s));
}

/// Reading the values of a song's file.
proof fn lemma_read_song(song: SongView, values: Seq<Seq<Seq<char>>>)
    requires
        representable(song),
        ssc_written(song) is Ok,
        values == line_values(header_lines(song) + charts_lines(song.charts, song.charts.len())),
        charts_lines(song.charts, song.charts.len()).len() == 4 * song.charts.len(),
    ensures
        values_from(values, 0, bare_song(), None) == Ok::<SongView, SscErrorView>(
            with_charts(song, song.charts.len() as int),
        ),
{
    let h = header_lines(song);
    assert(h.len() == 8);
    assert(values.subrange(0, 8) =~= line_values(h));
    lemma_read_header(song, values);
    assert forall|k: int| 0 <= k < song.charts.len() implies values.subrange(
        8 + 4 * k,
        8 + 4 * k + 4,
    ) == line_values(section_lines(#[trigger] song.charts[k])) by {
        lemma_song_values(h, song.charts, k);
    }
    lemma_file_lines(song);
    assert(with_charts(song, 0) =~= headed(song)) by {
        assert(song.charts.subrange(0, 0) =~= Seq::empty());
    }
    lemma_read_charts(song, values, 0);
}

/// Writing a song as SSC and reading the file gives the song back: its title and
/// artist, its sync offset, tempo changes, stops and preview window, and its
/// charts note for note. The file holds no audio.
pub proof fn law_ssc_round_trip(song: SongView)
    requires
        representable(song),
        ssc_written(song) is Ok,
    ensures
        ssc_outcome(ssc_written(song)->Ok_0) == Ok::<SongView, SscErrorView>(
            SongView { tps: 1000, audio: (Seq::empty(), 0, 0), ..song },
        ),
{
    let n = song.charts.len() as int;
    let lines = header_lines(song) + charts_lines(song.charts, song.charts.len());
    lemma_file_lines(song);
    lemma_lines_scannable(song);
    law_lines_round_trip(lines);
    lemma_read_song(song, line_values(lines));
    assert(song.charts.subrange(0, n) =~= song.charts);
    assert(with_charts(song, n) =~= SongView {
        tps: 1000,
        audio: (Seq::empty(), 0, 0),
        ..song
    });
}

} // verus!
