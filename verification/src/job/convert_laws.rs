//! What a conversion takes over, and how: names from a song's information file, the
//! sync offset from its simfile, and its code from its file name.

use super::batch::{ambiguous_files, skipped_files, successes};
use super::convert::{
    legacy_chart_outcome, names_sm, nul_fields, sif_applied, simfile_outcome, sm5_song_outcome,
    song_of, sync_moved,
};
use super::naming::{code_for, first_alphanumerics};
use crate::model::rational::{
    add_value, is_lowest, law_arithmetic_is_exact, law_sub_undoes_add, lemma_lowest, lowest, q_fits,
};
use crate::model::{group_model_values, SongView};
use crate::ssc::text_round_trip::lacks;
use crate::ssq::mines::in_i32;
use crate::ssq::tempo_meaning::{is_fraction, is_near};
use crate::ssq::{ssq_outcome, SsqErrorView, SsqView};
use crate::ssq_legacy::laws::{has_room, law_modernized_entries_keep_their_times};
use crate::ssq_legacy::modernize::modernized;
use crate::util::chars::{lower, lower_char};
use crate::util::pair::PairView;
use crate::util::path_laws::{
    law_extension_is_behind_the_last_point, law_file_name_is_behind_the_last_slash,
};
use crate::xsb::{is_alphanumeric, valid_code};
use vstd::prelude::*;
use vstd::utf8::{decode_utf8, valid_utf8};

verus! {

/// Whether some bytes hold no zero.
pub open spec fn zero_free(b: Seq<u8>) -> bool {
    forall|i: int| 0 <= i < b.len() ==> #[trigger] b[i] != 0
}

proof fn lemma_one_field(b: Seq<u8>)
    requires
        zero_free(b),
    ensures
        nul_fields(b) == seq![b],
    decreases b.len(),
{
    if b.len() > 0 {
        let init = b.drop_last();
        assert forall|i: int| 0 <= i < init.len() implies #[trigger] init[i] != 0 by {
            assert(init[i] == b[i]);
        }
        lemma_one_field(init);
        assert(seq![init].drop_last().push(init.push(b.last())) =~= seq![b]) by {
            assert(init.push(b.last()) =~= b);
        }
    } else {
        assert(b =~= Seq::empty());
    }
}

proof fn lemma_fields_nonempty(b: Seq<u8>)
    ensures
        nul_fields(b).len() > 0,
    decreases b.len(),
{
    if b.len() > 0 {
        lemma_fields_nonempty(b.drop_last());
    }
}

/// A zero byte ends a field: the fields of two texts with one between them are those of
/// the first and then those of the second.
pub proof fn law_zero_bytes_part_fields(a: Seq<u8>, b: Seq<u8>)
    ensures
        nul_fields(a + seq![0u8] + b) == nul_fields(a) + nul_fields(b),
    decreases b.len(),
{
    let s = a + seq![0u8] + b;
    if b.len() == 0 {
        assert(s.drop_last() =~= a);
        assert(nul_fields(s) =~= nul_fields(a) + nul_fields(b));
    } else {
        let init = b.drop_last();
        law_zero_bytes_part_fields(a, init);
        lemma_fields_nonempty(init);
        assert(s.drop_last() =~= a + seq![0u8] + init);
        assert(s.last() == b.last());
        assert(nul_fields(s) =~= nul_fields(a) + nul_fields(b));
    }
}

/// The text of some bytes, or none where they are not valid UTF-8.
pub open spec fn text_of(b: Seq<u8>) -> Seq<char> {
    if valid_utf8(b) {
        decode_utf8(b)
    } else {
        Seq::empty()
    }
}

/// A song's information file is a row of fields. The third is its title, the fourth its
/// subtitle, which follows the title after a space, and the fifth its artist. A field
/// that is empty changes nothing, and whatever follows is not looked at.
pub proof fn law_information_names_the_song(
    song: SongView,
    a: Seq<u8>,
    b: Seq<u8>,
    title: Seq<u8>,
    subtitle: Seq<u8>,
    artist: Seq<u8>,
    rest: Seq<u8>,
)
    requires
        zero_free(a),
        zero_free(b),
        zero_free(title),
        zero_free(subtitle),
        zero_free(artist),
    ensures
        ({
            let sif = a + seq![0u8] + (b + seq![0u8] + (title + seq![0u8] + (subtitle + seq![0u8] + (
            artist + seq![0u8] + rest))));
            let named = sif_applied(song, sif);
            &&& text_of(title).len() == 0 ==> named.title == song.title
            &&& text_of(title).len() > 0 && text_of(subtitle).len() == 0 ==> named.title == Some(
                text_of(title),
            )
            &&& text_of(title).len() > 0 && text_of(subtitle).len() > 0 ==> named.title == Some(
                text_of(title) + seq![' '] + text_of(subtitle),
            )
            &&& text_of(artist).len() == 0 ==> named.artist == song.artist
            &&& text_of(artist).len() > 0 ==> named.artist == Some(text_of(artist))
            &&& named.charts == song.charts
            &&& named.tempo_segments == song.tempo_segments
            &&& named.stops == song.stops
            &&& named.audio_sync_offset_seconds == song.audio_sync_offset_seconds
        }),
{
    let e = artist + seq![0u8] + rest;
    let d = subtitle + seq![0u8] + e;
    let c = title + seq![0u8] + d;
    let f = b + seq![0u8] + c;
    let sif = a + seq![0u8] + f;
    law_zero_bytes_part_fields(artist, rest);
    law_zero_bytes_part_fields(subtitle, e);
    law_zero_bytes_part_fields(title, d);
    law_zero_bytes_part_fields(b, c);
    law_zero_bytes_part_fields(a, f);
    lemma_one_field(a);
    lemma_one_field(b);
    lemma_one_field(title);
    lemma_one_field(subtitle);
    lemma_one_field(artist);
    lemma_fields_nonempty(rest);
    let fields = nul_fields(sif);
    assert(fields[2] == title);
    assert(fields[3] == subtitle);
    assert(fields[4] == artist);
    reveal_strlit(" ");
    assert(" "@ =~= seq![' ']);
}

/// A fraction and a number of milliseconds, added up.
proof fn lemma_offset_sum(sum: (int, int), m: (int, int), t: (int, int), ms: int)
    requires
        sum.0 * (m.1 * t.1) == (m.0 * t.1 + t.0 * m.1) * sum.1,
        t.0 * 1000 == ms * t.1,
        t.1 > 0,
    ensures
        sum.0 * (1000 * m.1) == (ms * m.1 + 1000 * m.0) * sum.1,
{
    let (mn, d) = m;
    let (tn, td) = t;
    let (x, y) = sum;
    assert((x * (1000 * d)) * td == 1000 * (x * (d * td))) by (nonlinear_arith);
    assert(((ms * d + 1000 * mn) * y) * td == (ms * td) * (d * y) + 1000 * ((mn * td) * y))
        by (nonlinear_arith);
    assert((tn * 1000) * (d * y) == 1000 * ((tn * d) * y)) by (nonlinear_arith);
    assert((mn * td + tn * d) * y == (mn * td) * y + (tn * d) * y) by (nonlinear_arith);
    let p = x * (1000 * d);
    let q = (ms * d + 1000 * mn) * y;
    assert(p == q) by (nonlinear_arith)
        requires
            p * td == q * td,
            td > 0,
    ;
}

/// A simfile's `#OFFSET` is the other way round than the sync offset, and so many
/// milliseconds are added to that. Nothing else of the song changes, and its time is
/// counted in milliseconds.
pub proof fn law_simfile_offset_is_negated(text: Seq<char>, is_sm: bool, ms: i32, song: SongView)
    requires
        simfile_outcome(text, is_sm) == Ok::<SongView, crate::error::ErrorView>(song),
        is_lowest(song.audio_sync_offset_seconds@),
        q_fits(song.audio_sync_offset_seconds@),
        -0x1_0000_0000 <= song.audio_sync_offset_seconds@.0 <= 0x1_0000_0000,
        song.audio_sync_offset_seconds@.1 <= 1_000_000,
    ensures
        sm5_song_outcome(text, is_sm, ms) matches Ok(out) && {
            let (n, d) = song.audio_sync_offset_seconds@;
            &&& is_fraction(out.audio_sync_offset_seconds@, ms * d - 1000 * n, 1000 * d)
            &&& out.tps == 1000
            &&& out.charts == song.charts
            &&& out.tempo_segments == song.tempo_segments
            &&& out.stops == song.stops
            &&& out.title == song.title
            &&& out.artist == song.artist
            &&& out.preview == song.preview
        },
{
    broadcast use group_model_values;

    let q = song.audio_sync_offset_seconds@;
    let (n, d) = q;
    let zero = (0int, 1int);
    lemma_lowest(0, 1);
    assert(lowest(0, 1) == zero) by {
        crate::model::rational::lemma_lowest_of_same((0, 1), (0, 1));
        assert(lowest(0, 1).0 == 0);
        assert(lowest(0, 1).1 == 1);
    }
    law_sub_undoes_add(zero, q);
    let neg = (-n, d);
    law_arithmetic_is_exact(zero, neg);
    let m = crate::model::rational::q_add(zero, neg);
    assert(0 * d + (-n) * 1 == -n && 1 * d == d);
    lemma_lowest(-n, d);
    assert(m == lowest(-n, d));
    crate::model::rational::lemma_lowest_of_same((-n, d), neg);
    assert(m == neg);
    assert(q_fits(m));
    assert(crate::model::rational::sub_value(zero, q) == Some(m));
    let t = lowest(ms as int, 1000);
    lemma_lowest(ms as int, 1000);
    law_arithmetic_is_exact(m, t);
    let (mn, md) = m;
    let (tn, td) = t;
    assert(-0x8000_0000 <= tn <= 0x8000_0000 && 0 < td <= 1000);
    assert(-0x1_0000_0000 <= mn <= 0x1_0000_0000 && 0 < md <= 1_000_000);
    assert(-0x1_0000_0000 * 1000 <= mn * td <= 0x1_0000_0000 * 1000) by (nonlinear_arith)
        requires
            -0x1_0000_0000 <= mn <= 0x1_0000_0000,
            0 < td <= 1000,
    ;
    assert(-0x8000_0000 * 1_000_000 <= tn * md <= 0x8000_0000 * 1_000_000) by (nonlinear_arith)
        requires
            -0x8000_0000 <= tn <= 0x8000_0000,
            0 < md <= 1_000_000,
    ;
    assert(0 < md * td <= 1_000_000_000) by (nonlinear_arith)
        requires
            0 < md <= 1_000_000,
            0 < td <= 1000,
    ;
    let sum = crate::model::rational::q_add(m, t);
    lemma_lowest(mn * td + tn * md, md * td);
    assert(add_value(m, t) == Some(sum));
    lemma_offset_sum(sum, (-n, d), t, ms as int);
}

/// A song from a stepfile has no names, and a preview of ten seconds half a minute in.
pub proof fn law_stepfile_songs_are_nameless(v: SsqView)
    ensures
        song_of(v).title is None,
        song_of(v).artist is None,
        song_of(v).preview.start_seconds@ == (30int, 1int),
        song_of(v).preview.length_seconds@ == (10int, 1int),
        song_of(v).charts == v.charts,
        song_of(v).tempo_segments == v.tempo_segments,
        song_of(v).stops == v.stops,
        song_of(v).tps == v.tps,
        song_of(v).audio_sync_offset_seconds == v.audio_sync_offset_seconds,
{
    broadcast use group_model_values;

}

/// The letters and digits that a code is made of are the first of its song's name.
pub proof fn law_codes_take_the_first_letters_and_digits(stem: Seq<char>, limit: nat)
    ensures
        ({
            let all = stem.filter(|c: char| is_alphanumeric(c));
            first_alphanumerics(stem, limit) == if all.len() < limit {
                all
            } else {
                all.subrange(0, limit as int)
            }
        }),
    decreases stem.len(),
{
    reveal(Seq::filter);
    if stem.len() > 0 {
        law_codes_take_the_first_letters_and_digits(stem.drop_last(), limit);
        let before = stem.drop_last().filter(|c: char| is_alphanumeric(c));
        let all = stem.filter(|c: char| is_alphanumeric(c));
        assert(is_alphanumeric(stem.last()) ==> all == before.push(stem.last()));
        assert(!is_alphanumeric(stem.last()) ==> all == before);
        if before.len() >= limit && is_alphanumeric(stem.last()) {
            assert(all.subrange(0, limit as int) =~= before.subrange(0, limit as int));
        }
        if before.len() + 1 == limit && is_alphanumeric(stem.last()) {
            assert(all.subrange(0, limit as int) =~= all);
            assert(before.subrange(0, before.len() as int) =~= before);
        }
    }
}

/// A name that is a code already is kept; of any other the first four letters and digits
/// are taken, and `song` stands in where there are none.
pub proof fn law_codes_come_from_names(stem: Seq<char>)
    ensures
        ({
            let all = stem.filter(|c: char| is_alphanumeric(c));
            &&& valid_code(stem) ==> code_for(stem) == stem
            &&& !valid_code(stem) && all.len() == 0 ==> code_for(stem) == seq!['s', 'o', 'n', 'g']
            &&& !valid_code(stem) && 0 < all.len() < 4 ==> code_for(stem) == all
            &&& !valid_code(stem) && all.len() >= 4 ==> code_for(stem) == all.subrange(0, 4)
        }),
{
    law_codes_take_the_first_letters_and_digits(stem, 4);
    reveal_strlit("song");
    assert("song"@ =~= seq!['s', 'o', 'n', 'g']);
}

/// The count of successes is that of the jobs that succeeded.
pub proof fn law_successes_are_counted(outcomes: Seq<bool>, n: nat)
    requires
        n <= outcomes.len(),
    ensures
        successes(outcomes, n) == outcomes.subrange(0, n as int).filter(|b: bool| b).len(),
    decreases n,
{
    reveal(Seq::filter);
    let s = outcomes.subrange(0, n as int);
    if n > 0 {
        law_successes_are_counted(outcomes, (n - 1) as nat);
        assert(s.drop_last() =~= outcomes.subrange(0, n - 1));
    }
}

/// Files are skipped that have no partner, and all that an ambiguous name has.
pub proof fn law_skipped_files_are_counted(p: PairView, name: Seq<char>, files: Seq<Seq<char>>)
    ensures
        skipped_files(PairView { unpaired_charts: p.unpaired_charts.push(name), ..p })
            == skipped_files(p) + 1,
        skipped_files(PairView { unpaired_audio: p.unpaired_audio.push(name), ..p })
            == skipped_files(p) + 1,
        skipped_files(PairView { ambiguous: p.ambiguous.push((name, files)), ..p })
            == skipped_files(p) + files.len(),
        p.unpaired_charts.len() == 0 && p.unpaired_audio.len() == 0 && p.ambiguous.len() == 0
            ==> skipped_files(p) == 0,
{
    lemma_ambiguous(p.ambiguous, (name, files), p.ambiguous.len());
}

proof fn lemma_ambiguous(
    s: Seq<(Seq<char>, Seq<Seq<char>>)>,
    x: (Seq<char>, Seq<Seq<char>>),
    n: nat,
)
    requires
        n <= s.len(),
    ensures
        ambiguous_files(s.push(x), n) == ambiguous_files(s, n),
    decreases n,
{
    if n > 0 {
        lemma_ambiguous(s, x, (n - 1) as nat);
    }
}

/// A chart is a `.sm` file where its extension is `sm` in either case; any other is read
/// as SSC.
pub proof fn law_sm_files_go_by_their_extension(dir: Seq<char>, stem: Seq<char>, ext: Seq<char>)
    requires
        stem.len() > 0,
        lacks(stem, '/'),
        lacks(ext, '/'),
        lacks(ext, '.'),
        ext.len() > 0,
    ensures
        names_sm(dir + seq!['/'] + (stem + seq!['.'] + ext)) <==> ext.len() == 2 && (ext[0] == 's'
            || ext[0] == 'S') && (ext[1] == 'm' || ext[1] == 'M'),
{
    let name = stem + seq!['.'] + ext;
    assert(lacks(name, '/'));
    law_file_name_is_behind_the_last_slash(dir, name);
    law_extension_is_behind_the_last_point(stem, ext);
    reveal_strlit("sm");
    let sm = "sm"@;
    assert(sm.len() == 2 && sm[0] == 's' && sm[1] == 'm');
    let l = lower(ext);
    if l == sm {
        assert(l[0] == lower_char(ext[0]) && l[1] == lower_char(ext[1]));
    }
    if ext.len() == 2 && (ext[0] == 's' || ext[0] == 'S') && (ext[1] == 'm' || ext[1] == 'M') {
        assert(l =~= sm);
    }
}

/// A legacy chart is modernized first, and its sync offset then is in milliseconds: the
/// first tempo entry is at its old time, in milliseconds, and so many later. Its notes
/// are those of the modernized chart.
pub proof fn law_legacy_offset_is_in_milliseconds(chart: Seq<u8>, ms: i32, v: SsqView)
    requires
        ssq_outcome(chart) == Ok::<SsqView, SsqErrorView>(v),
        has_room(v),
        in_i32(modernized(v).raw_tempo_pairs[0].1 + ms),
    ensures
        legacy_chart_outcome(chart, ms) matches Ok(out) && {
            let first = out.raw_tempo_pairs[0];
            &&& out.tps == 1000
            &&& first.0 == 0
            &&& is_near(first.1 - ms, 1000 * v.raw_tempo_pairs[0].1, v.tps as int)
            &&& forall|i: int|
                0 < i < v.raw_tempo_pairs.len() ==> #[trigger] out.raw_tempo_pairs[i] == modernized(
                    v,
                ).raw_tempo_pairs[i]
            &&& out.charts == modernized(v).charts
            &&& out.events == modernized(v).events
        },
{
    let m = modernized(v);
    law_modernized_entries_keep_their_times(v, 0);
    assert(sync_moved(m, 0).raw_tempo_pairs =~= m.raw_tempo_pairs);
}

} // verus!
