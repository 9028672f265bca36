//! What holds of every pairing.

use crate::cli::job::Format;
use crate::util::chars::{before_from, text_before};
use crate::util::pair::{
    audio_named, audio_without_chart, charts_among, choice_at, inserted, matched, pairing, role_of,
    Choice, FileView, Role,
};
use crate::util::path::stem_of;
use vstd::prelude::*;

verus! {

/// Whether no two choices are for one basename.
pub open spec fn keys_distinct(choices: Seq<Choice>) -> bool {
    forall|i: int, j: int|
        0 <= i < j < choices.len() ==> (#[trigger] choices[i]).key != (#[trigger] choices[j]).key
}

/// Whether a choice is a chart of the listing.
pub open spec fn is_chart_of(files: Seq<FileView>, format: Format, c: Choice) -> bool {
    exists|i: int|
        0 <= i < files.len() && (#[trigger] files[i]).name == c.name && role_of(files[i], format) == (
        Role::Chart { rank: c.rank, key: c.key })
}

pub proof fn lemma_choice_at(choices: Seq<Choice>, key: Seq<char>, i: int)
    requires
        0 <= i,
    ensures
        match choice_at(choices, key, i) {
            Some(at) => i <= at < choices.len() && choices[at].key == key && forall|k: int|
                i <= k < at ==> (#[trigger] choices[k]).key != key,
            None => forall|k: int| i <= k < choices.len() ==> (#[trigger] choices[k]).key != key,
        },
    decreases choices.len() - i,
{
    if i >= choices.len() || choices[i].key == key {
    } else {
        lemma_choice_at(choices, key, i + 1);
    }
}

proof fn lemma_charts_among(files: Seq<FileView>, format: Format, n: nat)
    requires
        n <= files.len(),
    ensures
        keys_distinct(charts_among(files, format, n)),
        forall|k: int|
            0 <= k < charts_among(files, format, n).len() ==> is_chart_of(
                files,
                format,
                #[trigger] charts_among(files, format, n)[k],
            ),
        forall|i: int|
            0 <= i < n ==> match role_of(#[trigger] files[i], format) {
                Role::Chart { rank, key } => {
                    let at = choice_at(charts_among(files, format, n), key, 0);
                    at is Some && charts_among(files, format, n)[at->0].rank <= rank
                },
                _ => true,
            },
    decreases n,
{
    if n > 0 {
        lemma_charts_among(files, format, (n - 1) as nat);
        let before = charts_among(files, format, (n - 1) as nat);
        let now = charts_among(files, format, n);
        let f = files[n - 1];
        match role_of(f, format) {
            Role::Chart { rank, key } => {
                let c = Choice { key, rank, name: f.name };
                assert(is_chart_of(files, format, c)) by {
                    assert(files[n - 1].name == c.name);
                }
                lemma_choice_at(before, key, 0);
                lemma_choice_at(now, key, 0);
                assert forall|k: int| 0 <= k < now.len() implies is_chart_of(
                    files,
                    format,
                    #[trigger] now[k],
                ) by {
                    if now[k] != c {
                        assert(now[k] == before[k]);
                    }
                }
                assert forall|i: int| 0 <= i < n implies match role_of(#[trigger] files[i], format) {
                    Role::Chart { rank: r, key: k2 } => {
                        let at = choice_at(now, k2, 0);
                        at is Some && now[at->0].rank <= r
                    },
                    _ => true,
                } by {
                    match role_of(files[i], format) {
                        Role::Chart { rank: r, key: k2 } => {
                            lemma_choice_at(now, k2, 0);
                            lemma_choice_at(before, k2, 0);
                            if i < n - 1 {
                                let at = choice_at(before, k2, 0)->0;
                                assert(before[at].rank <= r);
                                assert(now[at].key == k2 && now[at].rank <= r);
                                let found = choice_at(now, k2, 0);
                                if found is Some && found->0 != at {
                                    if found->0 < at {
                                        assert(now[found->0].key != now[at].key);
                                    } else {
                                        assert(now[at].key != now[found->0].key);
                                    }
                                }
                            } else {
                                let at = match choice_at(before, key, 0) {
                                    Some(j) => j,
                                    None => before.len() as int,
                                };
                                assert(now[at].key == key && now[at].rank <= rank);
                                let found = choice_at(now, key, 0);
                                if found is Some && found->0 != at {
                                    if found->0 < at {
                                        assert(now[found->0].key != now[at].key);
                                    } else {
                                        assert(now[at].key != now[found->0].key);
                                    }
                                }
                            }
                        },
                        _ => {},
                    }
                }
            },
            _ => {},
        }
    }
}

/// Whether a file of the listing is audio with a name and a basename.
pub open spec fn is_audio_of(
    files: Seq<FileView>,
    format: Format,
    name: Seq<char>,
    key: Seq<char>,
) -> bool {
    exists|i: int|
        0 <= i < files.len() && (#[trigger] files[i]).name == name && role_of(files[i], format) == (
        Role::Audio { key })
}

proof fn lemma_audio_named(files: Seq<FileView>, format: Format, key: Seq<char>, n: nat)
    requires
        n <= files.len(),
    ensures
        forall|k: int|
            0 <= k < audio_named(files, format, key, n).len() ==> is_audio_of(
                files,
                format,
                #[trigger] audio_named(files, format, key, n)[k],
                key,
            ),
    decreases n,
{
    if n > 0 {
        lemma_audio_named(files, format, key, (n - 1) as nat);
        let before = audio_named(files, format, key, (n - 1) as nat);
        let now = audio_named(files, format, key, n);
        assert forall|k: int| 0 <= k < now.len() implies is_audio_of(
            files,
            format,
            #[trigger] now[k],
            key,
        ) by {
            if k < before.len() {
                assert(now[k] == before[k]);
            } else {
                assert(files[n - 1].name == now[k]);
            }
        }
    }
}

/// Whether a pair is a chart and an audio file of one basename, `key`.
pub open spec fn is_pair_of(
    files: Seq<FileView>,
    format: Format,
    pair: (Seq<char>, Seq<char>),
    key: Seq<char>,
) -> bool {
    &&& is_audio_of(files, format, pair.1, key)
    &&& exists|rank: int| #[trigger]
        is_chart_of(files, format, Choice { key, rank, name: pair.0 })
}

proof fn lemma_inserted(
    pairs: Seq<(Seq<char>, Seq<char>)>,
    p: (Seq<char>, Seq<char>),
)
    ensures
        inserted(pairs, p).len() == pairs.len() + 1,
        inserted(pairs, p).to_multiset() =~= pairs.to_multiset().insert(p),
    decreases pairs.len(),
{
    broadcast use vstd::seq_lib::group_to_multiset_ensures;

    if pairs.len() > 0 && text_before(p.0, pairs.last().0) {
        lemma_inserted(pairs.drop_last(), p);
        let rest = inserted(pairs.drop_last(), p);
        assert(inserted(pairs, p) =~= rest.push(pairs.last()));
        assert(pairs =~= pairs.drop_last().push(pairs.last()));
    }
}

/// The pairs of the first `n` charts, in the order of the charts.
spec fn pairs_unsorted(
    files: Seq<FileView>,
    format: Format,
    charts: Seq<Choice>,
    n: nat,
) -> Seq<(Seq<char>, Seq<char>)>
    decreases n,
{
    if n == 0 {
        Seq::empty()
    } else {
        let before = pairs_unsorted(files, format, charts, (n - 1) as nat);
        let audio = audio_named(files, format, charts[n - 1].key, files.len());
        if audio.len() == 1 {
            before.push((charts[n - 1].name, audio[0]))
        } else {
            before
        }
    }
}

proof fn lemma_matched_pairs(files: Seq<FileView>, format: Format, charts: Seq<Choice>, n: nat)
    ensures
        matched(files, format, charts, n).pairs.to_multiset() == pairs_unsorted(
            files,
            format,
            charts,
            n,
        ).to_multiset(),
    decreases n,
{
    broadcast use vstd::seq_lib::group_to_multiset_ensures;

    if n > 0 {
        lemma_matched_pairs(files, format, charts, (n - 1) as nat);
        let before = matched(files, format, charts, (n - 1) as nat);
        let audio = audio_named(files, format, charts[n - 1].key, files.len());
        if audio.len() == 1 {
            lemma_inserted(before.pairs, (charts[n - 1].name, audio[0]));
        }
    }
}

proof fn lemma_unsorted(files: Seq<FileView>, format: Format, n: nat)
    requires
        n <= charts_among(files, format, files.len()).len(),
    ensures
        ({
            let charts = charts_among(files, format, files.len());
            let pairs = pairs_unsorted(files, format, charts, n);
            forall|k: int|
                0 <= k < pairs.len() ==> exists|c: int|
                    0 <= c < n && is_pair_of(
                        files,
                        format,
                        #[trigger] pairs[k],
                        (#[trigger] charts[c]).key,
                    ) && pairs[k].0 == charts[c].name
        }),
    decreases n,
{
    let charts = charts_among(files, format, files.len());
    if n > 0 {
        lemma_unsorted(files, format, (n - 1) as nat);
        let before = pairs_unsorted(files, format, charts, (n - 1) as nat);
        let pairs = pairs_unsorted(files, format, charts, n);
        let c = charts[n - 1];
        let audio = audio_named(files, format, c.key, files.len());
        lemma_charts_among(files, format, files.len());
        lemma_audio_named(files, format, c.key, files.len());
        assert forall|k: int| 0 <= k < pairs.len() implies exists|c: int|
            0 <= c < n && is_pair_of(files, format, #[trigger] pairs[k], (#[trigger] charts[c]).key)
                && pairs[k].0 == charts[c].name by {
            if k < before.len() {
                assert(pairs[k] == before[k]);
                let w = choose|w: int|
                    0 <= w < n - 1 && is_pair_of(
                        files,
                        format,
                        before[k],
                        (#[trigger] charts[w]).key,
                    ) && before[k].0 == charts[w].name;
                assert(is_pair_of(files, format, pairs[k], charts[w].key));
            } else {
                assert(pairs[k] == (c.name, audio[0]));
                assert(is_chart_of(files, format, charts[n - 1]));
                assert(charts[n - 1] == Choice { key: c.key, rank: c.rank, name: pairs[k].0 });
                assert(is_audio_of(files, format, audio[0], c.key));
                assert(is_pair_of(files, format, pairs[k], charts[n - 1].key));
            }
        }
    }
}

/// Every pair is a chart and an audio file of the listing that share their
/// basename.
pub proof fn law_pairs_share_a_basename(files: Seq<FileView>, format: Format, k: int)
    requires
        0 <= k < pairing(files, format).pairs.len(),
    ensures
        exists|key: Seq<char>| #[trigger]
            is_pair_of(files, format, pairing(files, format).pairs[k], key),
{
    broadcast use vstd::seq_lib::group_to_multiset_ensures;

    let charts = charts_among(files, format, files.len());
    let n = charts.len();
    let pairs = pairing(files, format).pairs;
    let unsorted = pairs_unsorted(files, format, charts, n);
    lemma_matched_pairs(files, format, charts, n);
    lemma_unsorted(files, format, n);
    assert(pairs.contains(pairs[k]));
    assert(unsorted.to_multiset().count(pairs[k]) > 0);
    assert(unsorted.contains(pairs[k]));
    let j = choose|j: int| 0 <= j < unsorted.len() && unsorted[j] == pairs[k];
    let c = choose|c: int|
        0 <= c < n && is_pair_of(files, format, unsorted[j], (#[trigger] charts[c]).key)
            && unsorted[j].0 == charts[c].name;
    assert(is_pair_of(files, format, pairs[k], charts[c].key));
}

/// Where a format has two chart extensions, the chart that is paired has the one
/// that comes first: no chart of the same basename has an earlier one. A song
/// that ships both `song.ssc` and `song.sm` is read from the `.ssc`.
pub proof fn law_preferred_extension_wins(files: Seq<FileView>, format: Format, i: int)
    requires
        0 <= i < files.len(),
        role_of(files[i], format) is Chart,
    ensures
        ({
            let charts = charts_among(files, format, files.len());
            let at = choice_at(charts, role_of(files[i], format)->Chart_key, 0);
            &&& at is Some
            &&& charts[at->0].rank <= role_of(files[i], format)->Chart_rank
            &&& is_chart_of(files, format, charts[at->0])
        }),
{
    let charts = charts_among(files, format, files.len());
    lemma_charts_among(files, format, files.len());
    lemma_choice_at(charts, role_of(files[i], format)->Chart_key, 0);
}

/// At most one chart is chosen for a basename.
pub proof fn law_one_chart_for_each_basename(files: Seq<FileView>, format: Format)
    ensures
        keys_distinct(charts_among(files, format, files.len())),
{
    lemma_charts_among(files, format, files.len());
}

/// Of two texts, at most one comes before the other.
proof fn lemma_text_before_asym(a: Seq<char>, b: Seq<char>, i: int)
    requires
        0 <= i,
        before_from(a, b, i),
    ensures
        !before_from(b, a, i),
    decreases a.len() - i,
{
    if i < a.len() && i < b.len() && a[i] == b[i] {
        lemma_text_before_asym(a, b, i + 1);
    }
}

/// Whether no chart name comes before that of the pair in front of it.
pub open spec fn in_chart_order(pairs: Seq<(Seq<char>, Seq<char>)>) -> bool {
    forall|i: int| 0 < i < pairs.len() ==> !text_before((#[trigger] pairs[i]).0, pairs[i - 1].0)
}

proof fn lemma_inserted_order(pairs: Seq<(Seq<char>, Seq<char>)>, p: (Seq<char>, Seq<char>))
    requires
        in_chart_order(pairs),
    ensures
        in_chart_order(inserted(pairs, p)),
        inserted(pairs, p).len() == pairs.len() + 1,
        inserted(pairs, p).last() == p || (pairs.len() > 0 && inserted(pairs, p).last()
            == pairs.last()),
    decreases pairs.len(),
{
    if pairs.len() > 0 && text_before(p.0, pairs.last().0) {
        let init = pairs.drop_last();
        assert forall|i: int| 0 < i < init.len() implies !text_before(
            (#[trigger] init[i]).0,
            init[i - 1].0,
        ) by {
            assert(init[i] == pairs[i]);
        }
        lemma_inserted_order(init, p);
        let rest = inserted(init, p);
        let all = rest.push(pairs.last());
        assert forall|i: int| 0 < i < all.len() implies !text_before(
            (#[trigger] all[i]).0,
            all[i - 1].0,
        ) by {
            if i < rest.len() {
                assert(all[i] == rest[i]);
            } else if rest.last() == p {
                lemma_text_before_asym(p.0, pairs.last().0, 0);
            } else {
                assert(pairs[pairs.len() - 1] == all[i]);
            }
        }
    }
}

proof fn lemma_matched_order(files: Seq<FileView>, format: Format, charts: Seq<Choice>, n: nat)
    ensures
        in_chart_order(matched(files, format, charts, n).pairs),
    decreases n,
{
    if n > 0 {
        lemma_matched_order(files, format, charts, (n - 1) as nat);
        let before = matched(files, format, charts, (n - 1) as nat);
        let audio = audio_named(files, format, charts[n - 1].key, files.len());
        lemma_inserted_order(before.pairs, (charts[n - 1].name, audio[0]));
    }
}

/// The pairs come in the order of their charts' names.
pub proof fn law_pairs_are_sorted(files: Seq<FileView>, format: Format)
    ensures
        in_chart_order(pairing(files, format).pairs),
{
    let charts = charts_among(files, format, files.len());
    lemma_matched_order(files, format, charts, charts.len());
}

/// Whether no two pairs have the same audio.
pub open spec fn audio_distinct(pairs: Seq<(Seq<char>, Seq<char>)>) -> bool {
    forall|i: int, j: int|
        0 <= i < j < pairs.len() ==> (#[trigger] pairs[i]).1 != (#[trigger] pairs[j]).1
}

proof fn lemma_inserted_audio(pairs: Seq<(Seq<char>, Seq<char>)>, p: (Seq<char>, Seq<char>))
    requires
        audio_distinct(pairs),
        forall|k: int| 0 <= k < pairs.len() ==> (#[trigger] pairs[k]).1 != p.1,
    ensures
        audio_distinct(inserted(pairs, p)),
        forall|k: int|
            0 <= k < inserted(pairs, p).len() ==> #[trigger] inserted(pairs, p)[k] == p
                || pairs.contains(inserted(pairs, p)[k]),
    decreases pairs.len(),
{
    if pairs.len() > 0 && text_before(p.0, pairs.last().0) {
        let init = pairs.drop_last();
        assert(audio_distinct(init));
        assert forall|k: int| 0 <= k < init.len() implies (#[trigger] init[k]).1 != p.1 by {
            assert(init[k] == pairs[k]);
        }
        lemma_inserted_audio(init, p);
        let rest = inserted(init, p);
        let all = rest.push(pairs.last());
        assert(pairs[pairs.len() - 1] == pairs.last());
        assert forall|i: int, j: int| 0 <= i < j < all.len() implies (#[trigger] all[i]).1 != (
        #[trigger] all[j]).1 by {
            assert(all[i] == rest[i]);
            if j == rest.len() {
                if rest[i] != p {
                    let k = choose|k: int| 0 <= k < init.len() && init[k] == rest[i];
                    assert(pairs[k] == rest[i]);
                }
            } else {
                assert(all[j] == rest[j]);
            }
        }
        assert forall|k: int| 0 <= k < all.len() implies #[trigger] all[k] == p || pairs.contains(
            all[k],
        ) by {
            if k < rest.len() {
                assert(all[k] == rest[k]);
                if rest[k] != p {
                    let m = choose|m: int| 0 <= m < init.len() && init[m] == rest[k];
                    assert(pairs[m] == rest[k]);
                }
            }
        }
    } else {
        let all = pairs.push(p);
        assert forall|k: int| 0 <= k < all.len() implies #[trigger] all[k] == p || pairs.contains(
            all[k],
        ) by {
            if k < pairs.len() {
                assert(all[k] == pairs[k]);
            }
        }
    }
}

/// Whether the audio of every pair has the basename of one of the first `n`
/// charts.
spec fn audio_keyed(pairs: Seq<(Seq<char>, Seq<char>)>, charts: Seq<Choice>, n: int) -> bool {
    forall|k: int|
        0 <= k < pairs.len() ==> exists|c: int|
            0 <= c < n && stem_of((#[trigger] pairs[k]).1) == (#[trigger] charts[c]).key
}

proof fn lemma_matched_audio(files: Seq<FileView>, format: Format, n: nat)
    requires
        n <= charts_among(files, format, files.len()).len(),
    ensures
        ({
            let charts = charts_among(files, format, files.len());
            let pairs = matched(files, format, charts, n).pairs;
            audio_distinct(pairs) && audio_keyed(pairs, charts, n as int)
        }),
    decreases n,
{
    let charts = charts_among(files, format, files.len());
    if n > 0 {
        lemma_matched_audio(files, format, (n - 1) as nat);
        lemma_charts_among(files, format, files.len());
        let before = matched(files, format, charts, (n - 1) as nat).pairs;
        let now = matched(files, format, charts, n).pairs;
        let key = charts[n - 1].key;
        let audio = audio_named(files, format, key, files.len());
        assert(audio_keyed(before, charts, n as int));
        if audio.len() == 1 {
            let p = (charts[n - 1].name, audio[0]);
            lemma_audio_named(files, format, key, files.len());
            assert(is_audio_of(files, format, audio[0], key));
            assert(stem_of(p.1) == key);
            assert forall|k: int| 0 <= k < before.len() implies (#[trigger] before[k]).1 != p.1 by {
                let c = choose|c: int|
                    0 <= c < n - 1 && stem_of(before[k].1) == (#[trigger] charts[c]).key;
                assert(charts[c].key != charts[n - 1].key);
            }
            lemma_inserted_audio(before, p);
            assert forall|k: int| 0 <= k < now.len() implies exists|c: int|
                0 <= c < n && stem_of((#[trigger] now[k]).1) == (#[trigger] charts[c]).key by {
                if now[k] == p {
                    assert(stem_of(now[k].1) == charts[n - 1].key);
                } else {
                    let m = choose|m: int| 0 <= m < before.len() && before[m] == now[k];
                    let c = choose|c: int|
                        0 <= c < n && stem_of(before[m].1) == (#[trigger] charts[c]).key;
                    assert(stem_of(now[k].1) == charts[c].key);
                }
            }
        }
    }
}

/// No audio file is paired twice.
pub proof fn law_audio_is_paired_once(files: Seq<FileView>, format: Format)
    ensures
        audio_distinct(pairing(files, format).pairs),
{
    let charts = charts_among(files, format, files.len());
    lemma_matched_audio(files, format, charts.len());
}

/// Which files are charts and which are audio goes by their extensions, in either case:
/// `.ssq` and `.xwb` for DDR, `.wavm` too for its legacy form, and `.ssc`, or else `.sm`,
/// and `.ogg` for StepMania. Directories are neither.
pub proof fn law_extensions_tell_charts_from_audio(file: FileView, format: Format, ext: Seq<char>)
    requires
        crate::util::path::extension_of(file.name) == Some(ext),
    ensures
        ({
            let e = crate::util::chars::lower(ext);
            let key = stem_of(file.name);
            let role = role_of(file, format);
            let ssq = seq!['s', 's', 'q'];
            let xwb = seq!['x', 'w', 'b'];
            &&& !file.is_file ==> role is Neither
            &&& file.is_file && format is Ddr ==> {
                &&& role is Chart <==> e == ssq
                &&& role is Audio <==> e == xwb
                &&& e == ssq ==> role == (Role::Chart { rank: 0, key })
                &&& e == xwb ==> role == (Role::Audio { key })
            }
            &&& file.is_file && format is DdrLegacy ==> {
                &&& role is Chart <==> e == ssq
                &&& role is Audio <==> e == xwb || e == seq!['w', 'a', 'v', 'm']
                &&& role is Audio ==> role == (Role::Audio { key })
                &&& role is Chart ==> role == (Role::Chart {
                    rank: 0,
                    key: crate::util::chars::without_suffix(key, seq!['_', 'a', 'l', 'l']),
                })
            }
            &&& file.is_file && format is Sm5 ==> {
                &&& role is Chart <==> e == seq!['s', 's', 'c'] || e == seq!['s', 'm']
                &&& role is Audio <==> e == seq!['o', 'g', 'g']
                &&& e == seq!['s', 's', 'c'] ==> role == (Role::Chart { rank: 0, key })
                &&& e == seq!['s', 'm'] ==> role == (Role::Chart { rank: 1, key })
                &&& role is Audio ==> role == (Role::Audio { key })
            }
        }),
{
    reveal_strlit("ssq");
    reveal_strlit("ssc");
    reveal_strlit("sm");
    reveal_strlit("xwb");
    reveal_strlit("wavm");
    reveal_strlit("ogg");
    reveal_strlit("_all");
    assert("ssq"@ =~= seq!['s', 's', 'q']);
    assert("ssc"@ =~= seq!['s', 's', 'c']);
    assert("sm"@ =~= seq!['s', 'm']);
    assert("xwb"@ =~= seq!['x', 'w', 'b']);
    assert("wavm"@ =~= seq!['w', 'a', 'v', 'm']);
    assert("ogg"@ =~= seq!['o', 'g', 'g']);
    assert("_all"@ =~= seq!['_', 'a', 'l', 'l']);
    assert("ssq"@[2] == 'q' && "ssc"@[2] == 'c' && "xwb"@[0] == 'x' && "wavm"@[0] == 'w' && "ogg"@[0]
        == 'o' && "sm"@.len() == 2);
    reveal_with_fuel(crate::util::pair::ext_rank, 3);
}

/// What becomes of a chart goes by how many audio files have its basename: with none it
/// is left unpaired, with one it is paired with it, and with more its basename is
/// reported as ambiguous, with all of them. Each chart is counted once.
pub proof fn law_charts_are_sorted_out(
    files: Seq<FileView>,
    format: Format,
    charts: Seq<Choice>,
    n: nat,
    i: int,
)
    requires
        0 <= i < n <= charts.len(),
    ensures
        ({
            let found = matched(files, format, charts, n);
            let chart = charts[i];
            let audio = audio_named(files, format, chart.key, files.len());
            &&& audio.len() == 0 ==> found.unpaired_charts.contains(chart.name)
            &&& audio.len() == 1 ==> found.pairs.contains((chart.name, audio[0]))
            &&& audio.len() >= 2 ==> found.ambiguous.contains((chart.key, audio))
            &&& found.unpaired_charts.len() + found.pairs.len() + found.ambiguous.len() == n
        }),
    decreases n,
{
    let before = matched(files, format, charts, (n - 1) as nat);
    let found = matched(files, format, charts, n);
    let last = charts[n - 1];
    let audio = audio_named(files, format, last.key, files.len());
    if n > 1 {
        law_charts_are_sorted_out(
            files,
            format,
            charts,
            (n - 1) as nat,
            if i < n - 1 {
                i
            } else {
                0
            },
        );
    }
    if audio.len() == 0 {
        lemma_pushed(before.unpaired_charts, last.name);
    } else if audio.len() == 1 {
        lemma_insert_keeps(before.pairs, (last.name, audio[0]));
    } else {
        lemma_pushed(before.ambiguous, (last.key, audio));
    }
}

proof fn lemma_pushed<T>(s: Seq<T>, x: T)
    ensures
        s.push(x).contains(x),
        forall|y: T| #[trigger] s.contains(y) ==> s.push(x).contains(y),
{
    assert(s.push(x)[s.len() as int] == x);
    assert forall|y: T| #[trigger] s.contains(y) implies s.push(x).contains(y) by {
        let i = choose|i: int| 0 <= i < s.len() && s[i] == y;
        assert(s.push(x)[i] == y);
    }
}

proof fn lemma_insert_keeps(pairs: Seq<(Seq<char>, Seq<char>)>, p: (Seq<char>, Seq<char>))
    ensures
        inserted(pairs, p).contains(p),
        inserted(pairs, p).len() == pairs.len() + 1,
        forall|y: (Seq<char>, Seq<char>)| #[trigger]
            pairs.contains(y) ==> inserted(pairs, p).contains(y),
    decreases pairs.len(),
{
    if pairs.len() > 0 && text_before(p.0, pairs.last().0) {
        let init = pairs.drop_last();
        lemma_insert_keeps(init, p);
        lemma_pushed(inserted(init, p), pairs.last());
        assert forall|y: (Seq<char>, Seq<char>)| #[trigger] pairs.contains(y) implies inserted(
            pairs,
            p,
        ).contains(y) by {
            let i = choose|i: int| 0 <= i < pairs.len() && pairs[i] == y;
            if i < init.len() {
                assert(init[i] == y);
                assert(init.contains(y));
            }
        }
    } else {
        lemma_pushed(pairs, p);
    }
}

/// Audio is left unpaired where no chart has its basename, and then only.
pub proof fn law_audio_without_a_chart_is_left(
    files: Seq<FileView>,
    format: Format,
    charts: Seq<Choice>,
    n: nat,
    i: int,
    key: Seq<char>,
)
    requires
        0 <= i < n <= files.len(),
        role_of(files[i], format) == (Role::Audio { key }),
    ensures
        (forall|j: int| 0 <= j < charts.len() ==> (#[trigger] charts[j]).key != key)
            ==> audio_without_chart(files, format, charts, n).contains(files[i].name),
        forall|name: Seq<char>| #[trigger]
            audio_without_chart(files, format, charts, n).contains(name) ==> lacks_chart(
                files,
                format,
                charts,
                name,
            ),
    decreases n,
{
    lemma_lone_audio(files, format, charts, n);
    let before = audio_without_chart(files, format, charts, (n - 1) as nat);
    if i < n - 1 {
        law_audio_without_a_chart_is_left(files, format, charts, (n - 1) as nat, i, key);
    }
    lemma_pushed(before, files[n - 1].name);
    if forall|j: int| 0 <= j < charts.len() ==> (#[trigger] charts[j]).key != key {
        lemma_choice_at(charts, key, 0);
    }
}

/// Whether a listing has audio of a name whose basename no chart has.
pub open spec fn lacks_chart(
    files: Seq<FileView>,
    format: Format,
    charts: Seq<Choice>,
    name: Seq<char>,
) -> bool {
    exists|i: int|
        0 <= i < files.len() && (#[trigger] files[i]).name == name && (role_of(files[i], format)
            matches Role::Audio { key } && forall|j: int|
            0 <= j < charts.len() ==> (#[trigger] charts[j]).key != key)
}

proof fn lemma_lone_audio(files: Seq<FileView>, format: Format, charts: Seq<Choice>, n: nat)
    requires
        n <= files.len(),
    ensures
        forall|name: Seq<char>| #[trigger]
            audio_without_chart(files, format, charts, n).contains(name) ==> lacks_chart(
                files,
                format,
                charts,
                name,
            ),
    decreases n,
{
    if n > 0 {
        lemma_lone_audio(files, format, charts, (n - 1) as nat);
        let before = audio_without_chart(files, format, charts, (n - 1) as nat);
        let now = audio_without_chart(files, format, charts, n);
        assert forall|name: Seq<char>| #[trigger] now.contains(name) implies lacks_chart(
            files,
            format,
            charts,
            name,
        ) by {
            let k = choose|k: int| 0 <= k < now.len() && now[k] == name;
            if k < before.len() {
                assert(before[k] == name);
                assert(before.contains(name));
            } else if let Role::Audio { key } = role_of(files[n - 1], format) {
                lemma_choice_at(charts, key, 0);
                assert(files[n - 1].name == name);
            }
        }
    }
}

} // verus!
