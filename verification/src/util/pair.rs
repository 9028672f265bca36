//! Basename pairing for batch-mode file discovery.
//!
//! Matches the chart+audio pairs in a flat directory listing by a source
//! format's expected extensions. Handles ambiguity (multiple audio
//! files for one basename) and unpaired files.

use crate::cli::job::{audio_exts, chart_exts, strs_view, Format};
use crate::util::chars::{
    chars_of, is_text_before, lower, reads, same_text, string_of, strip_suffix, text_before,
    to_lower, without_suffix,
};
use crate::util::path::{extension, extension_of, file_stem, stem_of};
use vstd::prelude::*;

verus! {

/// One entry of a directory listing.
#[derive(Debug, Clone)]
pub struct FileEntry {
    /// The file name, without the directory.
    pub name: String,
    /// Whether the entry is a regular file.
    pub is_file: bool,
}

/// The contents of a `FileEntry`.
#[verifier::ext_equal]
pub struct FileView {
    pub name: Seq<char>,
    pub is_file: bool,
}

impl View for FileEntry {
    type V = FileView;

    open spec fn view(&self) -> FileView {
        FileView { name: self.name@, is_file: self.is_file }
    }
}

/// The contents of a directory listing.
pub open spec fn files_view(files: Seq<FileEntry>) -> Seq<FileView> {
    Seq::new(files.len(), |i: int| files[i]@)
}

/// Result of pairing files in a directory.
#[derive(Debug)]
pub struct PairResult {
    /// Successfully paired (chart name, audio name).
    pub pairs: Vec<(String, String)>,
    /// Basenames skipped due to ambiguous audio (basename, conflicting names).
    pub ambiguous: Vec<(String, Vec<String>)>,
    /// Unpaired chart files (no matching audio).
    pub unpaired_charts: Vec<String>,
    /// Unpaired audio files (no matching chart).
    pub unpaired_audio: Vec<String>,
}

/// The contents of a `PairResult`.
#[verifier::ext_equal]
pub struct PairView {
    pub pairs: Seq<(Seq<char>, Seq<char>)>,
    pub ambiguous: Seq<(Seq<char>, Seq<Seq<char>>)>,
    pub unpaired_charts: Seq<Seq<char>>,
    pub unpaired_audio: Seq<Seq<char>>,
}

/// The contents of a list of names.
pub open spec fn names_view(v: Seq<String>) -> Seq<Seq<char>> {
    Seq::new(v.len(), |i: int| v[i]@)
}

pub open spec fn pairs_view(v: Seq<(String, String)>) -> Seq<(Seq<char>, Seq<char>)> {
    Seq::new(v.len(), |i: int| (v[i].0@, v[i].1@))
}

pub open spec fn ambiguous_view(v: Seq<(String, Vec<String>)>) -> Seq<
    (Seq<char>, Seq<Seq<char>>),
> {
    Seq::new(v.len(), |i: int| (v[i].0@, names_view(v[i].1@)))
}

impl View for PairResult {
    type V = PairView;

    open spec fn view(&self) -> PairView {
        PairView {
            pairs: pairs_view(self.pairs@),
            ambiguous: ambiguous_view(self.ambiguous@),
            unpaired_charts: names_view(self.unpaired_charts@),
            unpaired_audio: names_view(self.unpaired_audio@),
        }
    }
}

/// What a file of a listing is to a format.
#[verifier::ext_equal]
pub enum Role {
    /// A chart, with the rank of its extension and its basename.
    Chart { rank: int, key: Seq<char> },
    /// Audio, with its basename.
    Audio { key: Seq<char> },
    Neither,
}

/// The position of `ext` in a list of extensions, from `i` on.
pub open spec fn ext_rank(exts: Seq<Seq<char>>, ext: Seq<char>, i: int) -> Option<int>
    decreases exts.len() - i,
{
    if i >= exts.len() {
        None
    } else if exts[i] == ext {
        Some(i)
    } else {
        ext_rank(exts, ext, i + 1)
    }
}

/// The basename that a chart is paired by. Ultramix chart filenames use
/// `{id}_all.ssq` while their audio siblings are `{id}.wavm`.
pub open spec fn chart_key(name: Seq<char>, format: Format) -> Seq<char> {
    if format == Format::DdrLegacy {
        without_suffix(stem_of(name), "_all"@)
    } else {
        stem_of(name)
    }
}

/// What a file is to `format`.
pub open spec fn role_of(file: FileView, format: Format) -> Role {
    match extension_of(file.name) {
        None => Role::Neither,
        Some(e) => if !file.is_file {
            Role::Neither
        } else {
            match ext_rank(chart_exts(format), lower(e), 0) {
                Some(rank) => Role::Chart { rank, key: chart_key(file.name, format) },
                None => match ext_rank(audio_exts(format), lower(e), 0) {
                    Some(_) => Role::Audio { key: stem_of(file.name) },
                    None => Role::Neither,
                },
            }
        },
    }
}

/// A chart chosen for its basename.
#[verifier::ext_equal]
pub struct Choice {
    pub key: Seq<char>,
    pub rank: int,
    pub name: Seq<char>,
}

/// The position of the choice for a basename, from `i` on.
pub open spec fn choice_at(choices: Seq<Choice>, key: Seq<char>, i: int) -> Option<int>
    decreases choices.len() - i,
{
    if i >= choices.len() {
        None
    } else if choices[i].key == key {
        Some(i)
    } else {
        choice_at(choices, key, i + 1)
    }
}

/// The choices once a chart has been seen: the first chart of a basename is
/// taken, unless a later one has an extension that the format prefers.
pub open spec fn chosen(choices: Seq<Choice>, c: Choice) -> Seq<Choice> {
    match choice_at(choices, c.key, 0) {
        None => choices.push(c),
        Some(i) => if c.rank < choices[i].rank {
            choices.update(i, c)
        } else {
            choices
        },
    }
}

/// The charts to pair among the first `n` files, one for each basename.
pub open spec fn charts_among(files: Seq<FileView>, format: Format, n: nat) -> Seq<Choice>
    decreases n,
{
    if n == 0 {
        Seq::empty()
    } else {
        let before = charts_among(files, format, (n - 1) as nat);
        match role_of(files[n - 1], format) {
            Role::Chart { rank, key } => chosen(
                before,
                Choice { key, rank, name: files[n - 1].name },
            ),
            _ => before,
        }
    }
}

/// The audio files with a basename among the first `n` files.
pub open spec fn audio_named(
    files: Seq<FileView>,
    format: Format,
    key: Seq<char>,
    n: nat,
) -> Seq<Seq<char>>
    decreases n,
{
    if n == 0 {
        Seq::empty()
    } else {
        let before = audio_named(files, format, key, (n - 1) as nat);
        if role_of(files[n - 1], format) == (Role::Audio { key }) {
            before.push(files[n - 1].name)
        } else {
            before
        }
    }
}

/// `pairs`, in the order of their charts, with one more put in its place.
pub open spec fn inserted(
    pairs: Seq<(Seq<char>, Seq<char>)>,
    p: (Seq<char>, Seq<char>),
) -> Seq<(Seq<char>, Seq<char>)>
    decreases pairs.len(),
{
    if pairs.len() > 0 && text_before(p.0, pairs.last().0) {
        inserted(pairs.drop_last(), p).push(pairs.last())
    } else {
        pairs.push(p)
    }
}

/// The result once the first `n` charts have been matched with their audio.
pub open spec fn matched(
    files: Seq<FileView>,
    format: Format,
    charts: Seq<Choice>,
    n: nat,
) -> PairView
    decreases n,
{
    if n == 0 {
        PairView {
            pairs: Seq::empty(),
            ambiguous: Seq::empty(),
            unpaired_charts: Seq::empty(),
            unpaired_audio: Seq::empty(),
        }
    } else {
        let before = matched(files, format, charts, (n - 1) as nat);
        let chart = charts[n - 1];
        let audio = audio_named(files, format, chart.key, files.len());
        if audio.len() == 0 {
            PairView { unpaired_charts: before.unpaired_charts.push(chart.name), ..before }
        } else if audio.len() == 1 {
            PairView { pairs: inserted(before.pairs, (chart.name, audio[0])), ..before }
        } else {
            PairView { ambiguous: before.ambiguous.push((chart.key, audio)), ..before }
        }
    }
}

/// The audio files without a chart among the first `n` files.
pub open spec fn audio_without_chart(
    files: Seq<FileView>,
    format: Format,
    charts: Seq<Choice>,
    n: nat,
) -> Seq<Seq<char>>
    decreases n,
{
    if n == 0 {
        Seq::empty()
    } else {
        let before = audio_without_chart(files, format, charts, (n - 1) as nat);
        match role_of(files[n - 1], format) {
            Role::Audio { key } => if choice_at(charts, key, 0) is None {
                before.push(files[n - 1].name)
            } else {
                before
            },
            _ => before,
        }
    }
}

/// How the files of a listing pair up.
pub open spec fn pairing(files: Seq<FileView>, format: Format) -> PairView {
    let charts = charts_among(files, format, files.len());
    PairView {
        unpaired_audio: audio_without_chart(files, format, charts, files.len()),
        ..matched(files, format, charts, charts.len())
    }
}

struct ChartChoice {
    key: Vec<char>,
    rank: usize,
    name: Vec<char>,
}

impl View for ChartChoice {
    type V = Choice;

    closed spec fn view(&self) -> Choice {
        Choice { key: self.key@, rank: self.rank as int, name: self.name@ }
    }
}

spec fn choices_view(v: Seq<ChartChoice>) -> Seq<Choice> {
    Seq::new(v.len(), |i: int| v[i]@)
}

enum FileRole {
    Chart { rank: usize, key: Vec<char> },
    Audio { key: Vec<char> },
    Neither,
}

impl View for FileRole {
    type V = Role;

    closed spec fn view(&self) -> Role {
        match self {
            FileRole::Chart { rank, key } => Role::Chart { rank: *rank as int, key: key@ },
            FileRole::Audio { key } => Role::Audio { key: key@ },
            FileRole::Neither => Role::Neither,
        }
    }
}

fn find_ext(exts: &Vec<&'static str>, ext: &Vec<char>) -> (r: Option<usize>)
    ensures
        match ext_rank(strs_view(exts@), ext@, 0) {
            Some(i) => r is Some && r->0 == i,
            None => r is None,
        },
{
    let mut i: usize = 0;
    while i < exts.len()
        invariant
            i <= exts@.len(),
            ext_rank(strs_view(exts@), ext@, 0) == ext_rank(strs_view(exts@), ext@, i as int),
        decreases exts@.len() - i,
    {
        if reads(ext, exts[i]) {
            return Some(i);
        }
        i = i + 1;
    }
    None
}

fn classify(file: &FileEntry, format: Format) -> (role: FileRole)
    ensures
        role@ == role_of(file@, format),
{
    let name = chars_of(file.name.as_str());
    let ext = match extension(&name) {
        Some(e) => to_lower(&e),
        None => {
            return FileRole::Neither;
        },
    };
    if !file.is_file {
        return FileRole::Neither;
    }
    let stem = file_stem(&name);
    match find_ext(&format.chart_extensions(), &ext) {
        Some(rank) => {
            let key = if format == Format::DdrLegacy {
                strip_suffix(&stem, "_all")
            } else {
                stem
            };
            FileRole::Chart { rank, key }
        },
        None => match find_ext(&format.audio_extensions(), &ext) {
            Some(_) => FileRole::Audio { key: stem },
            None => FileRole::Neither,
        },
    }
}

fn find_choice(choices: &Vec<ChartChoice>, key: &Vec<char>) -> (r: Option<usize>)
    ensures
        match choice_at(choices_view(choices@), key@, 0) {
            Some(i) => r is Some && r->0 == i && i < choices@.len(),
            None => r is None,
        },
{
    let mut i: usize = 0;
    while i < choices.len()
        invariant
            i <= choices@.len(),
            choice_at(choices_view(choices@), key@, 0) == choice_at(
                choices_view(choices@),
                key@,
                i as int,
            ),
        decreases choices@.len() - i,
    {
        assert(choices_view(choices@)[i as int].key == choices@[i as int].key@);
        if same_text(&choices[i].key, key) {
            return Some(i);
        }
        i = i + 1;
    }
    None
}

fn choose_charts(files: &Vec<FileEntry>, format: Format) -> (choices: Vec<ChartChoice>)
    ensures
        choices_view(choices@) == charts_among(files_view(files@), format, files@.len()),
{
    let ghost all = files_view(files@);
    let mut choices: Vec<ChartChoice> = Vec::new();
    let mut i: usize = 0;
    assert(choices_view(choices@) =~= charts_among(all, format, 0));
    while i < files.len()
        invariant
            i <= files@.len(),
            all == files_view(files@),
            choices_view(choices@) == charts_among(all, format, i as nat),
        decreases files@.len() - i,
    {
        assert(all[i as int] == files@[i as int]@);
        let ghost before = choices_view(choices@);
        match classify(&files[i], format) {
            FileRole::Chart { rank, key } => {
                let found = find_choice(&choices, &key);
                let c = ChartChoice { key, rank, name: chars_of(files[i].name.as_str()) };
                let ghost v = c@;
                match found {
                    Some(at) => {
                        if rank < choices[at].rank {
                            choices.set(at, c);
                            assert(choices_view(choices@) =~= before.update(at as int, v));
                        }
                    },
                    None => {
                        choices.push(c);
                        assert(choices_view(choices@) =~= before.push(v));
                    },
                }
            },
            _ => {},
        }
        i = i + 1;
    }
    choices
}

fn audio_for(files: &Vec<FileEntry>, format: Format, key: &Vec<char>) -> (names: Vec<String>)
    ensures
        names_view(names@) == audio_named(files_view(files@), format, key@, files@.len()),
{
    let ghost all = files_view(files@);
    let mut names: Vec<String> = Vec::new();
    let mut i: usize = 0;
    assert(names_view(names@) =~= audio_named(all, format, key@, 0));
    while i < files.len()
        invariant
            i <= files@.len(),
            all == files_view(files@),
            names_view(names@) == audio_named(all, format, key@, i as nat),
        decreases files@.len() - i,
    {
        assert(all[i as int] == files@[i as int]@);
        let ghost before = names_view(names@);
        match classify(&files[i], format) {
            FileRole::Audio { key: own } => {
                if same_text(&own, key) {
                    let name = string_of(&chars_of(files[i].name.as_str()));
                    let ghost v = name@;
                    names.push(name);
                    assert(names_view(names@) =~= before.push(v));
                }
            },
            _ => {},
        }
        i = i + 1;
    }
    names
}

fn lone_audio(files: &Vec<FileEntry>, format: Format, charts: &Vec<ChartChoice>) -> (names: Vec<
    String,
>)
    ensures
        names_view(names@) == audio_without_chart(
            files_view(files@),
            format,
            choices_view(charts@),
            files@.len(),
        ),
{
    let ghost all = files_view(files@);
    let ghost choices = choices_view(charts@);
    let mut names: Vec<String> = Vec::new();
    let mut i: usize = 0;
    assert(names_view(names@) =~= audio_without_chart(all, format, choices, 0));
    while i < files.len()
        invariant
            i <= files@.len(),
            all == files_view(files@),
            choices == choices_view(charts@),
            names_view(names@) == audio_without_chart(all, format, choices, i as nat),
        decreases files@.len() - i,
    {
        assert(all[i as int] == files@[i as int]@);
        let ghost before = names_view(names@);
        match classify(&files[i], format) {
            FileRole::Audio { key } => match find_choice(charts, &key) {
                Some(_) => {},
                None => {
                    let name = string_of(&chars_of(files[i].name.as_str()));
                    let ghost v = name@;
                    names.push(name);
                    assert(names_view(names@) =~= before.push(v));
                },
            },
            _ => {},
        }
        i = i + 1;
    }
    names
}

fn insert_pair(pairs: &mut Vec<(String, String)>, p: (String, String))
    ensures
        pairs_view(final(pairs)@) == inserted(pairs_view(old(pairs)@), (p.0@, p.1@)),
    decreases old(pairs)@.len(),
{
    let ghost before = pairs@;
    match pairs.pop() {
        Some(last) => {
            assert(pairs_view(before).drop_last() =~= pairs_view(pairs@));
            assert(pairs_view(before).last() == (last.0@, last.1@));
            if is_text_before(&chars_of(p.0.as_str()), &chars_of(last.0.as_str())) {
                insert_pair(pairs, p);
                let ghost put = pairs_view(pairs@);
                let ghost v = (last.0@, last.1@);
                pairs.push(last);
                assert(pairs_view(pairs@) =~= put.push(v));
            } else {
                let ghost v = (p.0@, p.1@);
                pairs.push(last);
                pairs.push(p);
                assert(pairs_view(pairs@) =~= pairs_view(before).push(v));
            }
        },
        None => {
            let ghost v = (p.0@, p.1@);
            pairs.push(p);
            assert(pairs_view(pairs@) =~= pairs_view(before).push(v));
        },
    }
}

/// Pair the charts and audio files of a directory listing for `format`.
///
/// Only regular files count, and only the listing itself (no recursion).
pub fn find_pairs(files: &Vec<FileEntry>, format: Format) -> (result: PairResult)
    ensures
        result@ == pairing(files_view(files@), format),
{
    let charts = choose_charts(files, format);
    let ghost all = files_view(files@);
    let ghost choices = choices_view(charts@);
    let mut pairs: Vec<(String, String)> = Vec::new();
    let mut ambiguous: Vec<(String, Vec<String>)> = Vec::new();
    let mut unpaired_charts: Vec<String> = Vec::new();
    let mut i: usize = 0;
    proof {
        let none = matched(all, format, choices, 0);
        assert(pairs_view(pairs@) =~= none.pairs);
        assert(ambiguous_view(ambiguous@) =~= none.ambiguous);
        assert(names_view(unpaired_charts@) =~= none.unpaired_charts);
    }
    while i < charts.len()
        invariant
            i <= charts@.len(),
            all == files_view(files@),
            choices == choices_view(charts@),
            pairs_view(pairs@) == matched(all, format, choices, i as nat).pairs,
            ambiguous_view(ambiguous@) == matched(all, format, choices, i as nat).ambiguous,
            names_view(unpaired_charts@) == matched(
                all,
                format,
                choices,
                i as nat,
            ).unpaired_charts,
        decreases charts@.len() - i,
    {
        let chart = &charts[i];
        assert(choices[i as int] == chart@);
        let mut audio = audio_for(files, format, &chart.key);
        let ghost found = names_view(audio@);
        let name = string_of(&chart.name);
        if audio.len() == 0 {
            let ghost before = names_view(unpaired_charts@);
            let ghost v = name@;
            unpaired_charts.push(name);
            assert(names_view(unpaired_charts@) =~= before.push(v));
        } else if audio.len() == 1 {
            match audio.pop() {
                Some(a) => {
                    assert(found[0] == a@);
                    insert_pair(&mut pairs, (name, a));
                },
                None => {},
            }
        } else {
            let ghost before = ambiguous_view(ambiguous@);
            let key = string_of(&chart.key);
            let ghost v = (key@, found);
            ambiguous.push((key, audio));
            assert(ambiguous_view(ambiguous@) =~= before.push(v));
        }
        i = i + 1;
    }
    let unpaired_audio = lone_audio(files, format, &charts);
    let result = PairResult { pairs, ambiguous, unpaired_charts, unpaired_audio };
    proof {
        lemma_no_lone_audio(all, format, choices, choices.len());
        assert(result@ =~= pairing(all, format));
    }
    result
}

proof fn lemma_no_lone_audio(files: Seq<FileView>, format: Format, charts: Seq<Choice>, n: nat)
    ensures
        matched(files, format, charts, n).unpaired_audio.len() == 0,
    decreases n,
{
    if n > 0 {
        lemma_no_lone_audio(files, format, charts, (n - 1) as nat);
    }
}

} // verus!
