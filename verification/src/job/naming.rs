//! Names of the files that a job writes, and of the wave bank inside them.

use crate::cli::job::{Job, JobView};
use crate::ssc::text_round_trip::lacks;
use crate::util::chars::{chars_of, string_of};
use crate::util::path::{extension_of, file_name_of, input_stem, join, joined, song_stem, stem_of};
use crate::util::path_laws::{
    law_extension_is_behind_the_last_point, law_joined_path_ends_with_the_name,
};
use crate::xsb::{is_alphanumeric, is_valid_code, valid_code};
use vstd::prelude::*;
use vstd::string::StringExecFns;

verus! {

/// Length of the best-effort code derived from a basename that is not a
/// valid code in its own right. Stock DDR IDs are 4–5 characters.
const SONG_CODE_FALLBACK_LEN: usize = 4;

/// The basename shared by every file that a job writes.
pub open spec fn stem_for(job: JobView) -> Seq<char> {
    match job.song_code {
        Some(code) => code,
        None => song_stem(job.chart_in),
    }
}

/// The path of the output with extension `ext`.
pub open spec fn path_for(job: JobView, ext: Seq<char>) -> Seq<char> {
    joined(job.output_dir, stem_for(job) + "."@ + ext)
}

/// The first `limit` ASCII letters and digits of a text.
pub open spec fn first_alphanumerics(s: Seq<char>, limit: nat) -> Seq<char>
    decreases s.len(),
{
    if s.len() == 0 {
        Seq::empty()
    } else {
        let before = first_alphanumerics(s.drop_last(), limit);
        if before.len() < limit && is_alphanumeric(s.last()) {
            before.push(s.last())
        } else {
            before
        }
    }
}

/// The song code for a basename: the basename itself where it can be one, else
/// its first letters and digits.
pub open spec fn code_for(stem: Seq<char>) -> Seq<char> {
    if valid_code(stem) {
        stem
    } else {
        let fallback = first_alphanumerics(stem, 4);
        if fallback.len() == 0 {
            "song"@
        } else {
            fallback
        }
    }
}

/// Basename shared by every file a job writes: the explicit `--song-code`
/// when given, else the input chart's stem. For Ultramix inputs the
/// `_all` suffix is stripped (`abs2_all.ssq` → `abs2.ssc`) so output
/// filenames match the canonical per-song ID the game uses to find
/// assets.
pub fn output_stem(job: &Job) -> (s: String)
    ensures
        s@ == stem_for(job@),
{
    match &job.song_code {
        Some(code) => code.clone(),
        None => input_stem(job.chart_in.as_str()),
    }
}

/// Derive output path: the job's output basename with the given
/// extension, placed in the job's output directory. See [`output_stem`].
pub fn output_path(job: &Job, ext: &str) -> (path: String)
    ensures
        path@ == path_for(job@, ext@),
{
    join(job.output_dir.as_str(), output_stem(job).concat(".").concat(ext).as_str())
}

/// Resolve the DDR song code for a job: the name of the XACT wave bank
/// and of its two cues (`{code}` main, `{code}_s` preview).
///
/// DDR World plays a song by asking XACT for the cue named after the
/// song's ID, compared byte-for-byte (case included). The bank therefore
/// only produces sound when this code equals the ID the files are
/// installed under — which is also their basename. So the code *is* the
/// output basename: `--song-code` when given, else the input stem.
///
/// When the stem cannot be a code (spaces, punctuation, more than 16
/// characters) the bank is still written, with a best-effort code, so
/// the chart can be inspected — but the audio will be silent in-game.
pub fn resolve_song_code(job: &Job) -> (code: String)
    ensures
        code@ == code_for(stem_for(job@)),
        valid_code(code@),
{
    let stem = output_stem(job);
    if is_valid_code(stem.as_str()) {
        return stem;
    }
    let chars = chars_of(stem.as_str());
    let mut fallback: Vec<char> = Vec::new();
    let mut i: usize = 0;
    assert(fallback@ =~= first_alphanumerics(chars@.subrange(0, 0), 4));
    while i < chars.len()
        invariant
            i <= chars@.len(),
            fallback@ == first_alphanumerics(chars@.subrange(0, i as int), 4),
            fallback@.len() <= 4,
            forall|k: int| 0 <= k < fallback@.len() ==> is_alphanumeric(#[trigger] fallback@[k]),
        decreases chars@.len() - i,
    {
        let c: char = chars[i];
        assert(chars@.subrange(0, i + 1).drop_last() =~= chars@.subrange(0, i as int));
        if fallback.len() < SONG_CODE_FALLBACK_LEN && (('0' <= c && c <= '9') || ('a' <= c && c
            <= 'z') || ('A' <= c && c <= 'Z')) {
            fallback.push(c);
        }
        i = i + 1;
    }
    assert(chars@.subrange(0, i as int) =~= chars@);
    if fallback.len() == 0 {
        proof {
            reveal_strlit("song");
        }
        "song".to_owned()
    } else {
        string_of(&fallback)
    }
}

/// The name in the wave bank is the name of the files, wherever the basename can
/// be a song code.
pub proof fn law_code_is_the_basename(job: JobView, ext: Seq<char>)
    requires
        valid_code(stem_for(job)),
    ensures
        path_for(job, ext) == joined(job.output_dir, code_for(stem_for(job)) + "."@ + ext),
{
}

proof fn lemma_first_alphanumerics(s: Seq<char>, limit: nat)
    ensures
        first_alphanumerics(s, limit).len() <= limit,
        forall|i: int|
            0 <= i < first_alphanumerics(s, limit).len() ==> is_alphanumeric(
                #[trigger] first_alphanumerics(s, limit)[i],
            ),
    decreases s.len(),
{
    if s.len() > 0 {
        lemma_first_alphanumerics(s.drop_last(), limit);
    }
}

/// Whatever the basename, the code can name a wave bank.
pub proof fn law_code_is_always_valid(stem: Seq<char>)
    ensures
        valid_code(code_for(stem)),
{
    lemma_first_alphanumerics(stem, 4);
    reveal_strlit("song");
}

/// Every file of a job has the song code, or else the chart's name, and its extension,
/// and stands in the output directory.
pub proof fn law_outputs_are_named_alike(job: JobView, ext: Seq<char>)
    requires
        stem_for(job).len() > 0,
        lacks(stem_for(job), '/'),
        lacks(ext, '/'),
        lacks(ext, '.'),
        ext.len() > 0,
    ensures
        file_name_of(path_for(job, ext)) matches Some(name) && stem_of(name) == stem_for(job)
            && extension_of(name) == Some(ext),
        path_for(job, ext).len() >= job.output_dir.len(),
        path_for(job, ext).subrange(0, job.output_dir.len() as int) == job.output_dir,
        job.song_code matches Some(code) ==> stem_for(job) == code,
        job.song_code is None ==> stem_for(job) == song_stem(job.chart_in),
{
    let name = stem_for(job) + seq!['.'] + ext;
    reveal_strlit(".");
    assert(stem_for(job) + "."@ + ext =~= name);
    assert(lacks(name, '/'));
    law_joined_path_ends_with_the_name(job.output_dir, name);
    law_extension_is_behind_the_last_point(stem_for(job), ext);
}

} // verus!
