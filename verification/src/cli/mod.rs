//! CLI argument validation and job planning.

pub mod job;

use self::job::{jobs_view, Format, Job, JobView};
use crate::model::text_view;
use crate::util::pair::{
    files_view, find_pairs, names_view, pairing, FileEntry, FileView, PairResult, PairView,
};
use crate::util::path::{join, joined};
use crate::util::text::{debug_text, quoted};
use crate::xsb::{is_valid_code, valid_code};
use vstd::prelude::*;
use vstd::string::StringExecFns;

verus! {

#[derive(Debug, Clone)]
pub enum CliError {
    LegacyOutputForbidden,
    UnsupportedConversion { from: Format, to: Format },
    MissingFilePair,
    PairAmbiguity { basename: String, reason: String },
    NoPairs { dir: String },
    SongCodeRequiresDdrOutput,
    SongCodeRequiresSingleFile,
    BadSongCode { code: String },
    Io(String),
}

/// A `CliError` with its texts as character sequences.
#[verifier::ext_equal]
pub enum CliErrorView {
    LegacyOutputForbidden,
    UnsupportedConversion { from: Format, to: Format },
    MissingFilePair,
    PairAmbiguity { basename: Seq<char>, reason: Seq<char> },
    NoPairs { dir: Seq<char> },
    SongCodeRequiresDdrOutput,
    SongCodeRequiresSingleFile,
    BadSongCode { code: Seq<char> },
    Io(Seq<char>),
}

impl View for CliError {
    type V = CliErrorView;

    open spec fn view(&self) -> CliErrorView {
        match self {
            CliError::LegacyOutputForbidden => CliErrorView::LegacyOutputForbidden,
            CliError::UnsupportedConversion { from, to } => CliErrorView::UnsupportedConversion {
                from: *from,
                to: *to,
            },
            CliError::MissingFilePair => CliErrorView::MissingFilePair,
            CliError::PairAmbiguity { basename, reason } => CliErrorView::PairAmbiguity {
                basename: basename@,
                reason: reason@,
            },
            CliError::NoPairs { dir } => CliErrorView::NoPairs { dir: dir@ },
            CliError::SongCodeRequiresDdrOutput => CliErrorView::SongCodeRequiresDdrOutput,
            CliError::SongCodeRequiresSingleFile => CliErrorView::SongCodeRequiresSingleFile,
            CliError::BadSongCode { code } => CliErrorView::BadSongCode { code: code@ },
            CliError::Io(s) => CliErrorView::Io(s@),
        }
    }
}

/// The name of a format.
pub open spec fn format_text(format: Format) -> Seq<char> {
    match format {
        Format::Ddr => "Ddr"@,
        Format::DdrLegacy => "DdrLegacy"@,
        Format::Sm5 => "Sm5"@,
    }
}

impl CliErrorView {
    /// The text of the error.
    pub open spec fn text(self) -> Seq<char> {
        match self {
            CliErrorView::LegacyOutputForbidden =>
            "--to-format DDR_LEGACY is not supported (legacy output cannot be authored)"@,
            CliErrorView::UnsupportedConversion { from, to } => "unsupported conversion: "@
                + format_text(from) + " -> "@ + format_text(to),
            CliErrorView::MissingFilePair =>
            "--chartfile and --audiofile must be specified together"@,
            CliErrorView::PairAmbiguity { basename, reason } => "batch pairing error for "@
                + basename + ": "@ + reason,
            CliErrorView::NoPairs { dir } => "no eligible file pairs found in "@ + dir,
            CliErrorView::SongCodeRequiresDdrOutput =>
            "--song-code only applies to --to-format DDR (it names the XACT wave bank and cues)"@,
            CliErrorView::SongCodeRequiresSingleFile =>
            "--song-code needs --chartfile; in batch mode name each input pair after its song code"@,
            CliErrorView::BadSongCode { code } =>
            "--song-code must be 1-16 ASCII letters or digits, got "@ + debug_text(code),
            CliErrorView::Io(s) => "I/O error: "@ + s,
        }
    }
}

fn format_name(format: Format) -> (s: &'static str)
    ensures
        s@ == format_text(format),
{
    match format {
        Format::Ddr => "Ddr",
        Format::DdrLegacy => "DdrLegacy",
        Format::Sm5 => "Sm5",
    }
}

impl CliError {
    /// The error in words.
    pub fn message(&self) -> (text: String)
        ensures
            text@ == self@.text(),
    {
        match self {
            CliError::LegacyOutputForbidden =>
            "--to-format DDR_LEGACY is not supported (legacy output cannot be authored)".to_owned(),
            CliError::UnsupportedConversion { from, to } =>
            "unsupported conversion: ".to_owned().concat(format_name(*from)).concat(" -> ").concat(
                format_name(*to),
            ),
            CliError::MissingFilePair =>
            "--chartfile and --audiofile must be specified together".to_owned(),
            CliError::PairAmbiguity { basename, reason } =>
            "batch pairing error for ".to_owned().concat(basename.as_str()).concat(": ").concat(
                reason.as_str(),
            ),
            CliError::NoPairs { dir } => "no eligible file pairs found in ".to_owned().concat(
                dir.as_str(),
            ),
            CliError::SongCodeRequiresDdrOutput =>
            "--song-code only applies to --to-format DDR (it names the XACT wave bank and cues)".to_owned(),
            CliError::SongCodeRequiresSingleFile =>
            "--song-code needs --chartfile; in batch mode name each input pair after its song code".to_owned(),
            CliError::BadSongCode { code } =>
            "--song-code must be 1-16 ASCII letters or digits, got ".to_owned().concat(
                quoted(code.as_str()).as_str(),
            ),
            CliError::Io(s) => "I/O error: ".to_owned().concat(s.as_str()),
        }
    }
}

/// Convert song and chart assets between DDR arcade and StepMania 5 formats.
#[derive(Debug, Clone)]
pub struct Cli {
    /// Source format.
    pub from_format: Format,
    /// Target format.
    pub to_format: Format,
    /// Path to a single chart file (requires --audiofile).
    pub chartfile: Option<String>,
    /// Path to a single audio file (requires --chartfile).
    pub audiofile: Option<String>,
    /// Directory of file pairs to convert in batch.
    pub input_folder: Option<String>,
    /// Directory to write converted files into. Defaults to `./output`
    /// in single-file mode and `<input-folder>/output` in batch mode.
    pub output_dir: Option<String>,
    /// Overwrite existing output files.
    pub overwrite: bool,
    /// Increase log verbosity (-v = debug, -vv = trace).
    pub verbose: u8,
    /// Suppress info-level output (keeps warn and error).
    pub quiet: bool,
    /// Add this many milliseconds to the audio-sync offset. Positive
    /// values delay the chart relative to the audio: beat 0 lands N ms
    /// later in the audio (adds N to `tempo_data[0]` in SSQ, subtracts
    /// N/1000 from `#OFFSET` in SSC).
    pub sync_offset_ms: Option<i32>,
    /// DDR song code for the converted song (e.g. `muka`): names the
    /// output `.ssq`/`.xwb`/`.xsb` and the wave bank and cues inside
    /// them. 1–16 ASCII letters/digits. Single-file mode with
    /// `--to-format DDR` only; in batch mode name each input pair after
    /// its code instead.
    pub song_code: Option<String>,
}

/// The conversions that are supported.
pub open spec fn convertible(from: Format, to: Format) -> bool {
    ||| from == Format::Ddr && to == Format::Sm5
    ||| from == Format::Sm5 && to == Format::Ddr
    ||| from == Format::DdrLegacy && to == Format::Ddr
    ||| from == Format::DdrLegacy && to == Format::Sm5
}

/// What is wrong with the arguments, if anything: the first rule that they break.
pub open spec fn broken_rule(cli: Cli) -> Option<CliErrorView> {
    if cli.to_format == Format::DdrLegacy {
        Some(CliErrorView::LegacyOutputForbidden)
    } else if cli.chartfile is None && cli.input_folder is None {
        Some(CliErrorView::MissingFilePair)
    } else if cli.chartfile is Some && cli.audiofile is None {
        Some(CliErrorView::MissingFilePair)
    } else if !convertible(cli.from_format, cli.to_format) {
        Some(CliErrorView::UnsupportedConversion { from: cli.from_format, to: cli.to_format })
    } else {
        match cli.song_code {
            None => None,
            Some(code) => if cli.chartfile is None {
                Some(CliErrorView::SongCodeRequiresSingleFile)
            } else if cli.to_format != Format::Ddr {
                Some(CliErrorView::SongCodeRequiresDdrOutput)
            } else if !valid_code(code@) {
                Some(CliErrorView::BadSongCode { code: code@ })
            } else {
                None
            },
        }
    }
}

/// `text`, or `default` where there is none.
pub open spec fn text_or(text: Option<String>, default: Seq<char>) -> Seq<char> {
    match text {
        Some(t) => t@,
        None => default,
    }
}

/// The job of a pair in batch mode.
pub open spec fn batch_job(cli: Cli, pair: (Seq<char>, Seq<char>)) -> JobView {
    let dir = cli.input_folder->0@;
    JobView {
        from: cli.from_format,
        to: cli.to_format,
        chart_in: joined(dir, pair.0),
        audio_in: joined(dir, pair.1),
        overwrite: cli.overwrite,
        output_dir: text_or(cli.output_dir, joined(dir, "output"@)),
        sync_offset_ms: sync_of(cli),
        song_code: None,
    }
}

/// The sync offset that was asked for.
pub open spec fn sync_of(cli: Cli) -> i32 {
    match cli.sync_offset_ms {
        Some(n) => n,
        None => 0,
    }
}

/// The quoted form of each name, separated by commas.
pub open spec fn quoted_names(names: Seq<Seq<char>>) -> Seq<char>
    decreases names.len(),
{
    if names.len() == 0 {
        Seq::empty()
    } else {
        quoted_names(names.drop_last()) + (if names.len() > 1 {
            ", "@
        } else {
            Seq::empty()
        }) + debug_text(names.last())
    }
}

/// What a run does, given the contents of the input folder: the jobs and, in
/// batch mode, the pairing.
pub open spec fn plan_outcome(cli: Cli, listing: Seq<FileView>) -> Result<
    (Seq<JobView>, Option<PairView>),
    CliErrorView,
> {
    if cli.chartfile is Some && cli.audiofile is Some {
        Ok(
            (
                seq![
                    JobView {
                        from: cli.from_format,
                        to: cli.to_format,
                        chart_in: cli.chartfile->0@,
                        audio_in: cli.audiofile->0@,
                        overwrite: cli.overwrite,
                        output_dir: text_or(cli.output_dir, "output"@),
                        sync_offset_ms: sync_of(cli),
                        song_code: text_view(cli.song_code),
                    },
                ],
                None,
            ),
        )
    } else {
        let found = pairing(listing, cli.from_format);
        if found.ambiguous.len() > 0 {
            Err(
                CliErrorView::PairAmbiguity {
                    basename: found.ambiguous[0].0,
                    reason: "multiple audio files: ["@ + quoted_names(found.ambiguous[0].1) + "]"@,
                },
            )
        } else if found.pairs.len() == 0 {
            Err(CliErrorView::NoPairs { dir: cli.input_folder->0@ })
        } else {
            Ok(
                (
                    Seq::new(found.pairs.len(), |i: int| batch_job(cli, found.pairs[i])),
                    Some(found),
                ),
            )
        }
    }
}

/// What a run will do: the jobs, and in batch mode the directory
/// pairing they came from (so unpaired files can be reported).
#[derive(Debug)]
pub struct Plan {
    pub jobs: Vec<Job>,
    /// `Some` in batch mode, `None` for a single `--chartfile` pair.
    pub pairing: Option<PairResult>,
}

pub open spec fn pairing_view(pairing: Option<PairResult>) -> Option<PairView> {
    match pairing {
        Some(p) => Some(p@),
        None => None,
    }
}

fn or_default(text: Option<String>, default: String) -> (s: String)
    ensures
        s@ == text_or(text, default@),
{
    match text {
        Some(t) => t,
        None => default,
    }
}

fn quote_names(names: &Vec<String>) -> (s: String)
    ensures
        s@ == quoted_names(names_view(names@)),
{
    let ghost all = names_view(names@);
    let mut s = String::new();
    let mut i: usize = 0;
    assert(s@ =~= quoted_names(all.subrange(0, 0)));
    while i < names.len()
        invariant
            i <= names@.len(),
            all == names_view(names@),
            s@ == quoted_names(all.subrange(0, i as int)),
        decreases names@.len() - i,
    {
        let ghost before = s@;
        proof {
            let now = all.subrange(0, i + 1);
            assert(now.drop_last() =~= all.subrange(0, i as int));
        }
        if i > 0 {
            s.append(", ");
        }
        s.append(quoted(names[i].as_str()).as_str());
        assert(s@ =~= quoted_names(all.subrange(0, i + 1)));
        i = i + 1;
    }
    assert(all.subrange(0, i as int) =~= all);
    s
}

impl Cli {
    /// Validate semantic rules that argument parsing can't express.
    pub fn validate(&self) -> (r: Result<(), CliError>)
        ensures
            match broken_rule(*self) {
                None => r is Ok,
                Some(e) => r is Err && r->Err_0@ == e,
            },
    {
        // DDR_LEGACY output is forbidden.
        if self.to_format == Format::DdrLegacy {
            return Err(CliError::LegacyOutputForbidden);
        }
        // Must have exactly one input mode.

        if self.chartfile.is_none() && self.input_folder.is_none() {
            return Err(CliError::MissingFilePair);
        }
        // --chartfile requires --audiofile.

        if self.chartfile.is_some() && self.audiofile.is_none() {
            return Err(CliError::MissingFilePair);
        }
        // Check supported (from, to) combinations.

        let valid = matches!(
            (self.from_format, self.to_format),
            (Format::Ddr, Format::Sm5)
                | (Format::Sm5, Format::Ddr)
                | (Format::DdrLegacy, Format::Ddr)
                | (Format::DdrLegacy, Format::Sm5)
        );
        if !valid {
            return Err(
                CliError::UnsupportedConversion { from: self.from_format, to: self.to_format },
            );
        }
        match &self.song_code {
            Some(code) => {
                if self.chartfile.is_none() {
                    return Err(CliError::SongCodeRequiresSingleFile);
                }
                if self.to_format != Format::Ddr {
                    return Err(CliError::SongCodeRequiresDdrOutput);
                }
                if !is_valid_code(code.as_str()) {
                    return Err(CliError::BadSongCode { code: code.clone() });
                }
            },
            None => {},
        }
        Ok(())
    }

    /// Convert validated CLI args into a list of conversion jobs. `listing` is
    /// what the input folder holds; single-file mode makes no use of it.
    pub fn into_jobs(self, listing: &Vec<FileEntry>) -> (r: Result<Vec<Job>, CliError>)
        requires
            self.chartfile is Some && self.audiofile is Some || self.input_folder is Some,
        ensures
            match plan_outcome(self, files_view(listing@)) {
                Ok((jobs, _)) => r is Ok && jobs_view(r->Ok_0@) == jobs,
                Err(e) => r is Err && r->Err_0@ == e,
            },
    {
        match self.into_plan(listing) {
            Ok(plan) => Ok(plan.jobs),
            Err(e) => Err(e),
        }
    }

    /// Convert validated CLI args into a [`Plan`]: the jobs to run plus,
    /// in batch mode, the pairing result so the runner can report files
    /// that were skipped for lack of a partner.
    pub fn into_plan(self, listing: &Vec<FileEntry>) -> (r: Result<Plan, CliError>)
        requires
            self.chartfile is Some && self.audiofile is Some || self.input_folder is Some,
        ensures
            match plan_outcome(self, files_view(listing@)) {
                Ok((jobs, found)) => r is Ok && jobs_view((r->Ok_0).jobs@) == jobs && pairing_view(
                    (r->Ok_0).pairing,
                ) == found,
                Err(e) => r is Err && r->Err_0@ == e,
            },
    {
        let ghost cli = self;
        let sync_offset_ms: i32 = match self.sync_offset_ms {
            Some(n) => n,
            None => 0,
        };
        let folder = match (self.chartfile, self.audiofile) {
            (Some(chart_in), Some(audio_in)) => {
                let job = Job {
                    from: self.from_format,
                    to: self.to_format,
                    chart_in,
                    audio_in,
                    overwrite: self.overwrite,
                    output_dir: or_default(self.output_dir, "output".to_owned()),
                    sync_offset_ms,
                    song_code: self.song_code,
                };
                let ghost v = job@;
                let jobs = vec![job];
                assert(jobs_view(jobs@) =~= seq![v]);
                return Ok(Plan { jobs, pairing: None });
            },
            _ => self.input_folder,
        };
        // Batch mode.
        let dir = match folder {
            Some(dir) => dir,
            None => String::new(),
        };
        let output_dir = or_default(self.output_dir, join(dir.as_str(), "output"));
        let result = find_pairs(listing, self.from_format);
        // Ambiguous files are hard errors.
        if result.ambiguous.len() > 0 {
            let (basename, names) = &result.ambiguous[0];
            assert(result@.ambiguous[0] == (basename@, names_view(names@)));
            return Err(
                CliError::PairAmbiguity {
                    basename: basename.clone(),
                    reason: "multiple audio files: [".to_owned().concat(
                        quote_names(names).as_str(),
                    ).concat("]"),
                },
            );
        }
        if result.pairs.len() == 0 {
            return Err(CliError::NoPairs { dir });
        }
        let ghost found = result@;
        let mut jobs: Vec<Job> = Vec::new();
        let mut i: usize = 0;
        while i < result.pairs.len()
            invariant
                i <= result.pairs@.len(),
                found == result@,
                cli.input_folder is Some,
                dir@ == cli.input_folder->0@,
                output_dir@ == text_or(cli.output_dir, joined(dir@, "output"@)),
                sync_offset_ms == sync_of(cli),
                self.from_format == cli.from_format,
                self.to_format == cli.to_format,
                self.overwrite == cli.overwrite,
                jobs_view(jobs@) =~= Seq::new(i as nat, |k: int| batch_job(cli, found.pairs[k])),
            decreases result.pairs@.len() - i,
        {
            let (chart, audio) = &result.pairs[i];
            assert(found.pairs[i as int] == (chart@, audio@));
            let job = Job {
                from: self.from_format,
                to: self.to_format,
                chart_in: join(dir.as_str(), chart.as_str()),
                audio_in: join(dir.as_str(), audio.as_str()),
                overwrite: self.overwrite,
                output_dir: output_dir.clone(),
                sync_offset_ms,
                song_code: None,
            };
            assert(job@ =~= batch_job(cli, found.pairs[i as int]));
            let ghost before = jobs_view(jobs@);
            let ghost v = job@;
            jobs.push(job);
            assert(jobs_view(jobs@) =~= before.push(v));
            i = i + 1;
        }
        Ok(Plan { jobs, pairing: Some(result) })
    }
}

/// Valid arguments plan only conversions that are supported, and only song codes
/// that can name a wave bank.
pub proof fn law_planned_jobs_can_run(cli: Cli, listing: Seq<FileView>)
    requires
        broken_rule(cli) is None,
    ensures
        match plan_outcome(cli, listing) {
            Err(_) => true,
            Ok((jobs, _)) => jobs.len() > 0 && forall|i: int|
                #![trigger jobs[i]]
                0 <= i < jobs.len() ==> convertible(jobs[i].from, jobs[i].to) && match jobs[i].song_code {
                    Some(code) => valid_code(code),
                    None => true,
                },
        },
{
    match plan_outcome(cli, listing) {
        Err(_) => {},
        Ok((jobs, _)) => {
            assert forall|i: int|
                #![trigger jobs[i]]
                0 <= i < jobs.len() implies convertible(jobs[i].from, jobs[i].to)
                && match jobs[i].song_code {
                Some(code) => valid_code(code),
                None => true,
            } by {
                if cli.chartfile is Some && cli.audiofile is Some {
                    assert(jobs[i].song_code == text_view(cli.song_code));
                }
            }
        },
    }
}

/// Arguments are valid where they name a conversion between DDR and StepMania or from
/// the legacy form, and either a folder or both files; a song code, where there is one,
/// is for a single conversion to DDR, and can name a wave bank.
pub proof fn law_valid_arguments(cli: Cli)
    ensures
        broken_rule(cli) is None <==> {
            &&& cli.to_format !is DdrLegacy
            &&& cli.from_format is DdrLegacy || cli.from_format != cli.to_format
            &&& cli.chartfile is Some || cli.input_folder is Some
            &&& cli.chartfile is Some ==> cli.audiofile is Some
            &&& cli.song_code matches Some(code) ==> cli.chartfile is Some && cli.to_format is Ddr
                && valid_code(code@)
        },
{
}

/// One job for the two files that are named, or one for each pair in the folder; each
/// reads its pair from the folder. Output goes where it is said to, or to `output`,
/// inside the folder where there is one. A sync offset that is not given is 0.
pub proof fn law_jobs_are_planned(cli: Cli, listing: Seq<FileView>, i: int)
    requires
        plan_outcome(cli, listing) matches Ok(plan) && 0 <= i < plan.0.len(),
    ensures
        plan_outcome(cli, listing) matches Ok(plan) && {
            let job = plan.0[i];
            let alone = cli.chartfile is Some && cli.audiofile is Some;
            &&& job.from == cli.from_format
            &&& job.to == cli.to_format
            &&& job.overwrite == cli.overwrite
            &&& cli.sync_offset_ms matches Some(ms) ==> job.sync_offset_ms == ms
            &&& cli.sync_offset_ms is None ==> job.sync_offset_ms == 0
            &&& cli.output_dir matches Some(dir) ==> job.output_dir == dir@
            &&& alone ==> {
                &&& plan.0.len() == 1
                &&& job.chart_in == cli.chartfile->0@
                &&& job.audio_in == cli.audiofile->0@
                &&& cli.output_dir is None ==> job.output_dir == seq!['o', 'u', 't', 'p', 'u', 't']
                &&& job.song_code == text_view(cli.song_code)
            }
            &&& !alone ==> {
                let pairs = pairing(listing, cli.from_format).pairs;
                let folder = cli.input_folder->0@;
                &&& plan.0.len() == pairs.len()
                &&& job.chart_in == joined(folder, pairs[i].0)
                &&& job.audio_in == joined(folder, pairs[i].1)
                &&& cli.output_dir is None ==> job.output_dir == joined(
                    folder,
                    seq!['o', 'u', 't', 'p', 'u', 't'],
                )
                &&& job.song_code is None
            }
        },
{
    reveal_strlit("output");
    assert("output"@ =~= seq!['o', 'u', 't', 'p', 'u', 't']);
}

} // verus!
