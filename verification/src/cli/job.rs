//! Job and Format types consumed by the conversion pipeline.

use vstd::prelude::*;

verus! {

/// Supported format families.
#[derive(Debug, Clone, Copy, PartialEq, Eq, Structural)]
pub enum Format {
    /// Modern DDR (SSQ + XWB + XSB).
    Ddr,
    /// Pre-DDR-World legacy (SSQ + XWB or WAVM). Input only.
    DdrLegacy,
    /// StepMania 5 (SSC/SM + OGG).
    Sm5,
}

/// The chart file extensions of a format, the preferred one first.
pub open spec fn chart_exts(format: Format) -> Seq<Seq<char>> {
    match format {
        Format::Ddr => seq!["ssq"@],
        Format::DdrLegacy => seq!["ssq"@],
        Format::Sm5 => seq!["ssc"@, "sm"@],
    }
}

/// The audio file extensions of a format.
pub open spec fn audio_exts(format: Format) -> Seq<Seq<char>> {
    match format {
        Format::Ddr => seq!["xwb"@],
        Format::DdrLegacy => seq!["xwb"@, "wavm"@],
        Format::Sm5 => seq!["ogg"@],
    }
}

/// The texts of a list of string slices.
pub open spec fn strs_view(v: Seq<&'static str>) -> Seq<Seq<char>> {
    Seq::new(v.len(), |i: int| v[i]@)
}

impl Format {
    /// Chart file extensions accepted for this format as input.
    pub fn chart_extensions(self) -> (v: Vec<&'static str>)
        ensures
            strs_view(v@) == chart_exts(self),
    {
        let v = match self {
            Self::Ddr | Self::DdrLegacy => vec!["ssq"],
            Self::Sm5 => vec!["ssc", "sm"],
        };
        assert(strs_view(v@) =~= chart_exts(self));
        v
    }

    /// Audio file extensions accepted for this format as input.
    pub fn audio_extensions(self) -> (v: Vec<&'static str>)
        ensures
            strs_view(v@) == audio_exts(self),
    {
        let v = match self {
            Self::Ddr => vec!["xwb"],
            Self::DdrLegacy => vec!["xwb", "wavm"],
            Self::Sm5 => vec!["ogg"],
        };
        assert(strs_view(v@) =~= audio_exts(self));
        v
    }
}

/// One conversion job: a single chart+audio pair with direction.
#[derive(Debug, Clone)]
pub struct Job {
    pub from: Format,
    pub to: Format,
    pub chart_in: String,
    pub audio_in: String,
    pub overwrite: bool,
    /// Directory where output files are written.
    pub output_dir: String,
    /// Milliseconds to add to the audio-sync offset.
    pub sync_offset_ms: i32,
    /// DDR song code that names the outputs, in place of the input's stem.
    pub song_code: Option<String>,
}

/// The contents of a `Job`.
#[verifier::ext_equal]
pub struct JobView {
    pub from: Format,
    pub to: Format,
    pub chart_in: Seq<char>,
    pub audio_in: Seq<char>,
    pub overwrite: bool,
    pub output_dir: Seq<char>,
    pub sync_offset_ms: i32,
    pub song_code: Option<Seq<char>>,
}

impl View for Job {
    type V = JobView;

    open spec fn view(&self) -> JobView {
        JobView {
            from: self.from,
            to: self.to,
            chart_in: self.chart_in@,
            audio_in: self.audio_in@,
            overwrite: self.overwrite,
            output_dir: self.output_dir@,
            sync_offset_ms: self.sync_offset_ms,
            song_code: crate::model::text_view(self.song_code),
        }
    }
}

/// The contents of a list of jobs.
pub open spec fn jobs_view(jobs: Seq<Job>) -> Seq<JobView> {
    Seq::new(jobs.len(), |i: int| jobs[i]@)
}

} // verus!
