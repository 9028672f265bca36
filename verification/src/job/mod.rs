//! Conversion jobs.

pub mod audio;
pub mod audio_laws;
pub mod batch;
pub mod convert;
pub mod convert_laws;
pub mod format_laws;
pub mod laws;
pub mod naming;
pub mod se_bank;
pub mod timeline;
pub mod timeline_laws;

use crate::util::text::{dec, with_number};
use vstd::prelude::*;

verus! {

/// Orchestration-level failures that are not attributable to one format
/// module.
#[derive(Debug, Clone, Copy, PartialEq, Eq, Structural)]
pub enum JobError {
    UnsupportedSampleRate { sample_rate: u32 },
    WrongChannelCount { channels: u16 },
    /// The audio has more samples than a wave bank of it could be built for.
    AudioTooLong { samples: usize },
    /// The last note lies too late for the closing events to fit behind it.
    ChartTooLong,
}

impl JobError {
    pub open spec fn text(self) -> Seq<char> {
        match self {
            JobError::UnsupportedSampleRate { sample_rate } =>
            "DDR audio must be one of [44100, 48000] Hz, got "@ + dec(sample_rate as nat)
                + " Hz (resample the source before converting — this tool will not do it silently)"@,
            JobError::WrongChannelCount { channels } => "DDR audio must have 2 channels, got "@
                + dec(channels as nat)
                + " (remix the source before converting — this tool will not do it silently)"@,
            JobError::AudioTooLong { samples } => "audio of "@ + dec(samples as nat)
                + " samples is too long for a wave bank"@,
            JobError::ChartTooLong => "the chart is too long for its closing events"@,
        }
    }

    /// The error in words.
    pub fn message(&self) -> (text: String)
        ensures
            text@ == self.text(),
    {
        match self {
            JobError::UnsupportedSampleRate { sample_rate } => with_number(
                "DDR audio must be one of [44100, 48000] Hz, got ",
                *sample_rate as u128,
                " Hz (resample the source before converting — this tool will not do it silently)",
            ),
            JobError::WrongChannelCount { channels } => with_number(
                "DDR audio must have 2 channels, got ",
                *channels as u128,
                " (remix the source before converting — this tool will not do it silently)",
            ),
            JobError::AudioTooLong { samples } => with_number(
                "audio of ",
                *samples as u128,
                " samples is too long for a wave bank",
            ),
            JobError::ChartTooLong => "the chart is too long for its closing events".to_owned(),
        }
    }
}

} // verus!
