//! Format-independent audio representation.
//!
//! All audio formats decode into `AudioBuffer` and encode from it.
//! `AudioFormatKind` enumerates the supported container/codec formats
//! — the list is expected to grow as more legacy rhythm-game audio
//! formats are added as decode-only inputs.

use vstd::prelude::*;

verus! {

/// A decoded audio buffer. Samples are interleaved when `channels > 1`.
#[derive(Debug, Clone)]
pub struct AudioBuffer {
    pub samples: Vec<i16>,
    pub sample_rate: u32,
    pub channels: u16,
}

impl AudioBuffer {
    /// Number of frames (samples per channel) in the buffer.
    #[must_use]
    pub fn frame_count(&self) -> (n: usize)
        ensures
            self.channels == 0 ==> n == 0,
            self.channels != 0 ==> n == self.samples@.len() as int / self.channels as int,
    {
        if self.channels == 0 {
            return 0;
        }
        self.samples.len() / (self.channels as usize)
    }
}

/// The contents of an audio buffer.
pub open spec fn audio_view(audio: AudioBuffer) -> (Seq<i16>, u32, u16) {
    (audio.samples@, audio.sample_rate, audio.channels)
}

/// Known audio formats. Extend this enum when adding a new decoder.
#[derive(Debug, Clone, Copy, PartialEq, Eq, Structural)]
pub enum AudioFormatKind {
    /// Microsoft XACT Wave Bank — DDR's audio container.
    Xwb,
    /// Headerless XBOX-IMA ADPCM — pre-World DDR audio.
    Wavm,
    /// Ogg Vorbis — StepMania 5's standard audio format.
    Ogg,
}

impl AudioFormatKind {
    /// Whether the format can be written by this tool. Decode-only
    /// formats (WAVM, and future legacy-authoring formats) return false.
    #[must_use]
    pub fn is_writable(self) -> (b: bool)
        ensures
            b == !(self is Wavm),
    {
        match self {
            Self::Xwb | Self::Ogg => true,
            Self::Wavm => false,
        }
    }
}

} // verus!
