//! WAVM decoder — headerless XBOX-IMA ADPCM audio.
//!
//! WAVM is a legacy DDR audio format (Ultramix era) with no header.
//! The entire file is raw interleaved stereo XBOX-IMA ADPCM data at
//! a fixed 2 channels / 44100 Hz sample rate.

pub mod laws;
pub mod xbox_ima;

use crate::model::AudioBuffer;
use crate::wavm::xbox_ima::{stereo_samples, STEREO_BLOCK_SIZE};
use crate::model::audio::audio_view;
use vstd::prelude::*;
use vstd::slice::slice_subrange;

verus! {

/// Fixed parameters for WAVM files (headerless format).
const CHANNELS: u16 = 2;

const SAMPLE_RATE: u32 = 44100;

#[derive(Debug, Clone, Copy, PartialEq, Eq, Structural)]
pub enum WavmError {
    Empty,
    UnalignedData { len: usize, block_size: usize },
}

/// The samples of the first `n` blocks.
pub open spec fn wavm_samples(bytes: Seq<u8>, n: nat) -> Seq<i16>
    decreases n,
{
    if n == 0 {
        Seq::empty()
    } else {
        wavm_samples(bytes, (n - 1) as nat) + stereo_samples(
            bytes.subrange(72 * (n - 1), 72 * n as int),
        )
    }
}

/// What a WAVM file decodes to.
pub open spec fn wavm_outcome(bytes: Seq<u8>) -> Result<(Seq<i16>, u32, u16), WavmError> {
    if bytes.len() == 0 {
        Err(WavmError::Empty)
    } else if bytes.len() % 72 != 0 {
        Err(WavmError::UnalignedData { len: bytes.len() as usize, block_size: 72 })
    } else {
        Ok((wavm_samples(bytes, bytes.len() / 72), 44100u32, 2u16))
    }
}

/// Decode a headerless WAVM file into PCM.
pub fn parse(bytes: &[u8]) -> (r: Result<AudioBuffer, WavmError>)
    ensures
        match wavm_outcome(bytes@) {
            Ok(audio) => r is Ok && audio_view(r->Ok_0) == audio,
            Err(e) => r is Err && r->Err_0 == e,
        },
{
    let len: usize = bytes.len();
    if len == 0 {
        return Err(WavmError::Empty);
    }
    if len % STEREO_BLOCK_SIZE != 0 {
        return Err(WavmError::UnalignedData { len, block_size: STEREO_BLOCK_SIZE });
    }
    let mut samples: Vec<i16> = Vec::new();
    let blocks: usize = len / STEREO_BLOCK_SIZE;
    let mut i: usize = 0;
    while i < blocks
        invariant
            i <= blocks,
            len == bytes@.len(),
            blocks == len as int / 72,
            samples@ == wavm_samples(bytes@, i as nat),
        decreases blocks - i,
    {
        let block = slice_subrange(bytes, 72 * i, 72 * i + 72);
        xbox_ima::decode_stereo_block(block, &mut samples);
        i = i + 1;
    }
    Ok(AudioBuffer { samples, sample_rate: SAMPLE_RATE, channels: CHANNELS })
}

/// A decoded file holds 64 frames for each block.
pub proof fn law_wavm_length(bytes: Seq<u8>, n: nat)
    ensures
        wavm_samples(bytes, n).len() == 128 * n,
    decreases n,
{
    if n > 0 {
        law_wavm_length(bytes, (n - 1) as nat);
    }
}

} // verus!
