//! OGG Vorbis encoding: what is handed to the encoder.
//!
//! The encoder takes planar blocks, one list of samples per channel. This
//! module checks that the audio can be encoded and cuts it into such blocks.

use crate::model::AudioBuffer;
use crate::ogg::OggError;
use vstd::prelude::*;

verus! {

/// Frames that are handed to the encoder at a time.
pub const CHUNK_FRAMES: usize = 4096;

/// Audio cut up for the encoder.
pub struct EncoderInput {
    pub channels: u8,
    pub sample_rate: u32,
    /// Blocks of up to `CHUNK_FRAMES` frames, by channel.
    pub blocks: Vec<Vec<Vec<i16>>>,
}

/// The channel count that the encoder is set to: the low byte of the count.
pub open spec fn encoder_channels(audio: AudioBuffer) -> int {
    audio.channels as int % 0x100
}

/// The number of whole frames of some audio.
pub open spec fn whole_frames(audio: AudioBuffer) -> int {
    audio.samples@.len() as int / encoder_channels(audio)
}

/// The number of frames in block `b`.
pub open spec fn block_length(frames: int, b: int) -> int {
    if frames - 4096 * b < 4096 {
        frames - 4096 * b
    } else {
        4096
    }
}

/// Whether `block` holds the frames of block `b`, by channel.
pub open spec fn is_block(audio: AudioBuffer, block: Seq<Vec<i16>>, b: int) -> bool {
    let ch = encoder_channels(audio);
    &&& block.len() == ch
    &&& forall|c: int|
        0 <= c < ch ==> (#[trigger] block[c])@ == Seq::new(
            block_length(whole_frames(audio), b) as nat,
            |i: int| audio.samples@[(4096 * b + i) * ch + c],
        )
}

/// Why audio cannot be encoded.
pub open spec fn encode_fault(audio: AudioBuffer) -> Option<Seq<char>> {
    if encoder_channels(audio) == 0 {
        Some("channel count must be non-zero"@)
    } else if audio.sample_rate == 0 {
        Some("sample rate must be non-zero"@)
    } else {
        None
    }
}

/// One planar block of interleaved samples.
fn planar_block(audio: &AudioBuffer, ch: usize, start: usize, count: usize, b: Ghost<int>) -> (block:
    Vec<Vec<i16>>)
    requires
        ch == encoder_channels(*audio),
        ch > 0,
        start == 4096 * b@,
        count == block_length(whole_frames(*audio), b@),
        start + count <= whole_frames(*audio),
    ensures
        is_block(*audio, block@, b@),
{
    let ghost frames = whole_frames(*audio);
    let len: usize = audio.samples.len();
    proof {
        vstd::arithmetic::div_mod::lemma_fundamental_div_mod(len as int, ch as int);
        assert(frames <= len) by (nonlinear_arith)
            requires
                len == ch * frames + len as int % ch as int,
                len as int % ch as int >= 0,
                ch >= 1,
                frames >= 0,
        ;
    }
    let mut block: Vec<Vec<i16>> = Vec::new();
    let mut c: usize = 0;
    while c < ch
        invariant
            c <= ch,
            ch == encoder_channels(*audio),
            ch > 0,
            start == 4096 * b@,
            frames == whole_frames(*audio),
            count == block_length(frames, b@),
            start + count <= frames,
            len == audio.samples@.len(),
            frames <= len,
            len == ch * frames + len as int % ch as int,
            len as int % ch as int >= 0,
            block@.len() == c,
            forall|k: int|
                0 <= k < c ==> (#[trigger] block@[k])@ == Seq::new(
                    count as nat,
                    |i: int| audio.samples@[(4096 * b@ + i) * ch + k],
                ),
        decreases ch - c,
    {
        let mut chan: Vec<i16> = Vec::new();
        let mut i: usize = 0;
        while i < count
            invariant
                i <= count,
                c < ch,
                start == 4096 * b@,
                start + count <= frames,
                len == audio.samples@.len(),
                frames <= len,
                len == ch * frames + len as int % ch as int,
                len as int % ch as int >= 0,
                chan@ =~= Seq::new(
                    i as nat,
                    |i: int| audio.samples@[(4096 * b@ + i) * ch + c],
                ),
            decreases count - i,
        {
            proof {
                let f = start + i;
                assert(f * ch + c < ch * frames) by (nonlinear_arith)
                    requires
                        f + 1 <= frames,
                        0 <= c < ch,
                ;
                assert(f * ch >= 0) by (nonlinear_arith)
                    requires
                        f >= 0,
                        ch > 0,
                ;
            }
            chan.push(audio.samples[(start + i) * ch + c]);
            i = i + 1;
        }
        block.push(chan);
        c = c + 1;
    }
    block
}

/// Check that audio can be encoded, and cut it into planar blocks. Samples
/// behind the last whole frame are dropped.
pub fn planar_blocks(audio: &AudioBuffer) -> (r: Result<EncoderInput, OggError>)
    ensures
        match encode_fault(*audio) {
            Some(reason) => r is Err && (r->Err_0 matches OggError::Encode(text) && text@
                == reason),
            None => r is Ok && r->Ok_0.channels == encoder_channels(*audio) && r->Ok_0.sample_rate
                == audio.sample_rate && r->Ok_0.blocks@.len() == (whole_frames(*audio) + 4095)
                / 4096 && forall|b: int|
                0 <= b < r->Ok_0.blocks@.len() ==> is_block(
                    *audio,
                    (#[trigger] r->Ok_0.blocks@[b])@,
                    b,
                ),
        },
{
    let ch: usize = (audio.channels % 0x100) as usize;
    if ch == 0 {
        return Err(OggError::Encode("channel count must be non-zero".to_owned()));
    }
    if audio.sample_rate == 0 {
        return Err(OggError::Encode("sample rate must be non-zero".to_owned()));
    }
    let frames: usize = audio.samples.len() / ch;
    let mut blocks: Vec<Vec<Vec<i16>>> = Vec::new();
    let mut start: usize = 0;
    let ghost mut b: int = 0;
    while start < frames
        invariant
            ch == encoder_channels(*audio),
            ch > 0,
            frames == whole_frames(*audio),
            b == blocks@.len(),
            start == 4096 * b || (start == frames && 4096 * (b - 1) < frames <= 4096 * b),
            start <= frames,
            forall|k: int|
                0 <= k < b ==> is_block(*audio, (#[trigger] blocks@[k])@, k),
        decreases frames - start,
    {
        let left: usize = frames - start;
        let count: usize = if left < CHUNK_FRAMES {
            left
        } else {
            CHUNK_FRAMES
        };
        let block = planar_block(audio, ch, start, count, Ghost(b));
        blocks.push(block);
        start = start + count;
        proof {
            b = b + 1;
        }
    }
    Ok(EncoderInput { channels: ch as u8, sample_rate: audio.sample_rate, blocks })
}

/// Every frame of the audio is in one block, behind those before it: frame `f` stands in
/// block `f / 4096`, and there each channel has its sample.
pub proof fn law_blocks_hold_every_frame(
    audio: AudioBuffer,
    blocks: Seq<Vec<Vec<i16>>>,
    f: int,
    c: int,
)
    requires
        0 <= c < encoder_channels(audio),
        0 <= f < whole_frames(audio),
        blocks.len() == (whole_frames(audio) + 4095) / 4096,
        forall|b: int|
            0 <= b < blocks.len() ==> is_block(audio, (#[trigger] blocks[b])@, b),
    ensures
        f / 4096 < blocks.len(),
        f % 4096 < blocks[f / 4096]@[c]@.len() <= 4096,
        blocks[f / 4096]@[c]@[f % 4096] == audio.samples@[f * (audio.channels as int % 256) + c],
        f + 1 == whole_frames(audio) ==> blocks[f / 4096]@[c]@.len() == f % 4096 + 1 && f / 4096 + 1
            == blocks.len(),
{
    let b = f / 4096;
    assert(is_block(audio, blocks[b]@, b));
    assert(4096 * b + f % 4096 == f);
}

} // verus!
