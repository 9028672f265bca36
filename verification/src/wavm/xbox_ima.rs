//! XBOX-IMA ADPCM decoder.
//!
//! Decodes interleaved stereo XBOX-IMA blocks into 16-bit PCM samples.
//!
//! Block layout (stereo, 0x48 bytes total):
//!   - 4 bytes: channel 0 header (i16le history, u8 step_index, u8 reserved)
//!   - 4 bytes: channel 1 header
//!   - 32 bytes: channel 0 nibble data (4-byte interleaved chunks)
//!   - 32 bytes: channel 1 nibble data (4-byte interleaved chunks)
//!
//! Nibble data is interleaved in 4-byte chunks per channel:
//!   [4 bytes ch0][4 bytes ch1][4 bytes ch0][4 bytes ch1]...
//!
//! Each block produces 64 samples per channel (1 from header + 63 from
//! nibbles; the last nibble is skipped).

use crate::util::io::{get_i16, sle16};
use crate::xwb::adpcm::{clamp_16, clamped16};
use vstd::prelude::*;

verus! {

/// Stereo block size in bytes.
pub const STEREO_BLOCK_SIZE: usize = 0x48;

/// Samples decoded per channel per block.
pub const SAMPLES_PER_BLOCK: usize = 64;

/// Step sizes by step index.
pub const STEP_TABLE: [u16; 89] = [
    7, 8, 9, 10, 11, 12, 13, 14, 16, 17, 19, 21, 23, 25, 28, 31, 34, 37, 41, 45, 50, 55, 60, 66, 73,
    80, 88, 97, 107, 118, 130, 143, 157, 173, 190, 209, 230, 253, 279, 307, 337, 371, 408, 449, 494,
    544, 598, 658, 724, 796, 876, 963, 1060, 1166, 1282, 1411, 1552, 1707, 1878, 2066, 2272, 2499,
    2749, 3024, 3327, 3660, 4026, 4428, 4871, 5358, 5894, 6484, 7132, 7845, 8630, 9493, 10442,
    11487, 12635, 13899, 15289, 16818, 18500, 20350, 22385, 24623, 27086, 29794, 32767,
];

/// How a nibble moves the step index.
pub open spec fn index_move(nibble: int) -> int {
    if nibble % 8 < 4 {
        -1
    } else {
        2 * (nibble % 8 - 3)
    }
}

/// `n`, or the nearest valid step index to it.
pub open spec fn clamped_index(n: int) -> int {
    if n < 0 {
        0
    } else if n > 88 {
        88
    } else {
        n
    }
}

/// The size of the change that a nibble stands for at a step size.
pub open spec fn nibble_size(nibble: int, step: int) -> int {
    step / 8 + (if nibble % 2 == 1 {
        step / 4
    } else {
        0
    }) + (if nibble / 2 % 2 == 1 {
        step / 2
    } else {
        0
    }) + (if nibble / 4 % 2 == 1 {
        step
    } else {
        0
    })
}

/// The signed change that a nibble stands for: its top bit is the sign.
pub open spec fn nibble_change(nibble: int, step: int) -> int {
    if nibble >= 8 {
        -nibble_size(nibble, step)
    } else {
        nibble_size(nibble, step)
    }
}

/// History and step index after a nibble.
pub open spec fn ima_step(state: (int, int), nibble: int) -> (int, int) {
    (
        clamped16(state.0 + nibble_change(nibble, STEP_TABLE[state.1] as int)) as int,
        clamped_index(state.1 + index_move(nibble)),
    )
}

/// Expand one 4-bit nibble into a PCM sample, updating history and step index.
pub fn expand_nibble(nibble: u8, hist: &mut i32, step_index: &mut i32) -> (sample: i16)
    requires
        nibble < 16,
        0 <= *old(step_index) <= 88,
        i32::MIN + 0x4_0000 <= *old(hist) <= i32::MAX - 0x4_0000,
    ensures
        (*final(hist) as int, *final(step_index) as int) == ima_step(
            (*old(hist) as int, *old(step_index) as int),
            nibble as int,
        ),
        sample == *final(hist),
        0 <= *final(step_index) <= 88,
{
    let step: i32 = STEP_TABLE[*step_index as usize] as i32;
    let mut delta: i32 = step / 8;
    if nibble % 2 == 1 {
        delta = delta + step / 4;
    }
    if nibble / 2 % 2 == 1 {
        delta = delta + step / 2;
    }
    if nibble / 4 % 2 == 1 {
        delta = delta + step;
    }
    if nibble >= 8 {
        delta = -delta;
    }
    let sample: i16 = clamp_16((*hist + delta) as i64);
    *hist = sample as i32;
    let low: u8 = nibble % 8;
    let next: i32 = if low < 4 {
        *step_index - 1
    } else {
        *step_index + 2 * (low as i32 - 3)
    };
    *step_index = if next < 0 {
        0
    } else if next > 88 {
        88
    } else {
        next
    };
    sample
}

/// Nibble `k` of channel `c`: low nibble first, in 4-byte chunks.
pub open spec fn ima_nibble(block: Seq<u8>, c: int, k: int) -> int {
    let byte = block[8 + k / 8 * 8 + c * 4 + k / 2 % 4] as int;
    if k % 2 == 0 {
        byte % 16
    } else {
        byte / 16
    }
}

/// Channel `c`'s history and step index after its first `k` nibbles.
pub open spec fn ima_state(block: Seq<u8>, c: int, k: nat) -> (int, int)
    decreases k,
{
    if k == 0 {
        (sle16(block, 4 * c) as int, clamped_index(block[4 * c + 2] as int))
    } else {
        ima_step(ima_state(block, c, (k - 1) as nat), ima_nibble(block, c, k - 1))
    }
}

/// The samples of a stereo block, interleaved. The first sample of each
/// channel is the history in its header.
pub open spec fn stereo_samples(block: Seq<u8>) -> Seq<i16> {
    Seq::new(128, |i: int| ima_state(block, i % 2, (i / 2) as nat).0 as i16)
}

/// Decode one channel of a block.
fn decode_channel(block: &[u8], c: usize) -> (samples: Vec<i16>)
    requires
        c < 2,
        block@.len() >= 72,
    ensures
        samples@ == Seq::new(64, |i: int| ima_state(block@, c as int, i as nat).0 as i16),
{
    let first: i16 = get_i16(block, 4 * c);
    let mut hist: i32 = first as i32;
    let start: i32 = block[4 * c + 2] as i32;
    let mut step_index: i32 = if start > 88 {
        88
    } else {
        start
    };
    let mut samples: Vec<i16> = Vec::new();
    // First sample is the header history value.
    samples.push(first);
    let mut k: usize = 0;
    while k < 63
        invariant
            k <= 63,
            c < 2,
            block@.len() >= 72,
            (hist as int, step_index as int) == ima_state(block@, c as int, k as nat),
            -32768 <= hist <= 32767,
            0 <= step_index <= 88,
            samples@ =~= Seq::new(
                (k + 1) as nat,
                |i: int| ima_state(block@, c as int, i as nat).0 as i16,
            ),
        decreases 63 - k,
    {
        // Nibble data: 4-byte chunks interleaved between channels, low
        // nibble first.
        let byte: u8 = block[8 + k / 8 * 8 + c * 4 + k / 2 % 4];
        let nibble: u8 = if k % 2 == 0 {
            byte % 16
        } else {
            byte / 16
        };
        assert(nibble == ima_nibble(block@, c as int, k as int));
        let sample: i16 = expand_nibble(nibble, &mut hist, &mut step_index);
        samples.push(sample);
        k = k + 1;
    }
    samples
}

/// Decode one stereo XBOX-IMA block (0x48 bytes) into interleaved PCM.
/// Appends `SAMPLES_PER_BLOCK * 2` samples (L, R, L, R, ...) to `out`.
pub fn decode_stereo_block(block: &[u8], out: &mut Vec<i16>)
    requires
        block@.len() >= 72,
    ensures
        final(out)@ == old(out)@ + stereo_samples(block@),
{
    let left = decode_channel(block, 0);
    let right = decode_channel(block, 1);
    let ghost all = stereo_samples(block@);
    let mut i: usize = 0;
    while i < SAMPLES_PER_BLOCK
        invariant
            i <= 64,
            left@ == Seq::new(64, |i: int| ima_state(block@, 0, i as nat).0 as i16),
            right@ == Seq::new(64, |i: int| ima_state(block@, 1, i as nat).0 as i16),
            all == stereo_samples(block@),
            out@ =~= old(out)@ + all.subrange(0, 2 * i),
        decreases 64 - i,
    {
        assert(all[2 * i] == left@[i as int]) by {
            assert((2 * i) % 2 == 0 && (2 * i) / 2 == i);
        }
        assert(all[2 * i + 1] == right@[i as int]) by {
            assert((2 * i + 1) % 2 == 1 && (2 * i + 1) / 2 == i);
        }
        out.push(left[i]);
        out.push(right[i]);
        i = i + 1;
    }
    assert(all.subrange(0, 128) =~= all);
}

/// Calculate the total number of PCM samples (per channel) from a byte
/// length of stereo XBOX-IMA data.
pub fn bytes_to_samples(byte_len: usize) -> (n: usize)
    ensures
        n == byte_len as int / 72 * 64,
{
    let full_blocks: usize = byte_len / STEREO_BLOCK_SIZE;
    full_blocks * SAMPLES_PER_BLOCK
}

} // verus!
