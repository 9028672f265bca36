//! What a block of WAVM audio stands for: each channel starts from the history in its
//! header and takes its codes in the order in which they are packed, low nibble first.

use super::xbox_ima::{
    ima_nibble, ima_state, ima_step, index_move, nibble_size, stereo_samples, STEP_TABLE,
};
use super::{wavm_outcome, wavm_samples, law_wavm_length, WavmError};
use vstd::prelude::*;

verus! {

/// The step sizes of IMA ADPCM.
pub open spec fn ima_sizes() -> Seq<int> {
    seq![
        7int, 8, 9, 10, 11, 12, 13, 14, 16, 17, 19, 21, 23, 25, 28, 31, 34, 37, 41, 45, 50, 55, 60,
        66, 73, 80, 88, 97, 107, 118, 130, 143, 157, 173, 190, 209, 230, 253, 279, 307, 337, 371,
        408, 449, 494, 544, 598, 658, 724, 796, 876, 963, 1060, 1166, 1282, 1411, 1552, 1707, 1878,
        2066, 2272, 2499, 2749, 3024, 3327, 3660, 4026, 4428, 4871, 5358, 5894, 6484, 7132, 7845,
        8630, 9493, 10442, 11487, 12635, 13899, 15289, 16818, 18500, 20350, 22385, 24623, 27086,
        29794, 32767
    ]
}

/// The step sizes are those of IMA ADPCM.
pub proof fn law_step_sizes(i: int)
    requires
        0 <= i < 89,
    ensures
        STEP_TABLE[i] == ima_sizes()[i],
{
    let table = STEP_TABLE@;
    let sizes = ima_sizes();
    assert(table.len() == 89);
    if i < 30 {
        lemma_sizes_low(i);
    } else if i < 60 {
        lemma_sizes_mid(i);
    } else {
        lemma_sizes_high(i);
    }
}

proof fn lemma_sizes_low(i: int)
    requires
        0 <= i < 30,
    ensures
        STEP_TABLE[i] == ima_sizes()[i],
{
}

proof fn lemma_sizes_mid(i: int)
    requires
        30 <= i < 60,
    ensures
        STEP_TABLE[i] == ima_sizes()[i],
{
}

proof fn lemma_sizes_high(i: int)
    requires
        60 <= i < 89,
    ensures
        STEP_TABLE[i] == ima_sizes()[i],
{
}

/// A code of magnitude `m` (its low three bits) stands for a change of `m` and a half
/// quarters of the step size, each part rounded down.
pub proof fn law_code_sizes(code: int, step: int)
    requires
        0 <= code < 16,
        step >= 0,
    ensures
        ({
            let m = code % 8;
            let size = nibble_size(code, step);
            &&& (2 * m + 1) * step - 17 <= 8 * size <= (2 * m + 1) * step
            &&& size == seq![
                step / 8,
                step / 8 + step / 4,
                step / 8 + step / 2,
                step / 8 + step / 4 + step / 2,
                step / 8 + step,
                step / 8 + step / 4 + step,
                step / 8 + step / 2 + step,
                step / 8 + step / 4 + step / 2 + step,
            ][m]
        }),
{
    let m = code % 8;
    assert(m == 0 || m == 1 || m == 2 || m == 3 || m == 4 || m == 5 || m == 6 || m == 7);
    assert(code % 2 == m % 2 && code / 2 % 2 == m / 2 % 2 && code / 4 % 2 == m / 4 % 2);
    lemma_times(m, step);
}

proof fn lemma_times(m: int, step: int)
    by (nonlinear_arith)
    ensures
        m == 0 ==> (2 * m + 1) * step == step,
        m == 1 ==> (2 * m + 1) * step == 3 * step,
        m == 2 ==> (2 * m + 1) * step == 5 * step,
        m == 3 ==> (2 * m + 1) * step == 7 * step,
        m == 4 ==> (2 * m + 1) * step == 9 * step,
        m == 5 ==> (2 * m + 1) * step == 11 * step,
        m == 6 ==> (2 * m + 1) * step == 13 * step,
        m == 7 ==> (2 * m + 1) * step == 15 * step,
{
}

/// Whether `to` is `from` changed by `by`, or the nearest 16-bit value to that.
pub open spec fn changed(from: int, by: int, to: int) -> bool {
    &&& -32768 <= to <= 32767
    &&& -32768 <= from + by <= 32767 ==> to == from + by
    &&& from + by > 32767 ==> to == 32767
    &&& from + by < -32768 ==> to == -32768
}

/// Whether a code moves history and step index from `from` to `to`: its top bit is the
/// sign of the change, its other bits the magnitude. Small magnitudes lower the step
/// index by one, the others raise it by two, four, six or eight.
pub open spec fn code_taken(from: (int, int), code: int, to: (int, int)) -> bool {
    let size = nibble_size(code, ima_sizes()[from.1]);
    let index = from.1 + seq![-1int, -1, -1, -1, 2, 4, 6, 8][code % 8];
    &&& changed(
        from.0,
        if code < 8 {
            size
        } else {
            -size
        },
        to.0,
    )
    &&& 0 <= to.1 <= 88
    &&& 0 <= index <= 88 ==> to.1 == index
    &&& index < 0 ==> to.1 == 0
    &&& index > 88 ==> to.1 == 88
}

/// What a code does.
pub proof fn law_code_is_taken(state: (int, int), code: int)
    requires
        0 <= code < 16,
        0 <= state.1 <= 88,
    ensures
        code_taken(state, code, ima_step(state, code)),
{
    law_step_sizes(state.1);
    let m = code % 8;
    assert(m == 0 || m == 1 || m == 2 || m == 3 || m == 4 || m == 5 || m == 6 || m == 7);
    assert(index_move(code) == seq![-1int, -1, -1, -1, 2, 4, 6, 8][m]);
}

proof fn lemma_state_range(block: Seq<u8>, c: int, k: nat)
    requires
        0 <= c < 2,
        block.len() >= 72,
    ensures
        -32768 <= ima_state(block, c, k).0 <= 32767,
        0 <= ima_state(block, c, k).1 <= 88,
    decreases k,
{
    if k > 0 {
        lemma_state_range(block, c, (k - 1) as nat);
    }
}

/// The byte that follows `i` others in the `j`th group of a channel holds two codes: the
/// low nibble is the channel's code `8 * j + 2 * i`, the high nibble the next. Groups of
/// four bytes alternate between the channels, behind the eight bytes of the headers.
pub proof fn law_codes_come_low_nibble_first(block: Seq<u8>, c: int, j: int, i: int, lo: int, hi: int)
    requires
        block.len() >= 72,
        0 <= c < 2,
        0 <= j < 8,
        0 <= i < 4,
        0 <= lo < 16,
        0 <= hi < 16,
        block[8 + 8 * j + 4 * c + i] == lo + 16 * hi,
    ensures
        ({
            let k = (8 * j + 2 * i) as nat;
            &&& code_taken(ima_state(block, c, k), lo, ima_state(block, c, k + 1))
            &&& code_taken(ima_state(block, c, k + 1), hi, ima_state(block, c, k + 2))
        }),
{
    let k = 8 * j + 2 * i;
    assert(k / 8 == j && k / 2 % 4 == i && k % 2 == 0);
    assert((k + 1) / 8 == j && (k + 1) / 2 % 4 == i && (k + 1) % 2 == 1);
    let byte = block[8 + 8 * j + 4 * c + i] as int;
    assert(byte % 16 == lo && byte / 16 == hi);
    assert(ima_nibble(block, c, k) == lo);
    assert(ima_nibble(block, c, k + 1) == hi);
    lemma_state_range(block, c, k as nat);
    lemma_state_range(block, c, (k + 1) as nat);
    law_code_is_taken(ima_state(block, c, k as nat), lo);
    law_code_is_taken(ima_state(block, c, (k + 1) as nat), hi);
}

/// A channel starts from its header: the first two bytes are its first sample, low
/// byte first, and the third is its step index, 88 at most.
pub proof fn law_channel_starts_from_its_header(block: Seq<u8>, c: int)
    requires
        block.len() >= 72,
        0 <= c < 2,
    ensures
        ({
            let (history, index) = ima_state(block, c, 0);
            let word = block[4 * c] + 256 * block[4 * c + 1];
            &&& history == if word < 32768 {
                word
            } else {
                word - 65536
            }
            &&& index == if block[4 * c + 2] <= 88 {
                block[4 * c + 2] as int
            } else {
                88
            }
            &&& stereo_samples(block)[c] == history
        }),
{
}

/// Frame `f` of a block holds the left and then the right channel as they are after
/// `f` codes, and a block holds 64 frames.
pub proof fn law_frames_interleave_channels(block: Seq<u8>, c: int, f: int)
    requires
        block.len() >= 72,
        0 <= c < 2,
        0 <= f < 64,
    ensures
        stereo_samples(block).len() == 128,
        stereo_samples(block)[2 * f + c] == ima_state(block, c, f as nat).0,
{
    lemma_state_range(block, c, f as nat);
    assert((2 * f + c) % 2 == c && (2 * f + c) / 2 == f);
}

proof fn lemma_block_found(bytes: Seq<u8>, n: nat, b: int, i: int)
    requires
        0 <= b < n,
        72 * n <= bytes.len(),
        0 <= i < 128,
    ensures
        wavm_samples(bytes, n)[128 * b + i] == stereo_samples(
            bytes.subrange(72 * b, 72 * b + 72),
        )[i],
    decreases n,
{
    law_wavm_length(bytes, (n - 1) as nat);
    if b < n - 1 {
        lemma_block_found(bytes, (n - 1) as nat, b, i);
    }
}

/// A file is a row of blocks of 72 bytes, decoded one after the other to stereo at
/// 44100 samples a second.
pub proof fn law_file_is_a_row_of_blocks(bytes: Seq<u8>, b: int, i: int)
    requires
        bytes.len() > 0,
        bytes.len() % 72 == 0,
        0 <= b < bytes.len() / 72,
        0 <= i < 128,
    ensures
        wavm_outcome(bytes) matches Ok((samples, rate, channels)) && {
            &&& rate == 44100
            &&& channels == 2
            &&& samples.len() == 128 * (bytes.len() / 72)
            &&& samples[128 * b + i] == stereo_samples(bytes.subrange(72 * b, 72 * b + 72))[i]
        },
{
    law_wavm_length(bytes, bytes.len() / 72);
    lemma_block_found(bytes, bytes.len() / 72, b, i);
}

/// A file that is empty or not of whole blocks is refused.
pub proof fn law_partial_files_are_refused(bytes: Seq<u8>)
    requires
        bytes.len() % 72 != 0 || bytes.len() == 0,
        bytes.len() <= usize::MAX,
    ensures
        bytes.len() == 0 ==> wavm_outcome(bytes) == Err::<(Seq<i16>, u32, u16), WavmError>(
            WavmError::Empty,
        ),
        bytes.len() > 0 ==> wavm_outcome(bytes) == Err::<(Seq<i16>, u32, u16), WavmError>(
            WavmError::UnalignedData { len: bytes.len() as usize, block_size: 72 },
        ),
{
}

} // verus!
