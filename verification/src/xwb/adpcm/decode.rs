//! MS-ADPCM block decoder.
//!
//! Each block has a 7-byte-per-channel header followed by 4-bit
//! nibbles. The XWB variant groups header fields by type across
//! channels rather than interleaving per channel.
//!
//! Block header layout (for N channels):
//!   [pred_0..pred_N-1]          1 byte each — predictor index
//!   [delta_0..delta_N-1]        2 bytes each (i16 LE) — initial step
//!   [sample1_0..sample1_N-1]    2 bytes each (i16 LE) — newest sample
//!   [sample2_0..sample2_N-1]    2 bytes each (i16 LE) — second-newest
//!
//! Nibble data is interleaved by frame: for each frame, one nibble per
//! channel, high nibble first within each byte.

use crate::util::io::{get_i16, sle16};
use crate::xwb::adpcm::{
    decoded_sample, lemma_step_keeps_ok, state_ok, step, stepped, AdpcmError, ChannelState,
};
use crate::xwb::container::{block_frames, block_size, channels_of, WaveFormat};
use vstd::arithmetic::div_mod::lemma_fundamental_div_mod_converse;
use vstd::prelude::*;
use vstd::slice::slice_subrange;

verus! {

/// Channel `c`'s state from the block header.
pub open spec fn header_state(block: Seq<u8>, ch: int, c: int) -> ChannelState {
    ChannelState {
        predictor: block[c],
        delta: sle16(block, ch + 2 * c) as i32,
        sample1: sle16(block, 3 * ch + 2 * c),
        sample2: sle16(block, 5 * ch + 2 * c),
    }
}

/// Nibble `k` behind the block header, high nibble first, if there is one.
pub open spec fn nibble_at(block: Seq<u8>, ch: int, k: int) -> Option<int> {
    let at = 7 * ch + k / 2;
    if at >= block.len() {
        None
    } else if k % 2 == 0 {
        Some(block[at] as int / 16)
    } else {
        Some(block[at] as int % 16)
    }
}

/// Channel `c`'s state after its first `f` nibbles.
pub open spec fn state_after(block: Seq<u8>, ch: int, c: int, f: nat) -> ChannelState
    decreases f,
{
    if f == 0 {
        header_state(block, ch, c)
    } else {
        let before = state_after(block, ch, c, (f - 1) as nat);
        match nibble_at(block, ch, (f - 1) * ch + c) {
            Some(nibble) => stepped(before, nibble),
            None => before,
        }
    }
}

/// Channel `c`'s sample in frame `f`: the two header samples, oldest first,
/// then one for each nibble, and 0 where the nibbles have run out.
pub open spec fn frame_sample(block: Seq<u8>, ch: int, c: int, f: nat) -> i16 {
    if f == 0 {
        header_state(block, ch, c).sample2
    } else if f == 1 {
        header_state(block, ch, c).sample1
    } else {
        match nibble_at(block, ch, (f - 2) * ch + c) {
            Some(nibble) => decoded_sample(state_after(block, ch, c, (f - 2) as nat), nibble),
            None => 0,
        }
    }
}

/// The samples of a block, interleaved.
pub open spec fn block_samples(block: Seq<u8>, ch: int, frames: int) -> Seq<i16> {
    Seq::new((frames * ch) as nat, |k: int| frame_sample(block, ch, k % ch, (k / ch) as nat))
}

/// The first channel from `c` on whose predictor is not a standard one.
pub open spec fn bad_predictor(block: Seq<u8>, ch: int, c: int) -> Option<u8>
    decreases ch - c,
{
    if c >= ch {
        None
    } else if block[c] >= 7 {
        Some(block[c])
    } else {
        bad_predictor(block, ch, c + 1)
    }
}

/// What a block decodes to.
pub open spec fn block_outcome(block: Seq<u8>, ch: int, frames: int) -> Result<
    Seq<i16>,
    AdpcmError,
> {
    if block.len() < 7 * ch {
        Err(AdpcmError::BlockTooShort { expected: (7 * ch) as usize, actual: block.len() as usize })
    } else {
        match bad_predictor(block, ch, 0) {
            Some(index) => Err(AdpcmError::BadPredictor { index }),
            None => Ok(block_samples(block, ch, frames)),
        }
    }
}

/// Block `i` of the data.
pub open spec fn block_at(data: Seq<u8>, size: int, i: int) -> Seq<u8> {
    data.subrange(i * size, i * size + size)
}

/// What the first `n` blocks decode to.
pub open spec fn blocks_outcome(data: Seq<u8>, format: u32, n: nat) -> Result<Seq<i16>, AdpcmError>
    decreases n,
{
    if n == 0 {
        Ok(Seq::empty())
    } else {
        match blocks_outcome(data, format, (n - 1) as nat) {
            Err(e) => Err(e),
            Ok(before) => match block_outcome(
                block_at(data, block_size(format), n - 1),
                channels_of(format),
                block_frames(format),
            ) {
                Err(e) => Err(e),
                Ok(samples) => Ok(before + samples),
            },
        }
    }
}

/// What data in a format decodes to: its whole blocks, one after the other.
pub open spec fn decode_outcome(data: Seq<u8>, format: u32) -> Result<Seq<i16>, AdpcmError> {
    if channels_of(format) == 0 {
        Ok(Seq::empty())
    } else {
        blocks_outcome(data, format, (data.len() as int / block_size(format)) as nat)
    }
}

proof fn lemma_blocks_error_stays(data: Seq<u8>, format: u32, m: nat, n: nat)
    requires
        m <= n,
        blocks_outcome(data, format, m) is Err,
    ensures
        blocks_outcome(data, format, n) == blocks_outcome(data, format, m),
    decreases n,
{
    if m < n {
        lemma_blocks_error_stays(data, format, m, (n - 1) as nat);
    }
}

proof fn lemma_bad_predictor_none(block: Seq<u8>, ch: int, from: int, c: int)
    requires
        0 <= from <= c < ch,
        bad_predictor(block, ch, from) is None,
    ensures
        block[c] < 7,
    decreases c - from,
{
    if from < c {
        lemma_bad_predictor_none(block, ch, from + 1, c);
    }
}

pub proof fn lemma_states_ok(block: Seq<u8>, ch: int, c: int, f: nat)
    requires
        block[c] < 7,
    ensures
        state_ok(state_after(block, ch, c, f)),
    decreases f,
{
    if f > 0 {
        lemma_states_ok(block, ch, c, (f - 1) as nat);
        match nibble_at(block, ch, (f - 1) * ch + c) {
            Some(nibble) => {
                lemma_step_keeps_ok(state_after(block, ch, c, (f - 1) as nat), nibble);
            },
            None => {},
        }
    }
}

/// The position of channel `c` in frame `f` splits back into the two.
pub proof fn lemma_interleave(ch: int, c: int, f: int)
    requires
        0 <= c < ch,
        0 <= f,
    ensures
        (f * ch + c) / ch == f,
        (f * ch + c) % ch == c,
        f * ch + c >= 0,
{
    assert(f * ch >= 0) by (nonlinear_arith)
        requires
            0 <= f,
            0 < ch,
    ;
    lemma_fundamental_div_mod_converse(f * ch + c, ch, f, c);
}

/// The channels' states from a block header.
fn read_states(block: &[u8], ch: usize) -> (r: Result<Vec<ChannelState>, AdpcmError>)
    requires
        0 < ch < 8,
        block@.len() >= 7 * ch,
    ensures
        match bad_predictor(block@, ch as int, 0) {
            Some(index) => r == Err::<Vec<ChannelState>, AdpcmError>(
                AdpcmError::BadPredictor { index },
            ),
            None => r is Ok && r->Ok_0@ == Seq::new(
                ch as nat,
                |c: int| header_state(block@, ch as int, c),
            ),
        },
{
    let mut states: Vec<ChannelState> = Vec::new();
    let mut c: usize = 0;
    while c < ch
        invariant
            c <= ch,
            ch < 8,
            block@.len() >= 7 * ch,
            bad_predictor(block@, ch as int, 0) == bad_predictor(block@, ch as int, c as int),
            states@ =~= Seq::new(c as nat, |k: int| header_state(block@, ch as int, k)),
        decreases ch - c,
    {
        let predictor: u8 = block[c];
        if predictor >= 7 {
            return Err(AdpcmError::BadPredictor { index: predictor });
        }
        states.push(
            ChannelState {
                predictor,
                delta: get_i16(block, ch + 2 * c) as i32,
                sample1: get_i16(block, 3 * ch + 2 * c),
                sample2: get_i16(block, 5 * ch + 2 * c),
            },
        );
        c = c + 1;
    }
    Ok(states)
}

/// Decode a single ADPCM block, appending interleaved samples to `out`.
/// Nothing is appended on an error.
fn decode_block(block: &[u8], ch: usize, samples_per_block: usize, out: &mut Vec<i16>) -> (r: Result<
    (),
    AdpcmError,
>)
    requires
        0 < ch < 8,
        2 <= samples_per_block <= 0x1000,
    ensures
        match block_outcome(block@, ch as int, samples_per_block as int) {
            Ok(samples) => r is Ok && final(out)@ == old(out)@ + samples,
            Err(e) => r == Err::<(), AdpcmError>(e) && final(out)@ == old(out)@,
        },
{
    if block.len() < 7 * ch {
        return Err(AdpcmError::BlockTooShort { expected: 7 * ch, actual: block.len() });
    }
    let mut states: Vec<ChannelState> = match read_states(block, ch) {
        Ok(s) => s,
        Err(e) => return Err(e),
    };
    let ghost b = block@;
    let ghost n = ch as int;
    let ghost all = block_samples(b, n, samples_per_block as int);
    let ghost start = out@;
    assert(samples_per_block * ch >= 2 * ch) by (nonlinear_arith)
        requires
            samples_per_block >= 2,
            ch >= 0,
    ;
    // The two header samples, oldest first.
    let mut c: usize = 0;
    while c < ch
        invariant
            c <= ch,
            0 < ch < 8,
            n == ch,
            2 <= samples_per_block <= 0x1000,
            states@ == Seq::new(ch as nat, |k: int| header_state(b, n, k)),
            all == block_samples(b, n, samples_per_block as int),
            all.len() >= 2 * ch,
            out@ =~= start + all.subrange(0, c as int),
        decreases ch - c,
    {
        proof {
            lemma_interleave(n, c as int, 0);
        }
        out.push(states[c].sample2);
        c = c + 1;
    }
    let mut c: usize = 0;
    while c < ch
        invariant
            c <= ch,
            0 < ch < 8,
            n == ch,
            2 <= samples_per_block <= 0x1000,
            states@ == Seq::new(ch as nat, |k: int| header_state(b, n, k)),
            all == block_samples(b, n, samples_per_block as int),
            all.len() >= 2 * ch,
            out@ =~= start + all.subrange(0, ch + c),
        decreases ch - c,
    {
        proof {
            lemma_interleave(n, c as int, 1);
        }
        out.push(states[c].sample1);
        c = c + 1;
    }
    // One sample for each nibble.
    let mut f: usize = 0;
    let mut k: usize = 0;
    while f < samples_per_block - 2
        invariant
            f <= samples_per_block - 2,
            0 < ch < 8,
            n == ch,
            2 <= samples_per_block <= 0x1000,
            k == f * ch,
            b == block@,
            b.len() >= 7 * ch,
            bad_predictor(b, n, 0) is None,
            all == block_samples(b, n, samples_per_block as int),
            states@.len() == ch,
            forall|j: int|
                0 <= j < ch ==> #[trigger] states@[j] == state_after(b, n, j, f as nat),
            out@ =~= start + all.subrange(0, (2 + f) * ch),
            (2 + f) * ch <= all.len(),
        decreases samples_per_block - f,
    {
        let mut c: usize = 0;
        proof {
            assert((2 + f) * ch + ch <= all.len()) by (nonlinear_arith)
                requires
                    all.len() == samples_per_block * ch,
                    f + 3 <= samples_per_block,
            ;
            assert(f * ch <= 0x1000 * 8) by (nonlinear_arith)
                requires
                    f <= 0x1000,
                    ch < 8,
            ;
        }
        while c < ch
            invariant
                c <= ch,
                0 < ch < 8,
                n == ch,
                f < samples_per_block - 2,
                samples_per_block <= 0x1000,
                k == f * ch + c,
                f * ch <= 0x1000 * 8,
                b == block@,
                b.len() >= 7 * ch,
                bad_predictor(b, n, 0) is None,
                all == block_samples(b, n, samples_per_block as int),
                states@.len() == ch,
                forall|j: int|
                    0 <= j < c ==> #[trigger] states@[j] == state_after(b, n, j, (f + 1) as nat),
                forall|j: int|
                    c <= j < ch ==> #[trigger] states@[j] == state_after(b, n, j, f as nat),
                out@ =~= start + all.subrange(0, (2 + f) * ch + c),
                (2 + f) * ch + ch <= all.len(),
            decreases ch - c,
        {
            let at: usize = 7 * ch + k / 2;
            proof {
                lemma_bad_predictor_none(b, n, 0, c as int);
                lemma_states_ok(b, n, c as int, f as nat);
                lemma_interleave(n, c as int, f + 2);
                assert((2 + f) * ch + c == (f + 2) * n + c);
                assert(all[(2 + f) * ch + c] == frame_sample(b, n, c as int, (f + 2) as nat));
                assert(((f + 1) as nat - 1) as nat == f as nat);
            }
            if at >= block.len() {
                assert(nibble_at(b, n, k as int) is None);
                out.push(0);
            } else {
                let nibble: u8 = if k % 2 == 0 {
                    block[at] / 16
                } else {
                    block[at] % 16
                };
                assert(nibble_at(b, n, k as int) == Some(nibble as int));
                let mut st: ChannelState = states[c];
                let sample: i16 = step(&mut st, nibble);
                states.set(c, st);
                out.push(sample);
            }
            c = c + 1;
            k = k + 1;
        }
        f = f + 1;
        assert((2 + f) * ch == (2 + (f - 1)) * ch + ch) by (nonlinear_arith);
        assert(f * ch == (f - 1) * ch + ch) by (nonlinear_arith);
    }
    assert((2 + f) * ch == samples_per_block * ch) by (nonlinear_arith)
        requires
            2 + f == samples_per_block,
    ;
    assert(all.subrange(0, samples_per_block * ch) =~= all);
    Ok(())
}

/// Decode all ADPCM blocks into interleaved i16 PCM:
/// `[L0, R0, L1, R1, ...]` for stereo. Bytes behind the last whole block are
/// ignored.
pub fn decode(data: &[u8], format: &WaveFormat) -> (r: Result<Vec<i16>, AdpcmError>)
    ensures
        match decode_outcome(data@, format@) {
            Ok(samples) => r is Ok && r->Ok_0@ == samples,
            Err(e) => r is Err && r->Err_0 == e,
        },
{
    let ch: usize = format.channels() as usize;
    let block_align: usize = format.block_align() as usize;
    let spb: usize = format.samples_per_block() as usize;
    if ch == 0 {
        return Ok(Vec::new());
    }
    let ghost raw = crate::xwb::container::align_of(format@);
    assert(block_align >= 22) by (nonlinear_arith)
        requires
            block_align == (raw + 22) * ch,
            raw >= 0,
            ch >= 1,
    ;
    let num_blocks: usize = data.len() / block_align;
    let len: usize = data.len();
    proof {
        vstd::arithmetic::div_mod::lemma_fundamental_div_mod(len as int, block_align as int);
        assert(num_blocks * block_align <= len) by (nonlinear_arith)
            requires
                len == block_align * num_blocks + (len as int % block_align as int),
                len as int % block_align as int >= 0,
        ;
    }
    let mut out: Vec<i16> = Vec::new();
    let mut i: usize = 0;
    while i < num_blocks
        invariant
            i <= num_blocks,
            len == data@.len(),
            num_blocks * block_align <= len,
            num_blocks == data@.len() as int / block_size(format@),
            0 < ch < 8,
            ch == channels_of(format@),
            block_align == block_size(format@),
            spb == block_frames(format@),
            2 <= spb <= 0x1000,
            blocks_outcome(data@, format@, i as nat) == Ok::<Seq<i16>, AdpcmError>(out@),
        decreases num_blocks - i,
    {
        proof {
            assert(i * block_align + block_align <= num_blocks * block_align) by (nonlinear_arith)
                requires
                    i + 1 <= num_blocks,
            ;
            assert(i * block_align >= 0) by (nonlinear_arith)
                requires
                    i >= 0,
                    block_align >= 0,
            ;
        }
        let start: usize = i * block_align;
        let block = slice_subrange(data, start, start + block_align);
        match decode_block(block, ch, spb, &mut out) {
            Ok(_) => {},
            Err(e) => {
                proof {
                    lemma_blocks_error_stays(data@, format@, (i + 1) as nat, num_blocks as nat);
                }
                return Err(e);
            },
        }
        i = i + 1;
    }
    Ok(out)
}

} // verus!
