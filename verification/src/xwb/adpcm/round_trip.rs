//! What decoding gives back of encoded audio.

use crate::util::io::{law_signed_round_trip, sbytes16, sle16};
use crate::xwb::adpcm::decode::{
    bad_predictor, block_at, block_outcome, block_samples, blocks_outcome, decode_outcome,
    header_state, lemma_interleave, nibble_at, state_after,
};
use crate::xwb::adpcm::encode::{
    block_count, block_nibble, block_pcm, chosen_predictor, encoded, encoded_block, encoded_blocks,
    encoder_state, header_byte, initial_delta, lemma_best_predictor, lemma_encoder_ok,
    lemma_initial_delta, lemma_quantized_range, pcm_at, quantized, reconstruction, start_state,
    truncated_quotient,
};
use crate::xwb::adpcm::{coeff1, coeff2, decoded_sample, predicted, AdpcmError, ChannelState};
use crate::xwb::container::{align_of, block_frames, block_size, channels_of};
use vstd::prelude::*;

verus! {

/// The sample that a decoder gives for sample `f` of one channel of a block:
/// the first two are exact, the others are the encoder's reconstructions.
pub open spec fn heard(samples: Seq<i16>, f: int) -> i16 {
    if f < 2 {
        samples[f]
    } else {
        reconstruction(samples, chosen_predictor(samples), (f - 2) as nat)
    }
}

/// What is heard of a block.
pub open spec fn heard_block(chans: Seq<Seq<i16>>, frames: int) -> Seq<i16> {
    let ch = chans.len() as int;
    Seq::new((frames * ch) as nat, |k: int| heard(chans[k % ch], k / ch))
}

/// Channels that make up a block of `frames` frames.
pub open spec fn block_shaped(chans: Seq<Seq<i16>>, frames: int) -> bool {
    &&& 0 < chans.len() < 8
    &&& 2 <= frames <= 0x1000
    &&& frames % 2 == 0
    &&& forall|c: int| 0 <= c < chans.len() ==> (#[trigger] chans[c]).len() == frames
}

proof fn lemma_block_len(chans: Seq<Seq<i16>>, frames: int)
    requires
        block_shaped(chans, frames),
    ensures
        encoded_block(chans, frames).len() == 7 * chans.len() + (frames - 2) / 2 * chans.len(),
        (frames - 2) * chans.len() == 2 * ((frames - 2) / 2 * chans.len()),
        (frames - 2) / 2 * chans.len() >= 0,
{
    let ch = chans.len() as int;
    let half = (frames - 2) / 2;
    assert((frames - 2) * ch == 2 * (half * ch)) by (nonlinear_arith)
        requires
            frames - 2 == 2 * half,
    ;
    assert(half * ch >= 0) by (nonlinear_arith)
        requires
            half >= 0,
            ch >= 0,
    ;
}

/// The bytes of a block, by position.
proof fn lemma_block_byte(chans: Seq<Seq<i16>>, frames: int, i: int)
    requires
        block_shaped(chans, frames),
        0 <= i < encoded_block(chans, frames).len(),
    ensures
        i < 7 * chans.len() ==> encoded_block(chans, frames)[i] == header_byte(chans, i),
        i >= 7 * chans.len() ==> encoded_block(chans, frames)[i] == (16 * block_nibble(
            chans,
            2 * (i - 7 * chans.len()),
        ) + block_nibble(chans, 2 * (i - 7 * chans.len()) + 1)) as u8,
{
}

proof fn lemma_sle16_of(b: Seq<u8>, at: int, v: i16)
    requires
        b[at] == sbytes16(v)[0],
        b[at + 1] == sbytes16(v)[1],
    ensures
        sle16(b, at) == v,
{
    law_signed_round_trip(0, v);
}

/// The bytes of the 16-bit fields of a block header.
proof fn lemma_delta_field(chans: Seq<Seq<i16>>, c: int, j: int)
    requires
        0 <= c < chans.len(),
        0 <= j < 2,
    ensures
        header_byte(chans, chans.len() + 2 * c + j) == sbytes16(
            initial_delta(chans[c], chosen_predictor(chans[c])) as i16,
        )[j],
{
    let i = chans.len() + 2 * c + j;
    assert((i - chans.len()) / 2 == c);
    assert((i - chans.len()) % 2 == j);
}

proof fn lemma_sample_fields(chans: Seq<Seq<i16>>, c: int, j: int)
    requires
        0 <= c < chans.len(),
        0 <= j < 2,
    ensures
        header_byte(chans, 3 * chans.len() + 2 * c + j) == sbytes16(chans[c][1])[j],
        header_byte(chans, 5 * chans.len() + 2 * c + j) == sbytes16(chans[c][0])[j],
{
    let i = 3 * chans.len() + 2 * c + j;
    assert((i - 3 * chans.len()) / 2 == c);
    assert((i - 3 * chans.len()) % 2 == j);
    let k = 5 * chans.len() + 2 * c + j;
    assert((k - 5 * chans.len()) / 2 == c);
    assert((k - 5 * chans.len()) % 2 == j);
}

proof fn lemma_header_back(chans: Seq<Seq<i16>>, frames: int, c: int)
    requires
        block_shaped(chans, frames),
        0 <= c < chans.len(),
    ensures
        header_state(encoded_block(chans, frames), chans.len() as int, c) == start_state(
            chans[c],
            chosen_predictor(chans[c]),
        ),
{
    let b = encoded_block(chans, frames);
    let ch = chans.len() as int;
    let p = chosen_predictor(chans[c]);
    lemma_block_len(chans, frames);
    lemma_best_predictor(chans[c], 7);
    lemma_initial_delta(chans[c], p);
    let d = initial_delta(chans[c], p) as i16;
    lemma_delta_field(chans, c, 0);
    lemma_delta_field(chans, c, 1);
    lemma_sample_fields(chans, c, 0);
    lemma_sample_fields(chans, c, 1);
    lemma_block_byte(chans, frames, c);
    lemma_block_byte(chans, frames, ch + 2 * c);
    lemma_block_byte(chans, frames, ch + 2 * c + 1);
    lemma_block_byte(chans, frames, 3 * ch + 2 * c);
    lemma_block_byte(chans, frames, 3 * ch + 2 * c + 1);
    lemma_block_byte(chans, frames, 5 * ch + 2 * c);
    lemma_block_byte(chans, frames, 5 * ch + 2 * c + 1);
    lemma_sle16_of(b, ch + 2 * c, d);
    lemma_sle16_of(b, 3 * ch + 2 * c, chans[c][1]);
    lemma_sle16_of(b, 5 * ch + 2 * c, chans[c][0]);
}

proof fn lemma_nibble_range(chans: Seq<Seq<i16>>, frames: int, k: int)
    requires
        block_shaped(chans, frames),
        0 <= k,
    ensures
        0 <= block_nibble(chans, k) < 16,
{
    let c = k % chans.len() as int;
    let p = chosen_predictor(chans[c]);
    let f = (k / chans.len() as int) as nat;
    lemma_quantized_range(encoder_state(chans[c], p, f), chans[c][f as int + 2] as int);
}

proof fn lemma_nibble_back(chans: Seq<Seq<i16>>, frames: int, k: int)
    requires
        block_shaped(chans, frames),
        0 <= k < (frames - 2) * chans.len(),
    ensures
        nibble_at(encoded_block(chans, frames), chans.len() as int, k) == Some(
            block_nibble(chans, k),
        ),
{
    let ch = chans.len() as int;
    lemma_block_len(chans, frames);
    let j = k / 2;
    lemma_nibble_range(chans, frames, 2 * j);
    lemma_nibble_range(chans, frames, 2 * j + 1);
    lemma_block_byte(chans, frames, 7 * ch + j);
    let (hi, lo) = (block_nibble(chans, 2 * j), block_nibble(chans, 2 * j + 1));
    let byte = encoded_block(chans, frames)[7 * ch + j];
    assert(byte == 16 * hi + lo);
    assert(byte as int / 16 == hi && byte as int % 16 == lo);
    assert(k == 2 * j || k == 2 * j + 1);
}

/// A channel's place in a frame lies before the end of the frames.
proof fn lemma_slot(ch: int, c: int, f: int, frames: int)
    requires
        0 <= c < ch,
        0 <= f < frames,
    ensures
        f * ch + c < frames * ch,
{
    vstd::arithmetic::mul::lemma_mul_inequality(f + 1, frames, ch);
    vstd::arithmetic::mul::lemma_mul_is_distributive_add_other_way(ch, f, 1);
}

proof fn lemma_state_back(chans: Seq<Seq<i16>>, frames: int, c: int, f: nat)
    requires
        block_shaped(chans, frames),
        0 <= c < chans.len(),
        f <= frames - 2,
    ensures
        state_after(encoded_block(chans, frames), chans.len() as int, c, f) == encoder_state(
            chans[c],
            chosen_predictor(chans[c]),
            f,
        ),
    decreases f,
{
    let ch = chans.len() as int;
    if f == 0 {
        lemma_header_back(chans, frames, c);
    } else {
        let g = (f - 1) as nat;
        lemma_state_back(chans, frames, c, g);
        lemma_interleave(ch, c, g as int);
        lemma_slot(ch, c, g as int, frames - 2);
        lemma_nibble_back(chans, frames, g * ch + c);
    }
}

proof fn lemma_predictors_good(chans: Seq<Seq<i16>>, frames: int, from: int)
    requires
        block_shaped(chans, frames),
        0 <= from <= chans.len(),
    ensures
        bad_predictor(encoded_block(chans, frames), chans.len() as int, from) is None,
    decreases chans.len() - from,
{
    if from < chans.len() {
        lemma_block_len(chans, frames);
        lemma_best_predictor(chans[from], 7);
        assert(encoded_block(chans, frames)[from] == chosen_predictor(chans[from]));
        lemma_predictors_good(chans, frames, from + 1);
    }
}

/// A decoder reconstructs exactly what the encoder reckoned with: the first
/// two samples of each channel of a block come back unchanged, and every
/// other sample is the encoder's own reconstruction of it.
pub proof fn law_block_round_trip(chans: Seq<Seq<i16>>, frames: int)
    requires
        block_shaped(chans, frames),
    ensures
        block_outcome(encoded_block(chans, frames), chans.len() as int, frames) == Ok::<
            Seq<i16>,
            AdpcmError,
        >(heard_block(chans, frames)),
{
    let b = encoded_block(chans, frames);
    let ch = chans.len() as int;
    lemma_block_len(chans, frames);
    lemma_predictors_good(chans, frames, 0);
    assert forall|k: int| 0 <= k < frames * ch implies #[trigger] block_samples(b, ch, frames)[k]
        == heard_block(chans, frames)[k] by {
        let c = k % ch;
        let f = k / ch;
        vstd::arithmetic::div_mod::lemma_fundamental_div_mod(k, ch);
        assert(0 <= f < frames) by (nonlinear_arith)
            requires
                k == ch * f + c,
                0 <= c < ch,
                0 <= k < frames * ch,
        ;
        lemma_header_back(chans, frames, c);
        if f >= 2 {
            let g = (f - 2) as nat;
            lemma_state_back(chans, frames, c, g);
            lemma_interleave(ch, c, g as int);
            lemma_slot(ch, c, g as int, frames - 2);
            lemma_nibble_back(chans, frames, g * ch + c);
        }
    }
    assert(block_samples(b, ch, frames) =~= heard_block(chans, frames));
}

/// What is heard of the first `n` blocks of encoded PCM.
pub open spec fn heard_blocks(samples: Seq<i16>, ch: int, frames: int, n: nat) -> Seq<i16>
    decreases n,
{
    if n == 0 {
        Seq::empty()
    } else {
        heard_blocks(samples, ch, frames, (n - 1) as nat) + heard_block(
            block_pcm(samples, ch, frames, n - 1),
            frames,
        )
    }
}

proof fn lemma_format(format: u32)
    requires
        channels_of(format) > 0,
    ensures
        0 < channels_of(format) < 8,
        32 <= block_frames(format) <= 0x1000,
        block_frames(format) % 2 == 0,
        block_size(format) == 7 * channels_of(format) + (block_frames(format) - 2) / 2
            * channels_of(format),
        block_size(format) > 0,
{
    let raw = align_of(format);
    let ch = channels_of(format);
    assert((block_frames(format) - 2) / 2 == raw + 15);
    assert((raw + 22) * ch == 7 * ch + (raw + 15) * ch) by (nonlinear_arith);
    assert((raw + 22) * ch > 0) by (nonlinear_arith)
        requires
            raw >= 0,
            ch > 0,
    ;
}

proof fn lemma_encoded_len(samples: Seq<i16>, format: u32, n: nat)
    requires
        channels_of(format) > 0,
    ensures
        encoded_blocks(samples, channels_of(format), block_frames(format), n).len() == n
            * block_size(format),
    decreases n,
{
    let size = block_size(format);
    if n == 0 {
        assert(n * size == 0) by (nonlinear_arith)
            requires
                n == 0,
        ;
    } else {
        lemma_encoded_len(samples, format, (n - 1) as nat);
        lemma_format(format);
        lemma_block_len(
            block_pcm(samples, channels_of(format), block_frames(format), n - 1),
            block_frames(format),
        );
        assert(n * size == (n - 1) * size + size) by (nonlinear_arith);
    }
}

proof fn lemma_block_found(samples: Seq<i16>, format: u32, n: nat, i: int)
    requires
        channels_of(format) > 0,
        0 <= i < n,
    ensures
        block_at(
            encoded_blocks(samples, channels_of(format), block_frames(format), n),
            block_size(format),
            i,
        ) == encoded_block(
            block_pcm(samples, channels_of(format), block_frames(format), i),
            block_frames(format),
        ),
        0 <= i * block_size(format),
        i * block_size(format) + block_size(format) <= encoded_blocks(
            samples,
            channels_of(format),
            block_frames(format),
            n,
        ).len(),
    decreases n,
{
    let ch = channels_of(format);
    let frames = block_frames(format);
    let size = block_size(format);
    lemma_format(format);
    lemma_encoded_len(samples, format, n);
    lemma_encoded_len(samples, format, (n - 1) as nat);
    lemma_block_len(block_pcm(samples, ch, frames, n - 1), frames);
    let before = encoded_blocks(samples, ch, frames, (n - 1) as nat);
    let all = encoded_blocks(samples, ch, frames, n);
    assert(0 <= i * size && i * size + size <= n * size) by (nonlinear_arith)
        requires
            0 <= i,
            i + 1 <= n,
            size > 0,
    ;
    if i == n - 1 {
        assert(block_at(all, size, i) =~= encoded_block(block_pcm(samples, ch, frames, i), frames));
    } else {
        lemma_block_found(samples, format, (n - 1) as nat, i);
        assert(block_at(all, size, i) =~= block_at(before, size, i));
    }
}

proof fn lemma_blocks_back(samples: Seq<i16>, format: u32, total: nat, n: nat)
    requires
        channels_of(format) > 0,
        n <= total,
    ensures
        blocks_outcome(
            encoded_blocks(samples, channels_of(format), block_frames(format), total),
            format,
            n,
        ) == Ok::<Seq<i16>, AdpcmError>(
            heard_blocks(samples, channels_of(format), block_frames(format), n),
        ),
    decreases n,
{
    if n > 0 {
        lemma_blocks_back(samples, format, total, (n - 1) as nat);
        lemma_format(format);
        lemma_block_found(samples, format, total, n - 1);
        law_block_round_trip(
            block_pcm(samples, channels_of(format), block_frames(format), n - 1),
            block_frames(format),
        );
    }
}

/// Whatever was encoded decodes, to as many blocks as were needed, and each
/// block to what the encoder reckoned with.
pub proof fn law_encode_then_decode(samples: Seq<i16>, format: u32)
    requires
        channels_of(format) > 0,
    ensures
        decode_outcome(encoded(samples, format), format) == Ok::<Seq<i16>, AdpcmError>(
            heard_blocks(
                samples,
                channels_of(format),
                block_frames(format),
                block_count(samples, format) as nat,
            ),
        ),
        encoded(samples, format).len() == block_count(samples, format) * block_size(format),
{
    lemma_format(format);
    let frames = block_frames(format);
    let ch = channels_of(format);
    let whole = samples.len() as int / ch;
    vstd::arithmetic::div_mod::lemma_div_pos_is_pos(samples.len() as int, ch);
    vstd::arithmetic::div_mod::lemma_div_pos_is_pos(whole + frames - 1, frames);
    let n = block_count(samples, format) as nat;
    lemma_encoded_len(samples, format, n);
    let size = block_size(format);
    vstd::arithmetic::div_mod::lemma_div_multiples_vanish(n as int, size);
    assert(n * size == size * n) by (nonlinear_arith);
    lemma_blocks_back(samples, format, n, n);
}

/// The blocks of encoded PCM hold every whole frame: the decoded audio is as
/// long as the input, rounded up to whole blocks.
pub proof fn law_decoded_length(samples: Seq<i16>, format: u32)
    requires
        channels_of(format) > 0,
    ensures
        decode_outcome(encoded(samples, format), format)->Ok_0.len() == block_count(samples, format)
            * block_frames(format) * channels_of(format),
        samples.len() as int / channels_of(format) <= block_count(samples, format) * block_frames(
            format,
        ) < samples.len() as int / channels_of(format) + block_frames(format),
{
    lemma_format(format);
    law_encode_then_decode(samples, format);
    let frames = block_frames(format);
    let ch = channels_of(format);
    let whole = samples.len() as int / ch;
    vstd::arithmetic::div_mod::lemma_div_pos_is_pos(samples.len() as int, ch);
    vstd::arithmetic::div_mod::lemma_fundamental_div_mod(whole + frames - 1, frames);
    let n = block_count(samples, format);
    vstd::arithmetic::div_mod::lemma_div_pos_is_pos(whole + frames - 1, frames);
    assert(whole <= n * frames < whole + frames) by (nonlinear_arith)
        requires
            whole + frames - 1 == frames * n + (whole + frames - 1) % frames,
            0 <= (whole + frames - 1) % frames < frames,
    ;
    lemma_heard_len(samples, ch, frames, n as nat);
}

proof fn lemma_heard_len(samples: Seq<i16>, ch: int, frames: int, n: nat)
    requires
        ch > 0,
        frames > 0,
    ensures
        heard_blocks(samples, ch, frames, n).len() == n * frames * ch,
    decreases n,
{
    if n == 0 {
        assert(n * frames * ch == 0) by (nonlinear_arith)
            requires
                n == 0,
        ;
    } else {
        lemma_heard_len(samples, ch, frames, (n - 1) as nat);
        assert(n * frames * ch == (n - 1) * frames * ch + frames * ch) by (nonlinear_arith);
        assert(frames * ch > 0) by (nonlinear_arith)
            requires
                frames > 0,
                ch > 0,
        ;
    }
}

/// Frame `f` of block `b`, as it is heard.
proof fn lemma_heard_at(samples: Seq<i16>, ch: int, frames: int, n: nat, b: int, f: int, c: int)
    requires
        0 <= b < n,
        0 <= f < frames,
        0 <= c < ch,
    ensures
        0 <= (b * frames + f) * ch + c < heard_blocks(samples, ch, frames, n).len(),
        heard_blocks(samples, ch, frames, n)[(b * frames + f) * ch + c] == heard(
            block_pcm(samples, ch, frames, b)[c],
            f,
        ),
    decreases n,
{
    let i = (b * frames + f) * ch + c;
    let before = heard_blocks(samples, ch, frames, (n - 1) as nat);
    lemma_heard_len(samples, ch, frames, (n - 1) as nat);
    lemma_heard_len(samples, ch, frames, n);
    assert(n * frames * ch == (n - 1) * frames * ch + frames * ch) by (nonlinear_arith);
    if b == n - 1 {
        lemma_slot(ch, c, f, frames);
        lemma_interleave(ch, c, f);
        assert(f * ch >= 0) by (nonlinear_arith)
            requires
                f >= 0,
                ch > 0,
        ;
        assert(i == (n - 1) * frames * ch + (f * ch + c)) by (nonlinear_arith)
            requires
                i == (b * frames + f) * ch + c,
                b == n - 1,
        ;
        assert((n - 1) * frames * ch >= 0);
    } else {
        lemma_heard_at(samples, ch, frames, (n - 1) as nat, b, f, c);
        assert(frames * ch > 0) by (nonlinear_arith)
            requires
                frames > 0,
                ch > 0,
        ;
    }
}

/// The header of each block holds its first two frames and predictors that exist,
/// and the two frames come back exactly; behind the input they are silent.
pub proof fn law_first_frames_are_exact(samples: Seq<i16>, format: u32, b: int, c: int)
    requires
        0 <= b < block_count(samples, format),
        0 <= c < channels_of(format),
    ensures
        ({
            let ch = channels_of(format);
            let frames = block_frames(format);
            let block = block_at(encoded(samples, format), block_size(format), b);
            let decoded = decode_outcome(encoded(samples, format), format)->Ok_0;
            &&& block[c] < 7
            &&& sle16(block, 5 * ch + 2 * c) == pcm_at(samples, ch, c, b * frames)
            &&& sle16(block, 3 * ch + 2 * c) == pcm_at(samples, ch, c, b * frames + 1)
            &&& 0 <= (b * frames) * ch + c < decoded.len()
            &&& 0 <= (b * frames + 1) * ch + c < decoded.len()
            &&& decoded[(b * frames) * ch + c] == pcm_at(samples, ch, c, b * frames)
            &&& decoded[(b * frames + 1) * ch + c] == pcm_at(samples, ch, c, b * frames + 1)
        }),
{
    let ch = channels_of(format);
    let frames = block_frames(format);
    let n = block_count(samples, format) as nat;
    lemma_format(format);
    law_encode_then_decode(samples, format);
    lemma_block_found(samples, format, n, b);
    let chans = block_pcm(samples, ch, frames, b);
    lemma_block_len(chans, frames);
    lemma_best_predictor(chans[c], 7);
    lemma_block_byte(chans, frames, c);
    lemma_sample_fields(chans, c, 0);
    lemma_sample_fields(chans, c, 1);
    lemma_block_byte(chans, frames, 3 * ch + 2 * c);
    lemma_block_byte(chans, frames, 3 * ch + 2 * c + 1);
    lemma_block_byte(chans, frames, 5 * ch + 2 * c);
    lemma_block_byte(chans, frames, 5 * ch + 2 * c + 1);
    lemma_sle16_of(encoded_block(chans, frames), 3 * ch + 2 * c, chans[c][1]);
    lemma_sle16_of(encoded_block(chans, frames), 5 * ch + 2 * c, chans[c][0]);
    lemma_heard_at(samples, ch, frames, n, b, 0, c);
    lemma_heard_at(samples, ch, frames, n, b, 1, c);
}

/// Silent samples are reconstructed as silence.
proof fn lemma_silent_state(samples: Seq<i16>, predictor: u8, f: nat)
    requires
        predictor < 7,
        f + 2 <= samples.len(),
        forall|i: int| 0 <= i < samples.len() ==> samples[i] == 0,
    ensures
        encoder_state(samples, predictor, f).sample1 == 0,
        encoder_state(samples, predictor, f).sample2 == 0,
    decreases f,
{
    if f > 0 {
        let g = (f - 1) as nat;
        lemma_silent_state(samples, predictor, g);
        lemma_silent_step(encoder_state(samples, predictor, g), samples[g as int + 2]);
        lemma_encoder_ok(samples, predictor, g);
    }
}

proof fn lemma_silent_step(st: ChannelState, actual: i16)
    requires
        st.sample1 == 0,
        st.sample2 == 0,
        actual == 0,
    ensures
        st.delta >= 16 ==> quantized(st, actual as int) == 0,
        st.delta >= 16 ==> decoded_sample(st, quantized(st, actual as int)) == 0,
{
    assert(predicted(st) == 0) by {
        assert(0int * coeff1(st.predictor as int) == 0) by (nonlinear_arith);
        assert(0int * coeff2(st.predictor as int) == 0) by (nonlinear_arith);
    }
    if st.delta >= 16 {
        assert(truncated_quotient(0, st.delta as int) == 0) by {
            vstd::arithmetic::div_mod::lemma_div_basics(st.delta as int);
        }
        assert(0int * st.delta as int == 0) by (nonlinear_arith);
    }
}

/// Silence in, silence out.
pub proof fn law_silence_is_kept(chans: Seq<Seq<i16>>, frames: int, k: int)
    requires
        block_shaped(chans, frames),
        forall|c: int, i: int|
            0 <= c < chans.len() && 0 <= i < frames ==> #[trigger] chans[c][i] == 0,
        0 <= k < frames * chans.len(),
    ensures
        heard_block(chans, frames)[k] == 0,
{
    let ch = chans.len() as int;
    let c = k % ch;
    let f = k / ch;
    vstd::arithmetic::div_mod::lemma_fundamental_div_mod(k, ch);
    assert(0 <= f < frames) by (nonlinear_arith)
        requires
            k == ch * f + c,
            0 <= c < ch,
            0 <= k < frames * ch,
    ;
    assert(chans[c].len() == frames);
    if f >= 2 {
        let p = chosen_predictor(chans[c]);
        lemma_best_predictor(chans[c], 7);
        let g = (f - 2) as nat;
        assert forall|i: int| 0 <= i < chans[c].len() implies chans[c][i] == 0 by {}
        lemma_silent_state(chans[c], p, g);
        lemma_encoder_ok(chans[c], p, g);
        lemma_silent_step(encoder_state(chans[c], p, g), chans[c][g as int + 2]);
    }
}

} // verus!
