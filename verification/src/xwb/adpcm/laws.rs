//! What MS-ADPCM data stands for: every sample is predicted from the two before it by a
//! standard coefficient pair, and a nibble says by how many steps it differs.

use super::decode::{
    block_outcome, block_samples, blocks_outcome, decode_outcome, frame_sample, header_state,
    lemma_interleave, nibble_at, state_after,
};
use super::encode::{
    best_predictor, chosen_predictor, initial_delta, quantized, quantized_value, reconstruction,
    squared_error, truncated_quotient,
};
use super::{
    adaptation, adapted_delta, coeff1, coeff2, decoded_sample, predicted, stepped, AdpcmError,
    ChannelState,
};
use crate::xwb::container::{align_of, block_frames, block_size, channels_of, rate_of};
use vstd::prelude::*;

verus! {

/// The seven standard coefficient pairs.
pub open spec fn standard_pairs() -> Seq<(int, int)> {
    seq![
        (256int, 0int),
        (512, -256),
        (0, 0),
        (192, 64),
        (240, 0),
        (460, -208),
        (392, -232),
    ]
}

/// The coefficients are the standard ones.
pub proof fn law_coefficients_are_standard(i: int)
    requires
        0 <= i < 7,
    ensures
        (coeff1(i), coeff2(i)) == standard_pairs()[i],
{
}

/// The prediction weighs the newest sample with the first coefficient and the one before
/// it with the second, in 256ths, and is rounded down.
pub proof fn law_prediction_weighs_the_last_two(st: ChannelState)
    requires
        st.predictor < 7,
    ensures
        ({
            let (a, b) = standard_pairs()[st.predictor as int];
            let sum = a * st.sample1 + b * st.sample2;
            256 * predicted(st) <= sum < 256 * predicted(st) + 256
        }),
{
    law_coefficients_are_standard(st.predictor as int);
    let (a, b) = standard_pairs()[st.predictor as int];
    assert(st.sample1 * a == a * st.sample1) by (nonlinear_arith);
    assert(st.sample2 * b == b * st.sample2) by (nonlinear_arith);
}

/// The value of a nibble: its top bit counts negative.
pub open spec fn steps_of(nibble: int) -> int {
    seq![0int, 1, 2, 3, 4, 5, 6, 7, -8, -7, -6, -5, -4, -3, -2, -1][nibble]
}

/// How far a nibble makes the step size grow or shrink, in 256ths.
pub open spec fn standard_adaptation(nibble: int) -> int {
    seq![230int, 230, 230, 230, 307, 409, 512, 614, 768, 614, 512, 409, 307, 230, 230, 230][nibble]
}

/// Whether `v` is `n`, or the nearest 16-bit value to it.
pub open spec fn held_to_16(n: int, v: int) -> bool {
    &&& -32768 <= n <= 32767 ==> v == n
    &&& n > 32767 ==> v == 32767
    &&& n < -32768 ==> v == -32768
}

/// A nibble moves the sample away from the prediction by as many steps as it says. The
/// new sample is the newest one, and the one before it is kept.
pub proof fn law_nibble_moves_the_prediction(st: ChannelState, nibble: int)
    requires
        0 <= nibble < 16,
    ensures
        held_to_16(
            predicted(st) + steps_of(nibble) * st.delta,
            decoded_sample(st, nibble) as int,
        ),
        stepped(st, nibble).predictor == st.predictor,
        stepped(st, nibble).sample1 == decoded_sample(st, nibble),
        stepped(st, nibble).sample2 == st.sample1,
{
}

/// The step size is adapted by what the nibble says, rounded down, and stays 16 at
/// least. The product is kept to 32 bits.
pub proof fn law_step_size_adapts(delta: int, nibble: int)
    requires
        0 <= nibble < 16,
        -0x80_0000 <= delta <= 0x80_0000,
    ensures
        adaptation(nibble) == standard_adaptation(nibble),
        adapted_delta(delta, nibble) >= 16,
        ({
            let product = delta * standard_adaptation(nibble);
            let d = adapted_delta(delta, nibble);
            &&& 16 * 256 <= product <= i32::MAX ==> 256 * d <= product < 256 * d + 256
            &&& 0 <= product < 16 * 256 ==> d == 16
            &&& i32::MIN <= product < 0 ==> d == 16
        }),
{
}

/// The fields of a channel in a block's header: the predictors of all channels, then
/// their step sizes, their newest samples and the ones before, low byte first.
pub proof fn law_header_fields(block: Seq<u8>, ch: int, c: int)
    requires
        0 <= c < ch,
        block.len() >= 7 * ch,
    ensures
        ({
            let st = header_state(block, ch, c);
            &&& st.predictor == block[c]
            &&& is_word(block, ch + 2 * c, st.delta as int)
            &&& is_word(block, 3 * ch + 2 * c, st.sample1 as int)
            &&& is_word(block, 5 * ch + 2 * c, st.sample2 as int)
        }),
{
}

/// Whether two bytes are a signed number, low byte first.
pub open spec fn is_word(b: Seq<u8>, at: int, v: int) -> bool {
    &&& -32768 <= v < 32768
    &&& v == b[at] + 256 * b[at + 1] || v == b[at] + 256 * b[at + 1] - 65536
}

/// Nibbles come high before low and alternate between the channels, one for each frame
/// from the third on.
pub open spec fn code_at(block: Seq<u8>, ch: int, c: int, f: int) -> int {
    let k = (f - 2) * ch + c;
    let byte = block[7 * ch + k / 2] as int;
    if k % 2 == 0 {
        byte / 16
    } else {
        byte % 16
    }
}

proof fn lemma_code_there(block: Seq<u8>, ch: int, c: int, f: int)
    requires
        0 <= c < ch,
        f >= 2,
        7 * ch + ((f - 2) * ch + c) / 2 < block.len(),
    ensures
        (f - 2) * ch + c >= 0,
        nibble_at(block, ch, (f - 2) * ch + c) == Some(code_at(block, ch, c, f)),
        0 <= code_at(block, ch, c, f) < 16,
{
    assert((f - 2) * ch >= 0) by (nonlinear_arith)
        requires
            f >= 2,
            ch > 0,
    ;
}

proof fn lemma_states_hold_samples(block: Seq<u8>, ch: int, c: int, f: int)
    requires
        0 <= c < ch,
        f >= 2,
        7 * ch + ((f - 2) * ch + c) / 2 < block.len(),
    ensures
        ({
            let st = state_after(block, ch, c, (f - 2) as nat);
            &&& st.predictor == block[c]
            &&& st.sample1 == frame_sample(block, ch, c, (f - 1) as nat)
            &&& st.sample2 == frame_sample(block, ch, c, (f - 2) as nat)
        }),
    decreases f,
{
    if f > 2 {
        assert((f - 2) * ch == (f - 3) * ch + ch) by (nonlinear_arith);
        lemma_states_hold_samples(block, ch, c, f - 1);
        lemma_code_there(block, ch, c, f - 1);
    }
}

/// Every sample of a block but the first two of its channel is predicted from the two
/// before it, and moved by its code.
pub proof fn law_samples_follow_from_the_two_before(block: Seq<u8>, ch: int, c: int, f: int)
    requires
        0 <= c < ch,
        f >= 2,
        7 * ch + ((f - 2) * ch + c) / 2 < block.len(),
        block[c] < 7,
    ensures
        ({
            let (a, b) = standard_pairs()[block[c] as int];
            let newest = frame_sample(block, ch, c, (f - 1) as nat) as int;
            let before = frame_sample(block, ch, c, (f - 2) as nat) as int;
            let delta = state_after(block, ch, c, (f - 2) as nat).delta as int;
            let code = code_at(block, ch, c, f);
            let p = (a * newest + b * before) / 256;
            &&& held_to_16(
                p + steps_of(code) * delta,
                frame_sample(block, ch, c, f as nat) as int,
            )
            &&& state_after(block, ch, c, (f - 1) as nat).delta == adapted_delta(delta, code) as i32
        }),
{
    let st = state_after(block, ch, c, (f - 2) as nat);
    lemma_states_hold_samples(block, ch, c, f);
    lemma_code_there(block, ch, c, f);
    law_nibble_moves_the_prediction(st, code_at(block, ch, c, f));
    law_prediction_weighs_the_last_two(st);
}

/// A block begins with the two samples of its header, the older first, and holds the
/// channels of each frame side by side.
pub proof fn law_block_holds_frames(block: Seq<u8>, ch: int, frames: int, c: int, f: int)
    requires
        0 <= c < ch,
        0 <= f < frames,
        block.len() >= 7 * ch,
    ensures
        block_samples(block, ch, frames).len() == frames * ch,
        0 <= f * ch + c < frames * ch,
        block_samples(block, ch, frames)[f * ch + c] == frame_sample(block, ch, c, f as nat),
        f == 0 ==> is_word(block, 5 * ch + 2 * c, frame_sample(block, ch, c, f as nat) as int),
        f == 1 ==> is_word(block, 3 * ch + 2 * c, frame_sample(block, ch, c, f as nat) as int),
{
    lemma_interleave(ch, c, f);
    assert(f * ch + ch <= frames * ch) by (nonlinear_arith)
        requires
            f + 1 <= frames,
            ch > 0,
    ;
    law_header_fields(block, ch, c);
}

/// A block with a predictor that is none of the seven is refused, for the first such
/// channel.
pub proof fn law_unknown_predictors_are_refused(block: Seq<u8>, ch: int, frames: int, c: int)
    requires
        0 <= c < ch,
        block.len() >= 7 * ch,
        block[c] >= 7,
        forall|k: int| 0 <= k < c ==> #[trigger] block[k] < 7,
    ensures
        block_outcome(block, ch, frames) == Err::<Seq<i16>, AdpcmError>(
            AdpcmError::BadPredictor { index: block[c] },
        ),
{
    lemma_bad_predictor(block, ch, c, 0);
}

proof fn lemma_bad_predictor(block: Seq<u8>, ch: int, c: int, from: int)
    requires
        0 <= from <= c < ch,
        block.len() >= 7 * ch,
        block[c] >= 7,
        forall|k: int| 0 <= k < c ==> #[trigger] block[k] < 7,
    ensures
        super::decode::bad_predictor(block, ch, from) == Some(block[c]),
    decreases c - from,
{
    if from < c {
        lemma_bad_predictor(block, ch, c, from + 1);
    }
}

proof fn lemma_decoded_block(data: Seq<u8>, format: u32, n: nat, b: int, i: int)
    requires
        0 <= b < n,
        0 <= i < block_frames(format) * channels_of(format),
        blocks_outcome(data, format, n) is Ok,
        channels_of(format) > 0,
    ensures
        ({
            let per = block_frames(format) * channels_of(format);
            let samples = blocks_outcome(data, format, n)->Ok_0;
            &&& samples.len() == n * per
            &&& 0 <= b * per + i < n * per
            &&& samples[b * per + i] == block_samples(
                data.subrange(b * block_size(format), b * block_size(format) + block_size(format)),
                channels_of(format),
                block_frames(format),
            )[i]
        }),
    decreases n,
{
    let per = block_frames(format) * channels_of(format);
    let size = block_size(format);
    assert(per >= 0);
    lemma_decoded_len(data, format, (n - 1) as nat);
    lemma_decoded_len(data, format, n);
    let before = blocks_outcome(data, format, (n - 1) as nat)->Ok_0;
    assert(n * per == (n - 1) * per + per) by (nonlinear_arith);
    assert(b * size + size == b * size + block_size(format));
    if b < n - 1 {
        lemma_decoded_block(data, format, (n - 1) as nat, b, i);
    } else {
        assert(b * per + i == before.len() + i);
        assert((n - 1) * per >= 0) by (nonlinear_arith)
            requires
                n >= 1,
                per >= 0,
        ;
    }
}

proof fn lemma_decoded_len(data: Seq<u8>, format: u32, n: nat)
    requires
        blocks_outcome(data, format, n) is Ok,
        channels_of(format) > 0,
    ensures
        blocks_outcome(data, format, n)->Ok_0.len() == n * (block_frames(format) * channels_of(
            format,
        )),
    decreases n,
{
    let per = block_frames(format) * channels_of(format);
    assert(per >= 0) by (nonlinear_arith)
        requires
            per == block_frames(format) * channels_of(format),
            block_frames(format) >= 0,
            channels_of(format) >= 0,
    ;
    if n == 0 {
        assert(n * per == 0) by (nonlinear_arith)
            requires
                n == 0,
        ;
    } else {
        lemma_decoded_len(data, format, (n - 1) as nat);
        assert(n * per == (n - 1) * per + per) by (nonlinear_arith);
    }
}

/// Data is a row of blocks, decoded one after the other.
pub proof fn law_data_is_a_row_of_blocks(data: Seq<u8>, format: u32, b: int, i: int)
    requires
        channels_of(format) > 0,
        0 <= b < data.len() as int / block_size(format),
        0 <= i < block_frames(format) * channels_of(format),
        decode_outcome(data, format) is Ok,
    ensures
        ({
            let per = block_frames(format) * channels_of(format);
            let size = block_size(format);
            let samples = decode_outcome(data, format)->Ok_0;
            &&& samples.len() == data.len() as int / size * per
            &&& samples[b * per + i] == block_samples(
                data.subrange(b * size, b * size + size),
                channels_of(format),
                block_frames(format),
            )[i]
        }),
{
    lemma_decoded_block(data, format, (data.len() as int / block_size(format)) as nat, b, i);
}

/// A packed format holds the codec in two bits, the channel count in three, the sample
/// rate in eighteen and the block alignment in eight. A block has seven bytes for each
/// channel's header, and half a byte for each sample behind the first two.
pub proof fn law_format_fields(codec: int, channels: int, rate: int, align: int, top: int, bits: u32)
    requires
        0 <= codec < 4,
        0 <= channels < 8,
        0 <= rate < 0x4_0000,
        0 <= align < 0x100,
        0 <= top < 2,
        bits == codec + 4 * channels + 32 * rate + 0x80_0000 * align + 0x8000_0000 * top,
    ensures
        channels_of(bits) == channels,
        rate_of(bits) == rate,
        align_of(bits) == align,
        channels > 0 ==> block_size(bits) == (align + 22) * channels,
        channels > 0 ==> 2 * block_size(bits) == 14 * channels + (block_frames(bits) - 2) * channels,
        channels == 0 ==> block_frames(bits) == 0,
{
    let f = block_frames(bits);
    let s = (align + 22) * channels;
    if channels > 0 {
        assert(2 * s == 14 * channels + (f - 2) * channels) by (nonlinear_arith)
            requires
                s == (align + 22) * channels,
                f == (align + 15) * 2 + 2,
        ;
    }
}

/// A nibble takes as many whole steps towards the sample as there are, eight back or
/// seven forth at most, and never past it.
pub proof fn law_nibble_approaches_the_sample(st: ChannelState, actual: int)
    requires
        st.delta >= 16,
    ensures
        0 <= quantized(st, actual) < 16,
        steps_of(quantized(st, actual)) == quantized_value(st, actual),
        ({
            let e = actual - predicted(st);
            let q = quantized_value(st, actual);
            let d = st.delta as int;
            &&& -8 <= q <= 7
            &&& e >= 0 ==> 0 <= q && q * d <= e && (q == 7 || e < q * d + d)
            &&& e < 0 ==> q <= 0 && e <= q * d && (q == -8 || q * d - d < e)
        }),
{
    let e = actual - predicted(st);
    let d = st.delta as int;
    let q = truncated_quotient(e, d);
    if e >= 0 {
        vstd::arithmetic::div_mod::lemma_fundamental_div_mod(e, d);
        assert(q >= 0 && q * d <= e && e < q * d + d) by (nonlinear_arith)
            requires
                e == d * q + e % d,
                0 <= e % d < d,
                e >= 0,
        ;
        if q > 7 {
            assert(7 * d <= e) by (nonlinear_arith)
                requires
                    q > 7,
                    q * d <= e,
                    d > 0,
            ;
        }
    } else {
        let m = (-e) / d;
        vstd::arithmetic::div_mod::lemma_fundamental_div_mod(-e, d);
        assert(m >= 0 && m * d <= -e && -e < m * d + d) by (nonlinear_arith)
            requires
                -e == d * m + (-e) % d,
                0 <= (-e) % d < d,
                -e >= 0,
        ;
        assert(q * d == -(m * d)) by (nonlinear_arith)
            requires
                q == -m,
        ;
        if q < -8 {
            assert(e <= -8 * d) by (nonlinear_arith)
                requires
                    m > 8,
                    m * d <= -e,
                    d > 0,
            ;
        }
    }
}

/// The first step size is a quarter of what the prediction of the third sample misses
/// by, rounded down, and 16 at least.
pub proof fn law_first_step_size(samples: Seq<i16>, predictor: u8)
    requires
        samples.len() > 2,
        predictor < 7,
    ensures
        ({
            let (a, b) = standard_pairs()[predictor as int];
            let p = (a * samples[1] + b * samples[0]) / 256;
            let d = initial_delta(samples, predictor);
            let miss = if samples[2] >= p {
                samples[2] - p
            } else {
                p - samples[2]
            };
            &&& d >= 16
            &&& miss >= 64 ==> 4 * d <= miss < 4 * d + 4
            &&& miss < 64 ==> d == 16
        }),
{
    let st = ChannelState { predictor, delta: 0, sample1: samples[1], sample2: samples[0] };
    law_prediction_weighs_the_last_two(st);
}

/// What each sample misses by counts with its square.
pub proof fn law_errors_are_squared(samples: Seq<i16>, predictor: u8, n: nat)
    ensures
        squared_error(samples, predictor, 0) == 0,
        ({
            let miss = samples[n as int + 2] - reconstruction(samples, predictor, n);
            squared_error(samples, predictor, n + 1) == squared_error(samples, predictor, n) + miss
                * miss
        }),
{
}

/// Of the seven predictors the one with the least error is chosen, the first of those
/// that are equally good.
pub proof fn law_best_predictor_is_chosen(samples: Seq<i16>, predictor: u8)
    requires
        samples.len() >= 2,
        predictor < 7,
    ensures
        ({
            let n = (samples.len() - 2) as nat;
            let chosen = chosen_predictor(samples);
            &&& chosen < 7
            &&& squared_error(samples, chosen, n) <= squared_error(samples, predictor, n)
            &&& predictor < chosen ==> squared_error(samples, chosen, n) < squared_error(
                samples,
                predictor,
                n,
            )
        }),
{
    lemma_best_of(samples, 7, predictor);
}

proof fn lemma_best_of(samples: Seq<i16>, k: nat, predictor: u8)
    requires
        1 <= k <= 7,
        predictor < k,
    ensures
        ({
            let n = (samples.len() - 2) as nat;
            let best = best_predictor(samples, k);
            &&& best < k
            &&& squared_error(samples, best, n) <= squared_error(samples, predictor, n)
            &&& predictor < best ==> squared_error(samples, best, n) < squared_error(
                samples,
                predictor,
                n,
            )
        }),
    decreases k,
{
    if k > 1 {
        if predictor < k - 1 {
            lemma_best_of(samples, (k - 1) as nat, predictor);
        } else {
            lemma_best_of(samples, (k - 1) as nat, 0);
        }
        let best = best_predictor(samples, (k - 1) as nat);
        if best < k - 1 {
            lemma_best_of(samples, (k - 1) as nat, best);
        }
    }
}

} // verus!
