//! MS-ADPCM per-block encoder.
//!
//! Encodes interleaved 16-bit PCM into MS-ADPCM blocks compatible with
//! XWB v43 / DDR World. Uses the same 7 standard predictor coefficient
//! pairs and adaptation table as the decoder.
//!
//! Predictor selection: for each channel, simulate encoding the full
//! block with each of the 7 predictors and pick the one with the
//! lowest total squared error.

use crate::util::io::{put_i16, sbytes16};
use crate::xwb::adpcm::{
    decoded_sample, lemma_predicted_bound, lemma_step_keeps_ok, predict, predicted, state_ok, step,
    stepped, AdpcmError, ChannelState,
};
use crate::xwb::adpcm::decode::lemma_interleave;
use crate::xwb::container::{block_frames, channels_of, WaveFormat};
use vstd::prelude::*;

verus! {

/// `a / b` rounded toward zero, for a positive `b`.
pub open spec fn truncated_quotient(a: int, b: int) -> int {
    if a >= 0 {
        a / b
    } else {
        -((-a) / b)
    }
}

/// The signed nibble nearest to the prediction error in steps of the step
/// size, rounded toward zero.
pub open spec fn quantized_value(st: ChannelState, actual: int) -> int {
    let q = truncated_quotient(actual - predicted(st), st.delta as int);
    if q < -8 {
        -8
    } else if q > 7 {
        7
    } else {
        q
    }
}

/// The nibble that a sample is encoded as.
pub open spec fn quantized(st: ChannelState, actual: int) -> int {
    let q = quantized_value(st, actual);
    if q < 0 {
        q + 16
    } else {
        q
    }
}

/// The step size that a block starts with: a quarter of the first prediction
/// error, at least 16.
pub open spec fn initial_delta(samples: Seq<i16>, predictor: u8) -> int {
    if samples.len() <= 2 {
        16
    } else {
        let p = predicted(
            ChannelState { predictor, delta: 0, sample1: samples[1], sample2: samples[0] },
        );
        let e = if samples[2] - p < 0 {
            p - samples[2]
        } else {
            samples[2] - p
        };
        if e / 4 < 16 {
            16
        } else {
            e / 4
        }
    }
}

/// A channel's state at the start of a block.
pub open spec fn start_state(samples: Seq<i16>, predictor: u8) -> ChannelState {
    ChannelState {
        predictor,
        delta: initial_delta(samples, predictor) as i32,
        sample1: samples[1],
        sample2: samples[0],
    }
}

/// A channel's state after `f` nibbles: the decoder's state after the same
/// nibbles.
pub open spec fn encoder_state(samples: Seq<i16>, predictor: u8, f: nat) -> ChannelState
    decreases f,
{
    if f == 0 {
        start_state(samples, predictor)
    } else {
        let before = encoder_state(samples, predictor, (f - 1) as nat);
        stepped(before, quantized(before, samples[f as int + 1] as int))
    }
}

/// Nibble `f` of a channel: it encodes sample `f + 2`.
pub open spec fn encoded_nibble(samples: Seq<i16>, predictor: u8, f: nat) -> int {
    quantized(encoder_state(samples, predictor, f), samples[f as int + 2] as int)
}

/// The sample that nibble `f` decodes to.
pub open spec fn reconstruction(samples: Seq<i16>, predictor: u8, f: nat) -> i16 {
    decoded_sample(
        encoder_state(samples, predictor, f),
        encoded_nibble(samples, predictor, f),
    )
}

/// The total squared error of the first `n` nibbles.
pub open spec fn squared_error(samples: Seq<i16>, predictor: u8, n: nat) -> int
    decreases n,
{
    if n == 0 {
        0
    } else {
        let e = samples[n as int + 1] - reconstruction(samples, predictor, (n - 1) as nat);
        squared_error(samples, predictor, (n - 1) as nat) + e * e
    }
}

/// The first of the first `n` predictors with the lowest error.
pub open spec fn best_predictor(samples: Seq<i16>, n: nat) -> u8
    decreases n,
{
    if n <= 1 {
        0
    } else {
        let best = best_predictor(samples, (n - 1) as nat);
        let count = (samples.len() - 2) as nat;
        if squared_error(samples, (n - 1) as u8, count) < squared_error(samples, best, count) {
            (n - 1) as u8
        } else {
            best
        }
    }
}

/// The predictor that a channel of a block is encoded with.
pub open spec fn chosen_predictor(samples: Seq<i16>) -> u8 {
    best_predictor(samples, 7)
}

/// Byte `i` of a block header.
pub open spec fn header_byte(chans: Seq<Seq<i16>>, i: int) -> u8 {
    let ch = chans.len() as int;
    if i < ch {
        chosen_predictor(chans[i])
    } else if i < 3 * ch {
        let c = (i - ch) / 2;
        sbytes16(initial_delta(chans[c], chosen_predictor(chans[c])) as i16)[(i - ch) % 2]
    } else if i < 5 * ch {
        sbytes16(chans[(i - 3 * ch) / 2][1])[(i - 3 * ch) % 2]
    } else {
        sbytes16(chans[(i - 5 * ch) / 2][0])[(i - 5 * ch) % 2]
    }
}

/// Nibble `k` of a block: one for each channel in each frame.
pub open spec fn block_nibble(chans: Seq<Seq<i16>>, k: int) -> int {
    let c = k % chans.len() as int;
    encoded_nibble(chans[c], chosen_predictor(chans[c]), (k / chans.len() as int) as nat)
}

/// The bytes of a block that holds `frames` frames of each channel: the
/// header, then two nibbles to a byte, the first in the high half.
pub open spec fn encoded_block(chans: Seq<Seq<i16>>, frames: int) -> Seq<u8> {
    let ch = chans.len() as int;
    Seq::new(
        (7 * ch + (frames - 2) * ch / 2) as nat,
        |i: int|
            if i < 7 * ch {
                header_byte(chans, i)
            } else {
                (16 * block_nibble(chans, 2 * (i - 7 * ch)) + block_nibble(
                    chans,
                    2 * (i - 7 * ch) + 1,
                )) as u8
            },
    )
}

/// Channel `c`'s sample in frame `f` of interleaved PCM: 0 behind the last
/// whole frame.
pub open spec fn pcm_at(samples: Seq<i16>, ch: int, c: int, f: int) -> i16 {
    if f < samples.len() as int / ch {
        samples[f * ch + c]
    } else {
        0
    }
}

/// The frames of block `b`, by channel.
pub open spec fn block_pcm(samples: Seq<i16>, ch: int, frames: int, b: int) -> Seq<Seq<i16>> {
    Seq::new(
        ch as nat,
        |c: int| Seq::new(frames as nat, |i: int| pcm_at(samples, ch, c, b * frames + i)),
    )
}

/// The first `n` blocks of interleaved PCM.
pub open spec fn encoded_blocks(samples: Seq<i16>, ch: int, frames: int, n: nat) -> Seq<u8>
    decreases n,
{
    if n == 0 {
        Seq::empty()
    } else {
        encoded_blocks(samples, ch, frames, (n - 1) as nat) + encoded_block(
            block_pcm(samples, ch, frames, n - 1),
            frames,
        )
    }
}

/// The number of blocks that hold all whole frames.
pub open spec fn block_count(samples: Seq<i16>, format: u32) -> int {
    let frames = block_frames(format);
    (samples.len() as int / channels_of(format) + frames - 1) / frames
}

/// What interleaved PCM is encoded as.
pub open spec fn encoded(samples: Seq<i16>, format: u32) -> Seq<u8> {
    if channels_of(format) == 0 {
        Seq::empty()
    } else {
        encoded_blocks(
            samples,
            channels_of(format),
            block_frames(format),
            block_count(samples, format) as nat,
        )
    }
}

pub proof fn lemma_quantized_range(st: ChannelState, actual: int)
    ensures
        0 <= quantized(st, actual) < 16,
        crate::xwb::adpcm::nibble_value(quantized(st, actual)) == quantized_value(st, actual),
{
}

pub proof fn lemma_initial_delta(samples: Seq<i16>, predictor: u8)
    requires
        predictor < 7,
    ensures
        16 <= initial_delta(samples, predictor) <= 32767,
{
    if samples.len() > 2 {
        lemma_predicted_bound(
            ChannelState { predictor, delta: 0, sample1: samples[1], sample2: samples[0] },
        );
    }
}

pub proof fn lemma_encoder_ok(samples: Seq<i16>, predictor: u8, f: nat)
    requires
        predictor < 7,
    ensures
        state_ok(encoder_state(samples, predictor, f)),
        encoder_state(samples, predictor, f).delta >= 16,
        encoder_state(samples, predictor, f).predictor == predictor,
    decreases f,
{
    if f == 0 {
        lemma_initial_delta(samples, predictor);
    } else {
        lemma_encoder_ok(samples, predictor, (f - 1) as nat);
        let before = encoder_state(samples, predictor, (f - 1) as nat);
        lemma_quantized_range(before, samples[f as int + 1] as int);
        lemma_step_keeps_ok(before, quantized(before, samples[f as int + 1] as int));
    }
}

pub proof fn lemma_best_predictor(samples: Seq<i16>, n: nat)
    requires
        n <= 7,
    ensures
        best_predictor(samples, n) < 7,
    decreases n,
{
    if n > 1 {
        lemma_best_predictor(samples, (n - 1) as nat);
    }
}

/// Quantize a sample.
fn quantize(st: &ChannelState, actual: i16) -> (nibble: u8)
    requires
        state_ok(*st),
        st.delta >= 16,
    ensures
        nibble == quantized(*st, actual as int),
        nibble < 16,
{
    let error: i64 = actual as i64 - predict(st);
    let delta: i64 = st.delta as i64;
    let q: i64 = if error >= 0 {
        error / delta
    } else {
        -((-error) / delta)
    };
    let value: i64 = if q < -8 {
        -8
    } else if q > 7 {
        7
    } else {
        q
    };
    if value < 0 {
        (value + 16) as u8
    } else {
        value as u8
    }
}

/// The state that a block starts with.
fn initial_state(samples: &Vec<i16>, predictor: u8) -> (st: ChannelState)
    requires
        predictor < 7,
        samples@.len() >= 2,
    ensures
        st == start_state(samples@, predictor),
{
    proof {
        lemma_initial_delta(samples@, predictor);
    }
    let s1: i16 = samples[1];
    let s2: i16 = samples[0];
    let mut delta: i64 = 16;
    if samples.len() > 2 {
        let p: i64 = predict(&ChannelState { predictor, delta: 0, sample1: s1, sample2: s2 });
        let error: i64 = samples[2] as i64 - p;
        let size: i64 = if error < 0 {
            -error
        } else {
            error
        };
        if size / 4 > 16 {
            delta = size / 4;
        }
    }
    ChannelState { predictor, delta: delta as i32, sample1: s1, sample2: s2 }
}

/// Simulate encoding a block with the given predictor: the total squared
/// error.
fn simulate(samples: &Vec<i16>, predictor: u8) -> (total: i64)
    requires
        predictor < 7,
        2 <= samples@.len() <= 0x1000,
    ensures
        total == squared_error(samples@, predictor, (samples@.len() - 2) as nat),
        0 <= total <= 0x1000 * 0x1_0000_0000,
{
    let mut st: ChannelState = initial_state(samples, predictor);
    let mut total: i64 = 0;
    let mut i: usize = 2;
    while i < samples.len()
        invariant
            2 <= i <= samples@.len() <= 0x1000,
            predictor < 7,
            st == encoder_state(samples@, predictor, (i - 2) as nat),
            total == squared_error(samples@, predictor, (i - 2) as nat),
            0 <= total <= (i - 2) * 0x1_0000_0000,
        decreases samples@.len() - i,
    {
        proof {
            lemma_encoder_ok(samples@, predictor, (i - 2) as nat);
        }
        let actual: i16 = samples[i];
        let nibble: u8 = quantize(&st, actual);
        let sample: i16 = step(&mut st, nibble);
        let error: i64 = actual as i64 - sample as i64;
        proof {
            assert(0 <= error * error <= 0x1_0000_0000) by (nonlinear_arith)
                requires
                    -65535 <= error <= 65535,
            ;
            assert(((i - 1) as nat - 1) as nat == (i - 2) as nat);
        }
        total = total + error * error;
        i = i + 1;
    }
    total
}

/// Try all 7 predictors on a block's samples, return the best one.
fn select_predictor(samples: &Vec<i16>) -> (best: u8)
    requires
        2 <= samples@.len() <= 0x1000,
    ensures
        best == chosen_predictor(samples@),
        best < 7,
{
    let mut best: u8 = 0;
    let mut best_err: i64 = simulate(samples, 0);
    let mut idx: u8 = 1;
    while idx < 7
        invariant
            1 <= idx <= 7,
            best < 7,
            2 <= samples@.len() <= 0x1000,
            best == best_predictor(samples@, idx as nat),
            best_err == squared_error(samples@, best, (samples@.len() - 2) as nat),
        decreases 7 - idx,
    {
        let err: i64 = simulate(samples, idx);
        if err < best_err {
            best_err = err;
            best = idx;
        }
        idx = idx + 1;
    }
    best
}

/// The channels of a block as sequences.
pub open spec fn channel_views(chans: Seq<Vec<i16>>) -> Seq<Seq<i16>> {
    Seq::new(chans.len(), |c: int| chans[c]@)
}

/// The channels' states at the start of a block.
fn start_states(chans: &Vec<Vec<i16>>) -> (states: Vec<ChannelState>)
    requires
        forall|c: int| 0 <= c < chans@.len() ==> 2 <= (#[trigger] chans@[c])@.len() <= 0x1000,
    ensures
        states@ == Seq::new(
            chans@.len(),
            |c: int| start_state(chans@[c]@, chosen_predictor(chans@[c]@)),
        ),
        forall|c: int| 0 <= c < chans@.len() ==> (#[trigger] states@[c]).predictor < 7,
{
    let mut states: Vec<ChannelState> = Vec::new();
    let mut c: usize = 0;
    while c < chans.len()
        invariant
            c <= chans@.len(),
            forall|k: int| 0 <= k < chans@.len() ==> 2 <= (#[trigger] chans@[k])@.len() <= 0x1000,
            states@ =~= Seq::new(
                c as nat,
                |k: int| start_state(chans@[k]@, chosen_predictor(chans@[k]@)),
            ),
            forall|k: int| 0 <= k < c ==> (#[trigger] states@[k]).predictor < 7,
        decreases chans@.len() - c,
    {
        let predictor: u8 = select_predictor(&chans[c]);
        states.push(initial_state(&chans[c], predictor));
        c = c + 1;
    }
    states
}

/// Append a block header.
fn put_header(out: &mut Vec<u8>, chans: Ghost<Seq<Seq<i16>>>, states: &Vec<ChannelState>)
    requires
        0 < states@.len() < 8,
        chans@.len() == states@.len(),
        forall|c: int|
            0 <= c < chans@.len() ==> #[trigger] states@[c] == start_state(
                chans@[c],
                chosen_predictor(chans@[c]),
            ),
        forall|c: int| 0 <= c < chans@.len() ==> (#[trigger] states@[c]).predictor < 7,
    ensures
        final(out)@ == old(out)@ + Seq::new(
            7 * states@.len(),
            |i: int| header_byte(chans@, i),
        ),
{
    let ch: usize = states.len();
    let ghost all = Seq::new((7 * ch) as nat, |i: int| header_byte(chans@, i));
    let ghost start = out@;
    let mut c: usize = 0;
    while c < ch
        invariant
            c <= ch,
            ch == states@.len(),
            ch == chans@.len(),
            ch < 8,
            all == Seq::new((7 * ch) as nat, |i: int| header_byte(chans@, i)),
            forall|k: int|
                0 <= k < ch ==> #[trigger] states@[k] == start_state(
                    chans@[k],
                    chosen_predictor(chans@[k]),
                ),
            out@ =~= start + all.subrange(0, c as int),
        decreases ch - c,
    {
        out.push(states[c].predictor);
        c = c + 1;
    }
    let mut c: usize = 0;
    while c < ch
        invariant
            c <= ch,
            ch == states@.len(),
            ch == chans@.len(),
            ch < 8,
            all == Seq::new((7 * ch) as nat, |i: int| header_byte(chans@, i)),
            forall|k: int|
                0 <= k < ch ==> #[trigger] states@[k] == start_state(
                    chans@[k],
                    chosen_predictor(chans@[k]),
                ),
            forall|k: int| 0 <= k < ch ==> (#[trigger] states@[k]).predictor < 7,
            out@ =~= start + all.subrange(0, ch + 2 * c),
        decreases ch - c,
    {
        proof {
            lemma_initial_delta(chans@[c as int], states@[c as int].predictor);
        }
        put_i16(out, states[c].delta as i16);
        c = c + 1;
    }
    let mut c: usize = 0;
    while c < ch
        invariant
            c <= ch,
            ch == states@.len(),
            ch == chans@.len(),
            ch < 8,
            all == Seq::new((7 * ch) as nat, |i: int| header_byte(chans@, i)),
            forall|k: int|
                0 <= k < ch ==> #[trigger] states@[k] == start_state(
                    chans@[k],
                    chosen_predictor(chans@[k]),
                ),
            out@ =~= start + all.subrange(0, 3 * ch + 2 * c),
        decreases ch - c,
    {
        put_i16(out, states[c].sample1);
        c = c + 1;
    }
    let mut c: usize = 0;
    while c < ch
        invariant
            c <= ch,
            ch == states@.len(),
            ch == chans@.len(),
            ch < 8,
            all == Seq::new((7 * ch) as nat, |i: int| header_byte(chans@, i)),
            forall|k: int|
                0 <= k < ch ==> #[trigger] states@[k] == start_state(
                    chans@[k],
                    chosen_predictor(chans@[k]),
                ),
            out@ =~= start + all.subrange(0, 5 * ch + 2 * c),
        decreases ch - c,
    {
        put_i16(out, states[c].sample2);
        c = c + 1;
    }
    assert(all.subrange(0, 7 * ch) =~= all);
}

/// Encode one block across all channels.
fn encode_block(chans: &Vec<Vec<i16>>, spb: usize, out: &mut Vec<u8>)
    requires
        0 < chans@.len() < 8,
        2 <= spb <= 0x1000,
        spb % 2 == 0,
        forall|c: int| 0 <= c < chans@.len() ==> (#[trigger] chans@[c])@.len() == spb,
    ensures
        final(out)@ == old(out)@ + encoded_block(channel_views(chans@), spb as int),
{
    let ch: usize = chans.len();
    let ghost views = channel_views(chans@);
    let ghost all = encoded_block(views, spb as int);
    let ghost start = out@;
    let mut states: Vec<ChannelState> = start_states(chans);
    put_header(out, Ghost(views), &states);
    let frames: usize = spb - 2;
    proof {
        let half = frames as int / 2;
        assert(frames * ch == 2 * (half * ch)) by (nonlinear_arith)
            requires
                frames == 2 * half,
        ;
        assert(half * ch <= 0x1000 * 8) by (nonlinear_arith)
            requires
                half <= 0x1000,
                ch < 8,
        ;
        assert(half * ch >= 0) by (nonlinear_arith)
            requires
                half >= 0,
                ch >= 0,
        ;
        assert(all.len() == 7 * ch + half * ch);
        assert(all.subrange(0, 7 * ch) =~= Seq::new(
            (7 * ch) as nat,
            |i: int| header_byte(views, i),
        ));
    }
    let mut high: u8 = 0;
    let mut k: usize = 0;
    let mut f: usize = 0;
    while f < frames
        invariant
            f <= frames,
            frames == spb - 2,
            spb <= 0x1000,
            spb % 2 == 0,
            0 < ch < 8,
            ch == chans@.len(),
            views == channel_views(chans@),
            all == encoded_block(views, spb as int),
            2 * (all.len() - 7 * ch) == frames * ch,
            forall|c: int| 0 <= c < ch ==> (#[trigger] chans@[c])@.len() == spb,
            k == f * ch,
            k <= 0x1000 * 8,
            states@.len() == ch,
            forall|c: int|
                0 <= c < ch ==> #[trigger] states@[c] == encoder_state(
                    views[c],
                    chosen_predictor(views[c]),
                    f as nat,
                ),
            k % 2 == 1 ==> high == block_nibble(views, k - 1) && high < 16,
            out@ =~= start + all.subrange(0, 7 * ch + k as int / 2),
        decreases frames - f,
    {
        let mut c: usize = 0;
        proof {
            assert(f * ch + ch <= frames * ch) by (nonlinear_arith)
                requires
                    f + 1 <= frames,
            ;
            assert(frames * ch <= 0x1000 * 8) by (nonlinear_arith)
                requires
                    frames <= 0x1000,
                    ch < 8,
            ;
        }
        while c < ch
            invariant
                c <= ch,
                f < frames,
                frames == spb - 2,
                spb <= 0x1000,
                0 < ch < 8,
                ch == chans@.len(),
                views == channel_views(chans@),
                all == encoded_block(views, spb as int),
                2 * (all.len() - 7 * ch) == frames * ch,
                f * ch + ch <= frames * ch,
                frames * ch <= 0x1000 * 8,
                forall|j: int| 0 <= j < ch ==> (#[trigger] chans@[j])@.len() == spb,
                k == f * ch + c,
                states@.len() == ch,
                forall|j: int|
                    0 <= j < c ==> #[trigger] states@[j] == encoder_state(
                        views[j],
                        chosen_predictor(views[j]),
                        (f + 1) as nat,
                    ),
                forall|j: int|
                    c <= j < ch ==> #[trigger] states@[j] == encoder_state(
                        views[j],
                        chosen_predictor(views[j]),
                        f as nat,
                    ),
                k % 2 == 1 ==> high == block_nibble(views, k - 1) && high < 16,
                out@ =~= start + all.subrange(0, 7 * ch + k as int / 2),
            decreases ch - c,
        {
            let mut st: ChannelState = states[c];
            let actual: i16 = chans[c][2 + f];
            proof {
                let p = chosen_predictor(views[c as int]);
                lemma_best_predictor(views[c as int], 7);
                lemma_encoder_ok(views[c as int], p, f as nat);
                lemma_interleave(ch as int, c as int, f as int);
                assert(views[c as int] == chans@[c as int]@);
                assert(((f + 1) as nat - 1) as nat == f as nat);
            }
            let nibble: u8 = quantize(&st, actual);
            assert(nibble == block_nibble(views, k as int));
            let _ = step(&mut st, nibble);
            states.set(c, st);
            // Pack nibbles: high nibble first.
            if k % 2 == 0 {
                high = nibble;
            } else {
                proof {
                    let i = 7 * ch + k as int / 2;
                    assert(2 * (i - 7 * ch) == k - 1);
                    assert(all[i] == (16 * high + nibble) as u8);
                }
                out.push(16 * high + nibble);
            }
            c = c + 1;
            k = k + 1;
        }
        f = f + 1;
        assert(f * ch == (f - 1) * ch + ch) by (nonlinear_arith);
    }
    assert(all.subrange(0, all.len() as int) =~= all);
}

/// De-interleave the frames of one block, padding with silence.
fn gather_block(samples: &[i16], ch: usize, spb: usize, block: usize) -> (chans: Vec<Vec<i16>>)
    requires
        0 < ch < 8,
        2 <= spb <= 0x1000,
    ensures
        channel_views(chans@) == block_pcm(samples@, ch as int, spb as int, block as int),
        chans@.len() == ch,
        forall|c: int| 0 <= c < ch ==> (#[trigger] chans@[c])@.len() == spb,
{
    let total: usize = samples.len() / ch;
    let len: usize = samples.len();
    let ghost want = block_pcm(samples@, ch as int, spb as int, block as int);
    proof {
        vstd::arithmetic::div_mod::lemma_fundamental_div_mod(len as int, ch as int);
        assert(block * spb <= u64::MAX * 0x1000) by (nonlinear_arith)
            requires
                block <= u64::MAX,
                spb <= 0x1000,
        ;
    }
    let first: u128 = block as u128 * spb as u128;
    let mut chans: Vec<Vec<i16>> = Vec::new();
    let mut c: usize = 0;
    while c < ch
        invariant
            c <= ch,
            0 < ch < 8,
            spb <= 0x1000,
            first == block * spb,
            first <= u64::MAX * 0x1000,
            len == samples@.len(),
            total == len as int / ch as int,
            len == ch * total + len as int % ch as int,
            0 <= len as int % ch as int,
            want == block_pcm(samples@, ch as int, spb as int, block as int),
            chans@.len() == c,
            forall|k: int| 0 <= k < c ==> (#[trigger] chans@[k])@ == want[k],
        decreases ch - c,
    {
        let mut chan: Vec<i16> = Vec::new();
        let mut i: usize = 0;
        while i < spb
            invariant
                i <= spb,
                c < ch,
                0 < ch < 8,
                spb <= 0x1000,
                first == block * spb,
                first <= u64::MAX * 0x1000,
                len == samples@.len(),
                total == len as int / ch as int,
                len == ch * total + len as int % ch as int,
                0 <= len as int % ch as int,
                want == block_pcm(samples@, ch as int, spb as int, block as int),
                chan@ =~= want[c as int].subrange(0, i as int),
            decreases spb - i,
        {
            let frame: u128 = first + i as u128;
            assert(want[c as int][i as int] == pcm_at(
                samples@,
                ch as int,
                c as int,
                block * spb + i,
            ));
            if frame < total as u128 {
                proof {
                    assert(frame * ch + c < ch * total) by (nonlinear_arith)
                        requires
                            frame + 1 <= total,
                            c < ch,
                    ;
                    assert(frame * ch <= frame * ch + c);
                }
                let at: usize = frame as usize * ch + c;
                chan.push(samples[at]);
            } else {
                chan.push(0);
            }
            i = i + 1;
        }
        assert(chan@ =~= want[c as int]);
        chans.push(chan);
        c = c + 1;
    }
    assert(channel_views(chans@) =~= want);
    chans
}

/// Encode interleaved i16 PCM into MS-ADPCM blocks.
///
/// `samples` must be interleaved (`[L0, R0, L1, R1, ...]` for stereo).
/// Returns raw ADPCM bytes suitable for an XWB wave-data segment. The last
/// block is padded with silence; samples behind the last whole frame are
/// dropped.
pub fn encode(samples: &[i16], format: &WaveFormat) -> (r: Result<Vec<u8>, AdpcmError>)
    ensures
        r is Ok,
        r->Ok_0@ == encoded(samples@, format@),
{
    let ch: usize = format.channels() as usize;
    let spb: usize = format.samples_per_block() as usize;
    if ch == 0 {
        return Ok(Vec::new());
    }
    let total: usize = samples.len() / ch;
    let whole: usize = total / spb;
    proof {
        let t = total as int;
        let s = spb as int;
        vstd::arithmetic::div_mod::lemma_fundamental_div_mod(t, s);
        let q = t / s;
        let r = t % s;
        if r == 0 {
            assert(t + s - 1 == q * s + (s - 1)) by (nonlinear_arith)
                requires
                    t == s * q,
            ;
            vstd::arithmetic::div_mod::lemma_fundamental_div_mod_converse(t + s - 1, s, q, s - 1);
        } else {
            assert(t + s - 1 == (q + 1) * s + (r - 1)) by (nonlinear_arith)
                requires
                    t == s * q + r,
            ;
            vstd::arithmetic::div_mod::lemma_fundamental_div_mod_converse(
                t + s - 1,
                s,
                q + 1,
                r - 1,
            );
        }
        assert(q <= t / 2) by (nonlinear_arith)
            requires
                t == s * q + r,
                s >= 2,
                r >= 0,
                q >= 0,
        ;
    }
    let num_blocks: usize = if total % spb == 0 {
        whole
    } else {
        whole + 1
    };
    let mut out: Vec<u8> = Vec::new();
    let mut i: usize = 0;
    while i < num_blocks
        invariant
            i <= num_blocks,
            num_blocks == block_count(samples@, format@),
            0 < ch < 8,
            ch == channels_of(format@),
            spb == block_frames(format@),
            2 <= spb <= 0x1000,
            spb % 2 == 0,
            out@ == encoded_blocks(samples@, ch as int, spb as int, i as nat),
        decreases num_blocks - i,
    {
        let chans = gather_block(samples, ch, spb, i);
        encode_block(&chans, spb, &mut out);
        i = i + 1;
    }
    Ok(out)
}

} // verus!
