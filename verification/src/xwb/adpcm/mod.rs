//! MS-ADPCM codec for XWB wave banks.
//!
//! Microsoft ADPCM packs 16-bit PCM into blocks of 4-bit adaptive deltas,
//! each channel predicted from its last two samples by one of 7 standard
//! coefficient pairs. This module holds the step that the encoder and the
//! decoder share.

pub mod decode;
pub mod encode;
pub mod laws;
pub mod round_trip;

use vstd::prelude::*;

verus! {

#[derive(Debug, Clone, Copy, PartialEq, Eq, Structural)]
pub enum AdpcmError {
    BlockTooShort { expected: usize, actual: usize },
    BadPredictor { index: u8 },
}

/// The first of the two coefficients of a standard predictor.
pub open spec fn coeff1(index: int) -> int {
    if index == 0 {
        256
    } else if index == 1 {
        512
    } else if index == 2 {
        0
    } else if index == 3 {
        192
    } else if index == 4 {
        240
    } else if index == 5 {
        460
    } else {
        392
    }
}

/// The second of the two coefficients of a standard predictor.
pub open spec fn coeff2(index: int) -> int {
    if index == 1 {
        -256
    } else if index == 3 {
        64
    } else if index == 5 {
        -208
    } else if index == 6 {
        -232
    } else {
        0
    }
}

/// How a nibble adapts the step size, in 256ths.
pub open spec fn adaptation(nibble: int) -> int {
    if nibble == 4 || nibble == 12 {
        307
    } else if nibble == 5 || nibble == 11 {
        409
    } else if nibble == 6 || nibble == 10 {
        512
    } else if nibble == 7 || nibble == 9 {
        614
    } else if nibble == 8 {
        768
    } else {
        230
    }
}

/// The coefficient pair of a standard predictor.
pub fn coefficients(index: u8) -> (c: (i32, i32))
    requires
        index < 7,
    ensures
        c.0 == coeff1(index as int),
        c.1 == coeff2(index as int),
{
    match index {
        0 => (256, 0),
        1 => (512, -256),
        2 => (0, 0),
        3 => (192, 64),
        4 => (240, 0),
        5 => (460, -208),
        _ => (392, -232),
    }
}

fn adapt(nibble: u8) -> (a: i64)
    requires
        nibble < 16,
    ensures
        a == adaptation(nibble as int),
{
    match nibble {
        4 | 12 => 307,
        5 | 11 => 409,
        6 | 10 => 512,
        7 | 9 => 614,
        8 => 768,
        _ => 230,
    }
}

/// One channel's codec state.
#[derive(Debug, Clone, Copy, PartialEq, Eq, Structural)]
pub struct ChannelState {
    /// Predictor index.
    pub predictor: u8,
    /// Step size.
    pub delta: i32,
    /// Newest sample.
    pub sample1: i16,
    /// Second-newest sample.
    pub sample2: i16,
}

/// `n` wrapped around to a signed 32-bit value.
pub open spec fn wrapped32(n: int) -> int {
    let m = n % 0x1_0000_0000;
    if m < 0x8000_0000 {
        m
    } else {
        m - 0x1_0000_0000
    }
}

/// `n`, or the nearest 16-bit value to it.
pub open spec fn clamped16(n: int) -> i16 {
    if n < -32768 {
        -32768i16
    } else if n > 32767 {
        32767i16
    } else {
        n as i16
    }
}

/// The signed value of a nibble.
pub open spec fn nibble_value(nibble: int) -> int {
    if nibble >= 8 {
        nibble - 16
    } else {
        nibble
    }
}

/// The sample that the last two predict.
pub open spec fn predicted(st: ChannelState) -> int {
    (st.sample1 * coeff1(st.predictor as int) + st.sample2 * coeff2(st.predictor as int)) / 256
}

/// The sample that a nibble stands for.
pub open spec fn decoded_sample(st: ChannelState, nibble: int) -> i16 {
    clamped16(predicted(st) + nibble_value(nibble) * st.delta)
}

/// The step size after a nibble: at least 16. The product is kept to 32 bits.
pub open spec fn adapted_delta(delta: int, nibble: int) -> int {
    let d = wrapped32(delta * adaptation(nibble)) / 256;
    if d < 16 {
        16
    } else {
        d
    }
}

/// The state after a nibble.
pub open spec fn stepped(st: ChannelState, nibble: int) -> ChannelState {
    ChannelState {
        predictor: st.predictor,
        delta: adapted_delta(st.delta as int, nibble) as i32,
        sample1: decoded_sample(st, nibble),
        sample2: st.sample1,
    }
}

/// States that occur: the predictor is a standard one and the step size is
/// small enough for the product with a nibble.
pub open spec fn state_ok(st: ChannelState) -> bool {
    st.predictor < 7 && -0x80_0000 <= st.delta <= 0x80_0000
}

pub proof fn lemma_step_keeps_ok(st: ChannelState, nibble: int)
    requires
        state_ok(st),
        0 <= nibble < 16,
    ensures
        16 <= adapted_delta(st.delta as int, nibble) <= 0x80_0000,
        state_ok(stepped(st, nibble)),
{
}

/// The predicted sample stays near the 16-bit range.
pub proof fn lemma_predicted_bound(st: ChannelState)
    requires
        st.predictor < 7,
    ensures
        -98304 <= predicted(st) <= 98303,
{
    let s1 = st.sample1 as int;
    let s2 = st.sample2 as int;
    let c1 = coeff1(st.predictor as int);
    let c2 = coeff2(st.predictor as int);
    if st.predictor == 0 {
        assert(c1 == 256 && c2 == 0);
    } else if st.predictor == 1 {
        assert(c1 == 512 && c2 == -256);
    } else if st.predictor == 2 {
        assert(c1 == 0 && c2 == 0);
    } else if st.predictor == 3 {
        assert(c1 == 192 && c2 == 64);
    } else if st.predictor == 4 {
        assert(c1 == 240 && c2 == 0);
    } else if st.predictor == 5 {
        assert(c1 == 460 && c2 == -208);
    } else {
        assert(c1 == 392 && c2 == -232);
    }
    assert(-98304 * 256 <= s1 * c1 + s2 * c2 <= 98303 * 256);
}

/// Floor division by 256.
fn floor_256(x: i64) -> (q: i64)
    requires
        -0x100_0000_0000 <= x <= 0x100_0000_0000,
    ensures
        q == x as int / 256,
{
    ((x + 0x100_0000_0000) / 256) - 0x1_0000_0000
}

/// Wrap around to a signed 32-bit value.
fn wrap_32(n: i64) -> (w: i64)
    requires
        -0x1000_0000_0000 <= n <= 0x1000_0000_0000,
    ensures
        w == wrapped32(n as int),
{
    proof {
        vstd::arithmetic::div_mod::lemma_mod_multiples_vanish(0x1000, n as int, 0x1_0000_0000);
    }
    let m: i64 = (n + 0x1000_0000_0000) % 0x1_0000_0000;
    if m < 0x8000_0000 {
        m
    } else {
        m - 0x1_0000_0000
    }
}

/// The nearest 16-bit value.
pub fn clamp_16(n: i64) -> (c: i16)
    ensures
        c == clamped16(n as int),
{
    if n < -32768 {
        -32768
    } else if n > 32767 {
        32767
    } else {
        n as i16
    }
}

/// The sample that the last two predict.
pub fn predict(st: &ChannelState) -> (p: i64)
    requires
        st.predictor < 7,
    ensures
        p == predicted(*st),
        -98304 <= p <= 98303,
{
    proof {
        lemma_predicted_bound(*st);
    }
    let (c1, c2) = coefficients(st.predictor);
    proof {
        assert(-32768 * 512 <= st.sample1 * c1 <= 32768 * 512) by (nonlinear_arith)
            requires
                -32768 <= st.sample1 <= 32768,
                0 <= c1 <= 512,
        ;
        assert(-32768 * 256 <= st.sample2 * c2 <= 32768 * 256) by (nonlinear_arith)
            requires
                -32768 <= st.sample2 <= 32768,
                -256 <= c2 <= 256,
        ;
    }
    floor_256(st.sample1 as i64 * c1 as i64 + st.sample2 as i64 * c2 as i64)
}

/// Take in one nibble: yields the sample it stands for.
pub fn step(st: &mut ChannelState, nibble: u8) -> (sample: i16)
    requires
        state_ok(*old(st)),
        nibble < 16,
    ensures
        sample == decoded_sample(*old(st), nibble as int),
        *final(st) == stepped(*old(st), nibble as int),
        state_ok(*final(st)),
{
    let signed: i64 = if nibble >= 8 {
        nibble as i64 - 16
    } else {
        nibble as i64
    };
    let delta: i64 = st.delta as i64;
    let factor: i64 = adapt(nibble);
    proof {
        lemma_step_keeps_ok(*st, nibble as int);
        assert(-8 * 0x80_0000 <= signed * delta <= 8 * 0x80_0000) by (nonlinear_arith)
            requires
                -8 <= signed <= 8,
                -0x80_0000 <= delta <= 0x80_0000,
        ;
        assert(-0x80_0000 * 768 <= delta * factor <= 0x80_0000 * 768) by (nonlinear_arith)
            requires
                0 <= factor <= 768,
                -0x80_0000 <= delta <= 0x80_0000,
        ;
    }
    let sample: i16 = clamp_16(predict(&*st) + signed * delta);
    let scaled: i64 = floor_256(wrap_32(delta * factor));
    let next: i32 = if scaled < 16 {
        16
    } else {
        scaled as i32
    };
    *st = ChannelState { predictor: st.predictor, delta: next, sample1: sample, sample2: st.sample1 };
    sample
}

} // verus!
