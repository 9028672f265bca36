//! Integer rational rescaling of SSQ `tempo_data` values between TPS rates.
//!
//! `tempo_data` values in an SSQ tempo chunk are stored in "seconds-ticks"
//! (`seconds × TPS`). Modernizing a legacy SSQ to TPS=1000 means multiplying
//! these by `1000 / source_tps` (e.g., `20/3` for TPS=150, `40/3` for TPS=75).
//! This module does that multiplication exactly and reports values that would
//! require rounding.
//!
//! Note/tempo/event *measure-tick* positions are TPS-independent
//! (4096 per measure regardless of TPS) and need no rescaling.

use crate::model::rational::{
    div_round, gcd, gcd_of, lemma_gcd_divides, lemma_lowest, lowest, magnitude, round_half_away,
};
use vstd::arithmetic::div_mod::*;
use vstd::prelude::*;

verus! {

#[derive(Debug, Clone, Copy, PartialEq, Eq, Structural)]
pub enum TickScaleError {
    ZeroTps,
}

impl TickScaleError {
    /// Human-readable description of the error.
    pub fn message(&self) -> (text: String)
        ensures
            text@ == "source or destination TPS cannot be zero"@,
    {
        "source or destination TPS cannot be zero".to_owned()
    }
}

/// Lossless integer-rational scaler between two TPS values.
#[derive(Debug, Clone, Copy, PartialEq, Eq, Structural)]
pub struct TickScale {
    num: u32,
    den: u32,
}

impl View for TickScale {
    type V = (int, int);

    closed spec fn view(&self) -> (int, int) {
        (self.num as int, self.den as int)
    }
}

/// `n` as an `i64` value, where it is one.
pub open spec fn to_i64(n: int) -> Option<i64> {
    if i64::MIN <= n <= i64::MAX {
        Some(n as i64)
    } else {
        None
    }
}

/// `ticks * scale`, where that is an integer that fits.
pub open spec fn exact_scaling(scale: (int, int), ticks: int) -> Option<i64> {
    if (ticks * scale.0) % scale.1 == 0 {
        to_i64((ticks * scale.0) / scale.1)
    } else {
        None
    }
}

impl TickScale {
    #[verifier::type_invariant]
    pub open spec fn wf(self) -> bool {
        0 < self@.0 <= u32::MAX && 0 < self@.1 <= u32::MAX
    }

    /// Create a scaler that converts ticks from `src_tps` to `dst_tps`,
    /// reducing the ratio to lowest terms (e.g. 150→1000 becomes 20/3).
    pub fn new(src_tps: u32, dst_tps: u32) -> (r: Result<Self, TickScaleError>)
        ensures
            src_tps == 0 || dst_tps == 0 ==> r == Err::<TickScale, TickScaleError>(
                TickScaleError::ZeroTps,
            ),
            src_tps != 0 && dst_tps != 0 ==> r is Ok && r->Ok_0@ == lowest(
                dst_tps as int,
                src_tps as int,
            ),
    {
        if src_tps == 0 || dst_tps == 0 {
            return Err(TickScaleError::ZeroTps);
        }
        let g: u128 = gcd(dst_tps as u128, src_tps as u128);
        proof {
            lemma_gcd_divides(dst_tps as nat, src_tps as nat);
            lemma_lowest(dst_tps as int, src_tps as int);
            let l = lowest(dst_tps as int, src_tps as int);
            assert(magnitude(dst_tps as int) == dst_tps as nat);
            assert(magnitude(src_tps as int) == src_tps as nat);
        }
        Ok(Self { num: dst_tps / (g as u32), den: src_tps / (g as u32) })
    }

    /// Numerator of the reduced scale factor.
    #[must_use]
    pub fn num(&self) -> (n: u32)
        ensures
            n == self@.0,
    {
        self.num
    }

    /// Denominator of the reduced scale factor.
    #[must_use]
    pub fn den(&self) -> (n: u32)
        ensures
            n == self@.1,
    {
        self.den
    }

    /// Returns `Some(scaled)` if the scale is exact, `None` if it would
    /// require rounding. Callers choose the fallback (error, round, log).
    #[must_use]
    pub fn scale_exact(&self, ticks: i64) -> (r: Option<i64>)
        ensures
            r == exact_scaling(self@, ticks as int),
    {
        proof {
            use_type_invariant(self);
            lemma_scaled_bound(ticks, self.num);
        }
        let numerator: i128 = ticks as i128 * self.num as i128;
        let den: i128 = self.den as i128;
        let negative: bool = numerator < 0;
        let size: u128 = if negative {
            (-numerator) as u128
        } else {
            numerator as u128
        };
        let q: u128 = size / (self.den as u128);
        let rest: u128 = size % (self.den as u128);
        proof {
            lemma_fundamental_div_mod(size as int, den as int);
            if rest == 0 {
                let sq: int = if negative { -(q as int) } else { q as int };
                assert(numerator == sq * den) by (nonlinear_arith)
                    requires
                        size == den * q,
                        negative && sq == -q && numerator == -size || !negative && sq == q
                            && numerator == size,
                ;
                lemma_fundamental_div_mod_converse(numerator as int, den as int, sq, 0);
            } else {
                let sq: int = if negative { -(q as int) - 1 } else { q as int };
                let sr: int = if negative { den - rest } else { rest as int };
                assert(numerator == sq * den + sr) by (nonlinear_arith)
                    requires
                        size == den * q + rest,
                        negative && sq == -q - 1 && sr == den - rest && numerator == -size
                            || !negative && sq == q && sr == rest && numerator == size,
                ;
                lemma_fundamental_div_mod_converse(numerator as int, den as int, sq, sr);
            }
        }
        if rest != 0 {
            return None;
        }
        if negative {
            if q <= 0x8000_0000_0000_0000u128 {
                Some((-(q as i128)) as i64)
            } else {
                None
            }
        } else {
            if q <= 0x7FFF_FFFF_FFFF_FFFFu128 {
                Some(q as i64)
            } else {
                None
            }
        }
    }

    /// Scale with round-half-away-from-zero fallback for inexact values.
    /// Use only where sub-tick drift is acceptable (e.g. audio-sync
    /// fine-tune, which is already noisy at the ±millisecond level).
    #[must_use]
    pub fn scale_rounded(&self, ticks: i64) -> (r: Option<i64>)
        ensures
            r == to_i64(round_half_away(ticks * self@.0, self@.1)),
    {
        proof {
            use_type_invariant(self);
            lemma_scaled_bound(ticks, self.num);
        }
        let numerator: i128 = ticks as i128 * self.num as i128;
        let scaled: i128 = div_round(numerator, self.den as i128);
        if scaled < i64::MIN as i128 || scaled > i64::MAX as i128 {
            None
        } else {
            Some(scaled as i64)
        }
    }

    /// Returns true if no scaling is needed (source and destination TPS are equal).
    #[must_use]
    pub fn is_identity(&self) -> (b: bool)
        ensures
            b == (self@.0 == self@.1),
    {
        self.num == self.den
    }
}

proof fn lemma_scaled_bound(ticks: i64, num: u32)
    ensures
        i128::MIN < ticks * num < i128::MAX,
{
    assert(-0x8000_0000_0000_0000 * 0x1_0000_0000 <= ticks * num <= 0x8000_0000_0000_0000
        * 0x1_0000_0000) by (nonlinear_arith)
        requires
            -0x8000_0000_0000_0000 <= ticks <= 0x8000_0000_0000_0000,
            0 <= num <= 0x1_0000_0000,
    ;
}

/// A scaler between equal rates changes nothing.
pub proof fn law_equal_rates_are_identity(tps: int, ticks: i64)
    requires
        tps > 0,
    ensures
        lowest(tps, tps) == (1int, 1int),
        exact_scaling(lowest(tps, tps), ticks as int) == Some(ticks),
{
    assert(gcd_of(tps as nat, tps as nat) == tps) by {
        assert(tps as nat % tps as nat == 0) by {
            lemma_mod_self_0(tps);
        }
        assert(gcd_of(tps as nat, 0) == tps);
    }
    lemma_div_by_self(tps);
    assert((ticks * 1int) % 1int == 0 && (ticks * 1int) / 1int == ticks);
}

/// Scaling up and back down gives back every value that scaled exactly.
pub proof fn law_exact_scaling_round_trips(src_tps: int, dst_tps: int, ticks: i64, scaled: i64)
    requires
        0 < src_tps,
        0 < dst_tps,
        exact_scaling(lowest(dst_tps, src_tps), ticks as int) == Some(scaled),
    ensures
        exact_scaling(lowest(src_tps, dst_tps), scaled as int) == Some(ticks),
{
    crate::model::rational::lemma_gcd_comm(src_tps as nat, dst_tps as nat);
    lemma_lowest(dst_tps, src_tps);
    lemma_lowest(src_tps, dst_tps);
    let (n, d) = lowest(dst_tps, src_tps);
    assert(lowest(src_tps, dst_tps) == (d, n));
    lemma_fundamental_div_mod(ticks * n, d);
    assert(ticks * n == d * scaled);
    assert(n > 0);
    assert(scaled * d == ticks * n) by (nonlinear_arith)
        requires
            ticks * n == d * scaled,
    ;
    lemma_fundamental_div_mod_converse(scaled * d, n, ticks as int, 0);
}

/// A scaled value is the same time at the other rate: as many seconds as before. It is
/// given where one is a whole number of ticks that fits, and then only.
pub proof fn law_scaling_keeps_the_time(src_tps: int, dst_tps: int, ticks: i64, scaled: i64)
    requires
        0 < src_tps,
        0 < dst_tps,
    ensures
        exact_scaling(lowest(dst_tps, src_tps), ticks as int) == Some(scaled) <==> scaled * src_tps
            == ticks * dst_tps,
{
    lemma_lowest(dst_tps, src_tps);
    let (n, d) = lowest(dst_tps, src_tps);
    assert(n * src_tps == dst_tps * d);
    lemma_fundamental_div_mod(ticks * n, d);
    assert(d * scaled == scaled * d) by (nonlinear_arith);
    if scaled * src_tps == ticks * dst_tps {
        assert(scaled * d == ticks * n) by (nonlinear_arith)
            requires
                scaled * src_tps == ticks * dst_tps,
                n * src_tps == dst_tps * d,
                src_tps > 0,
        ;
        lemma_fundamental_div_mod_converse(ticks * n, d, scaled as int, 0);
    }
    if ticks * n == d * scaled {
        assert(scaled * src_tps == ticks * dst_tps) by (nonlinear_arith)
            requires
                ticks * n == scaled * d,
                n * src_tps == dst_tps * d,
                d > 0,
        ;
    }
}

} // verus!
