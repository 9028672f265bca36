//! Reduced rational numbers with exact arithmetic.
//!
//! Stepfile positions, tempo values, and audio sync offsets must
//! round-trip losslessly across formats. Floats drift; this type does not.
//! The denominator is always positive; the numerator carries the sign.

use std::cmp::Ordering;
use vstd::arithmetic::div_mod::*;
use vstd::arithmetic::mul::*;
use vstd::prelude::*;

verus! {

/// The greatest common divisor, by Euclid's recursion; `gcd(a, 0) == a`.
pub open spec fn gcd_of(a: nat, b: nat) -> nat
    decreases b,
{
    if b == 0 {
        a
    } else {
        gcd_of(b, a % b)
    }
}

/// The magnitude of `n`.
pub open spec fn magnitude(n: int) -> nat {
    if n < 0 {
        (-n) as nat
    } else {
        n as nat
    }
}

/// The lowest-terms form of `n / d`, with a positive denominator.
pub open spec fn lowest(n: int, d: int) -> (int, int) {
    let g = gcd_of(magnitude(n), magnitude(d)) as int;
    if d < 0 {
        ((-n) / g, (-d) / g)
    } else {
        (n / g, d / g)
    }
}

/// A pair that is a fraction in lowest terms with a positive denominator.
pub open spec fn is_lowest(q: (int, int)) -> bool {
    q.1 > 0 && gcd_of(magnitude(q.0), q.1 as nat) == 1
}

/// A pair whose parts fit the fields of a `Rational`.
pub open spec fn q_fits(q: (int, int)) -> bool {
    i64::MIN <= q.0 <= i64::MAX && 0 < q.1 <= u64::MAX
}

/// Two fractions with the same value.
pub open spec fn q_same(a: (int, int), b: (int, int)) -> bool {
    a.0 * b.1 == b.0 * a.1
}

pub open spec fn q_lt(a: (int, int), b: (int, int)) -> bool {
    a.0 * b.1 < b.0 * a.1
}

pub open spec fn q_le(a: (int, int), b: (int, int)) -> bool {
    a.0 * b.1 <= b.0 * a.1
}

/// An integer that fits in an `i128`, the width that intermediate results have.
pub open spec fn fits_wide(n: int) -> bool {
    i128::MIN <= n <= i128::MAX
}

pub open spec fn q_add(a: (int, int), b: (int, int)) -> (int, int) {
    lowest(a.0 * b.1 + b.0 * a.1, a.1 * b.1)
}

pub open spec fn q_neg(a: (int, int)) -> (int, int) {
    (-a.0, a.1)
}

pub open spec fn q_mul(a: (int, int), b: (int, int)) -> (int, int) {
    lowest(a.0 * b.0, a.1 * b.1)
}

pub open spec fn q_div(a: (int, int), b: (int, int)) -> (int, int) {
    lowest(a.0 * b.1, a.1 * b.0)
}

/// Whether the sum of `a` and `b` can be computed: the unreduced fraction fits
/// the intermediate width and the reduced one fits a `Rational`.
pub open spec fn add_fits(a: (int, int), b: (int, int)) -> bool {
    fits_wide(a.1 * b.1) && fits_wide(a.0 * b.1 + b.0 * a.1) && q_fits(q_add(a, b))
}

pub open spec fn mul_fits(a: (int, int), b: (int, int)) -> bool {
    fits_wide(a.1 * b.1) && q_fits(q_mul(a, b))
}

pub open spec fn div_fits(a: (int, int), b: (int, int)) -> bool {
    q_fits(q_div(a, b))
}

/// What `add` returns, as a value.
pub open spec fn add_value(a: (int, int), b: (int, int)) -> Option<(int, int)> {
    if add_fits(a, b) {
        Some(q_add(a, b))
    } else {
        None
    }
}

/// What `sub` returns, as a value.
pub open spec fn sub_value(a: (int, int), b: (int, int)) -> Option<(int, int)> {
    if b.0 == i64::MIN {
        None
    } else {
        add_value(a, q_neg(b))
    }
}

/// What `mul` returns, as a value.
pub open spec fn mul_value(a: (int, int), b: (int, int)) -> Option<(int, int)> {
    if mul_fits(a, b) {
        Some(q_mul(a, b))
    } else {
        None
    }
}

/// What `div` returns on a non-zero divisor, as a value.
pub open spec fn div_value(a: (int, int), b: (int, int)) -> Option<(int, int)> {
    if b.0 != 0 && div_fits(a, b) {
        Some(q_div(a, b))
    } else {
        None
    }
}

pub proof fn lemma_gcd_divides(a: nat, b: nat)
    requires
        a > 0 || b > 0,
    ensures
        gcd_of(a, b) > 0,
        a % gcd_of(a, b) == 0,
        b % gcd_of(a, b) == 0,
        b > 0 ==> gcd_of(a, b) <= b,
        a > 0 ==> gcd_of(a, b) <= a,
    decreases b,
{
    if b == 0 {
    } else {
        lemma_gcd_divides(b, a % b);
        let g = gcd_of(b, a % b);
        lemma_fundamental_div_mod(a as int, b as int);
        lemma_fundamental_div_mod(b as int, g as int);
        lemma_fundamental_div_mod((a % b) as int, g as int);
        let q: int = (a / b) as int;
        let s: int = (b / g) as int;
        let t: int = ((a % b) / g) as int;
        assert(a == g * (q * s + t)) by (nonlinear_arith)
            requires
                a == b * q + (a % b) as int,
                b == g * s,
                (a % b) as int == g * t,
        ;
        lemma_mod_multiples_basic(q * s + t, g as int);
        assert((g * (q * s + t)) == (q * s + t) * g) by (nonlinear_arith);
        if a > 0 {
            assert(a >= g) by (nonlinear_arith)
                requires
                    a == g * (q * s + t),
                    a > 0,
                    g > 0,
            ;
        }
    }
}

/// `gcd` is homogeneous.
pub proof fn lemma_gcd_scale(k: nat, a: nat, b: nat)
    requires
        k > 0,
    ensures
        gcd_of(k * a, k * b) == k * gcd_of(a, b),
    decreases b,
{
    if b == 0 {
        assert(k * b == 0);
    } else {
        assert(k * b > 0) by (nonlinear_arith)
            requires
                k > 0,
                b > 0,
        ;
        lemma_truncate_middle_mod(k, a, b);
        lemma_gcd_scale(k, b, a % b);
    }
}

proof fn lemma_truncate_middle_mod(k: nat, a: nat, b: nat)
    requires
        k > 0,
        b > 0,
    ensures
        (k * a) % (k * b) == k * (a % b),
{
    lemma_fundamental_div_mod(a as int, b as int);
    let q: int = (a / b) as int;
    let r: int = (a % b) as int;
    assert(k * a == q * (k * b) + k * r) by (nonlinear_arith)
        requires
            a == b * q + r,
    ;
    assert(0 <= k * r < k * b) by (nonlinear_arith)
        requires
            0 <= r < b,
            k > 0,
    ;
    lemma_fundamental_div_mod_converse((k * a) as int, (k * b) as int, q, k * r);
}

/// `gcd` does not depend on the order of its arguments.
pub proof fn lemma_gcd_comm(a: nat, b: nat)
    ensures
        gcd_of(a, b) == gcd_of(b, a),
{
    if a < b {
        lemma_small_mod(a, b);
    } else if b < a {
        lemma_small_mod(b, a);
    }
}

/// Dividing by the gcd leaves a fraction in lowest terms with the same value.
pub proof fn lemma_lowest(n: int, d: int)
    requires
        d != 0,
    ensures
        is_lowest(lowest(n, d)),
        q_same(lowest(n, d), (n, d)),
        magnitude(lowest(n, d).0) <= magnitude(n),
        lowest(n, d).1 <= magnitude(d),
        d > 0 ==> (n < 0 <==> lowest(n, d).0 < 0),
        n == 0 <==> lowest(n, d).0 == 0,
        ({
            let g = gcd_of(magnitude(n), magnitude(d));
            let sn = if d < 0 { -n } else { n };
            &&& g > 0
            &&& sn == g * lowest(n, d).0
            &&& magnitude(d) == g * lowest(n, d).1
            &&& magnitude(n) == g * magnitude(lowest(n, d).0)
            &&& magnitude(n) / g == magnitude(lowest(n, d).0)
        }),
{
    let a = magnitude(n);
    let b = magnitude(d);
    lemma_gcd_divides(a, b);
    let g = gcd_of(a, b);
    let sn = if d < 0 { -n } else { n };
    lemma_fundamental_div_mod(a as int, g as int);
    lemma_fundamental_div_mod(b as int, g as int);
    let x: nat = a / g;
    let y: nat = b / g;
    assert(a == g * x);
    assert(b == g * y);
    if sn >= 0 {
        assert(sn / (g as int) == x);
    } else {
        assert(sn == -(x as int) * g as int) by (nonlinear_arith)
            requires
                -sn == g * x,
        ;
        lemma_fundamental_div_mod_converse(sn, g as int, -(x as int), 0int);
        assert(sn / (g as int) == -(x as int));
    }
    lemma_gcd_scale(g, x, y);
    assert(gcd_of(x, y) == 1) by (nonlinear_arith)
        requires
            g == g * gcd_of(x, y),
            g > 0,
    ;
    assert(y > 0) by (nonlinear_arith)
        requires
            b == g * y,
            b > 0,
    ;
    assert(x <= a) by (nonlinear_arith)
        requires
            a == g * x,
            g > 0,
    ;
    assert(y <= b) by (nonlinear_arith)
        requires
            b == g * y,
            g > 0,
    ;
    assert(a == 0 <==> x == 0) by (nonlinear_arith)
        requires
            a == g * x,
            g > 0,
    ;
    let l = lowest(n, d);
    assert(magnitude(l.0) == x);
    assert(l.1 == y);
    assert(sn == g * l.0) by (nonlinear_arith)
        requires
            sn == g * x && l.0 == x || -sn == g * x && l.0 == -x,
    ;
    assert(l.0 * d == n * l.1) by (nonlinear_arith)
        requires
            sn == g * l.0,
            b == g * l.1,
            (d == b && n == sn) || (d == -b && n == -sn),
    ;
}

/// A value has one form in lowest terms.
pub proof fn lemma_lowest_unique(a: (int, int), b: (int, int))
    requires
        is_lowest(a),
        is_lowest(b),
        q_same(a, b),
    ensures
        a == b,
{
    let x = magnitude(a.0);
    let y = a.1 as nat;
    let u = magnitude(b.0);
    let v = b.1 as nat;
    assert(v * x == y * u) by (nonlinear_arith)
        requires
            a.0 * b.1 == b.0 * a.1,
            a.1 > 0,
            b.1 > 0,
            x == magnitude(a.0),
            u == magnitude(b.0),
            y == a.1,
            v == b.1,
    ;
    lemma_gcd_scale(v, x, y);
    lemma_gcd_scale(y, u, v);
    assert(v * y == y * v) by (nonlinear_arith);
    assert(v == y);
    assert(a.0 == b.0) by (nonlinear_arith)
        requires
            a.0 * b.1 == b.0 * a.1,
            a.1 == b.1,
            a.1 > 0,
    ;
}

/// Fractions with the same value reduce to the same pair.
pub proof fn lemma_lowest_of_same(a: (int, int), b: (int, int))
    requires
        a.1 != 0,
        b.1 != 0,
        q_same(a, b),
    ensures
        lowest(a.0, a.1) == lowest(b.0, b.1),
{
    lemma_lowest(a.0, a.1);
    lemma_lowest(b.0, b.1);
    let l = lowest(a.0, a.1);
    let m = lowest(b.0, b.1);
    lemma_same_trans(l, a, b);
    lemma_same_trans(l, b, m);
    lemma_lowest_unique(l, m);
}

/// Having the same value is transitive.
pub proof fn lemma_same_trans(a: (int, int), b: (int, int), c: (int, int))
    requires
        b.1 != 0,
        q_same(a, b),
        q_same(b, c) || q_same(c, b),
    ensures
        q_same(a, c),
{
    let (an, ad) = a;
    let (bn, bd) = b;
    let (cn, cd) = c;
    assert(an * cd == cn * ad) by (nonlinear_arith)
        requires
            an * bd == bn * ad,
            bn * cd == cn * bd,
            bd != 0,
    {
        assert((an * cd) * bd == (an * bd) * cd) by (nonlinear_arith);
        assert((bn * ad) * cd == (bn * cd) * ad) by (nonlinear_arith);
        assert((cn * bd) * ad == (cn * ad) * bd) by (nonlinear_arith);
        assert((an * cd) * bd == (cn * ad) * bd);
        lemma_mul_equality_converse(bd, an * cd, cn * ad);
    }
}

/// A pair already in lowest terms is its own lowest form.
pub proof fn lemma_lowest_fixed(q: (int, int))
    requires
        is_lowest(q),
    ensures
        lowest(q.0, q.1) == q,
{
    lemma_lowest(q.0, q.1);
    lemma_lowest_unique(lowest(q.0, q.1), q);
}

#[derive(Debug, Clone, Copy, PartialEq, Eq, Structural)]
pub enum RationalError {
    ZeroDenominator,
    Overflow,
}

impl RationalError {
    /// Human-readable description of the error.
    pub fn message(&self) -> (text: String)
        ensures
            text@ == (match self {
                RationalError::ZeroDenominator => "denominator cannot be zero"@,
                RationalError::Overflow => "arithmetic overflow"@,
            }),
    {
        match self {
            RationalError::ZeroDenominator => "denominator cannot be zero".to_owned(),
            RationalError::Overflow => "arithmetic overflow".to_owned(),
        }
    }
}

/// A rational number `num / den` in lowest terms.
#[derive(Debug, Clone, Copy, PartialEq, Eq, Hash, Structural)]
pub struct Rational {
    num: i64,
    den: u64,
}

impl View for Rational {
    type V = (int, int);

    closed spec fn view(&self) -> (int, int) {
        (self.num as int, self.den as int)
    }
}

/// What arithmetic that yields `v`, or fails, returns.
pub open spec fn arith_result(r: Result<Rational, RationalError>, v: Option<(int, int)>) -> bool {
    match v {
        Some(q) => r is Ok && r->Ok_0@ == q,
        None => r == Err::<Rational, RationalError>(RationalError::Overflow),
    }
}

impl Rational {
    /// Every value is in lowest terms and fits its fields.
    #[verifier::type_invariant]
    pub open spec fn wf(self) -> bool {
        is_lowest(self@) && q_fits(self@)
    }

    /// The value with parts `q`, where they fit.
    pub closed spec fn of(q: (int, int)) -> Rational {
        Rational { num: q.0 as i64, den: q.1 as u64 }
    }

    pub broadcast proof fn lemma_of_view(q: (int, int))
        ensures
            q_fits(q) ==> (#[trigger] Rational::of(q))@ == q,
    {
    }

    pub broadcast proof fn lemma_view_of(r: Rational)
        ensures
            Rational::of(#[trigger] r@) == r,
    {
    }

    /// Construct from integer numerator and denominator, reducing to
    /// lowest terms. Rejects zero denominators.
    pub fn new(num: i64, den: i64) -> (r: Result<Self, RationalError>)
        ensures
            den == 0 ==> r == Err::<Rational, RationalError>(RationalError::ZeroDenominator),
            den != 0 ==> arith_result(
                r,
                if den < 0 && num == i64::MIN {
                    None
                } else {
                    Some(lowest(num as int, den as int))
                },
            ),
    {
        if den == 0 {
            return Err(RationalError::ZeroDenominator);
        }
        if den < 0 && num == i64::MIN {
            return Err(RationalError::Overflow);
        }
        proof {
            lemma_lowest(num as int, den as int);
        }
        Self::from_i128_ratio(num as i128, den as i128)
    }

    #[must_use]
    pub fn from_integer(n: i64) -> (r: Self)
        ensures
            r@ == (n as int, 1int),
    {
        proof {
            lemma_one_is_coprime(magnitude(n as int));
        }
        Self { num: n, den: 1 }
    }

    #[must_use]
    pub fn zero() -> (r: Self)
        ensures
            r@ == (0int, 1int),
    {
        proof {
            lemma_one_is_coprime(0);
        }
        Self { num: 0, den: 1 }
    }

    #[must_use]
    pub fn num(&self) -> (n: i64)
        ensures
            n == self@.0,
    {
        self.num
    }

    #[must_use]
    pub fn den(&self) -> (d: u64)
        ensures
            d == self@.1,
            d > 0,
    {
        proof {
            use_type_invariant(self);
        }
        self.den
    }

    #[must_use]
    pub fn is_zero(&self) -> (b: bool)
        ensures
            b == (self@.0 == 0),
    {
        self.num == 0
    }

    pub fn add(&self, other: &Self) -> (r: Result<Self, RationalError>)
        ensures
            arith_result(r, add_value(self@, other@)),
    {
        proof {
            use_type_invariant(self);
            use_type_invariant(other);
            lemma_wide_products(self@, other@);
            assert(fits_wide(self.num * other.den));
            assert(fits_wide(other.num * self.den));
        }
        // a/b + c/d = (a*d + c*b) / (b*d)
        let bd: i128 = match (self.den as i128).checked_mul(other.den as i128) {
            Some(v) => v,
            None => {
                return Err(RationalError::Overflow);
            },
        };
        let ad: i128 = self.num as i128 * other.den as i128;
        let cb: i128 = other.num as i128 * self.den as i128;
        let num: i128 = match ad.checked_add(cb) {
            Some(v) => v,
            None => {
                return Err(RationalError::Overflow);
            },
        };
        Self::from_i128_ratio(num, bd)
    }

    pub fn sub(&self, other: &Self) -> (r: Result<Self, RationalError>)
        ensures
            arith_result(r, sub_value(self@, other@)),
    {
        if other.num == i64::MIN {
            return Err(RationalError::Overflow);
        }
        proof {
            use_type_invariant(other);
        }
        let neg = Self { num: -other.num, den: other.den };
        self.add(&neg)
    }

    pub fn mul(&self, other: &Self) -> (r: Result<Self, RationalError>)
        ensures
            arith_result(r, mul_value(self@, other@)),
    {
        proof {
            use_type_invariant(self);
            use_type_invariant(other);
            lemma_wide_products(self@, other@);
            assert(fits_wide(self.num * other.num));
        }
        let num: i128 = self.num as i128 * other.num as i128;
        let den: i128 = match (self.den as i128).checked_mul(other.den as i128) {
            Some(v) => v,
            None => {
                return Err(RationalError::Overflow);
            },
        };
        Self::from_i128_ratio(num, den)
    }

    pub fn div(&self, other: &Self) -> (r: Result<Self, RationalError>)
        ensures
            other@.0 == 0 ==> r == Err::<Rational, RationalError>(RationalError::ZeroDenominator),
            other@.0 != 0 ==> arith_result(r, div_value(self@, other@)),
    {
        if other.num == 0 {
            return Err(RationalError::ZeroDenominator);
        }
        proof {
            use_type_invariant(self);
            use_type_invariant(other);
            lemma_wide_products(self@, other@);
            assert(fits_wide(self.num * other.den));
            assert(fits_wide(self.den * other.num)) by {
                assert(self.den * other.num == other.num * self.den) by (nonlinear_arith);
            }
            assert(self.den * other.num != 0) by (nonlinear_arith)
                requires
                    self.den > 0,
                    other.num != 0,
            ;
        }
        let num: i128 = self.num as i128 * other.den as i128;
        let den: i128 = self.den as i128 * other.num as i128;
        Self::from_i128_ratio(num, den)
    }

    /// Reduce an i128 numerator / i128 denominator into a `Rational`,
    /// normalizing sign and checking that the result fits in i64/u64.
    fn from_i128_ratio(num: i128, den: i128) -> (r: Result<Self, RationalError>)
        requires
            den < 0 ==> num > i128::MIN && den > i128::MIN,
        ensures
            den == 0 ==> r == Err::<Rational, RationalError>(RationalError::ZeroDenominator),
            den != 0 ==> arith_result(
                r,
                if q_fits(lowest(num as int, den as int)) {
                    Some(lowest(num as int, den as int))
                } else {
                    None
                },
            ),
    {
        if den == 0 {
            return Err(RationalError::ZeroDenominator);
        }
        let negative: bool = (num < 0) != (den < 0);
        let num_abs: u128 = wide_magnitude(num);
        let den_abs: u128 = wide_magnitude(den);
        let g: u128 = gcd(num_abs, den_abs);
        proof {
            lemma_lowest(num as int, den as int);
            lemma_gcd_divides(num_abs as nat, den_abs as nat);
        }
        let n: u128 = num_abs / g;
        let d: u128 = den_abs / g;
        proof {
            let l = lowest(num as int, den as int);
            assert(n == magnitude(l.0));
            assert(d == l.1);
            if den < 0 {
                assert(l.0 == (-num) / (g as int));
                if num > 0 {
                    assert(l.0 <= 0) by (nonlinear_arith)
                        requires -num == g * l.0, g > 0, num > 0;
                } else {
                    assert(l.0 >= 0) by (nonlinear_arith)
                        requires -num == g * l.0, g > 0, num <= 0;
                }
            }
        }
        if d > u64::MAX as u128 {
            return Err(RationalError::Overflow);
        }
        if negative {
            if n > 0x8000_0000_0000_0000u128 {
                return Err(RationalError::Overflow);
            }
            Ok(Self { num: (-(n as i128)) as i64, den: d as u64 })
        } else {
            if n > i64::MAX as u128 {
                return Err(RationalError::Overflow);
            }
            Ok(Self { num: n as i64, den: d as u64 })
        }
    }

    /// Total order by value.
    pub fn cmp(&self, other: &Self) -> (o: Ordering)
        ensures
            o == (if q_lt(self@, other@) {
                Ordering::Less
            } else if q_same(self@, other@) {
                Ordering::Equal
            } else {
                Ordering::Greater
            }),
    {
        // a/b vs c/d => a*d vs c*b (with b, d > 0), compared in i128
        // to avoid overflow when multiplying two i64s.
        let lhs: i128 = cross_product(self, other);
        let rhs: i128 = cross_product(other, self);
        if lhs < rhs {
            Ordering::Less
        } else if lhs == rhs {
            Ordering::Equal
        } else {
            Ordering::Greater
        }
    }
}

/// `a`'s numerator times `b`'s denominator.
fn cross_product(a: &Rational, b: &Rational) -> (p: i128)
    ensures
        p == a@.0 * b@.1,
{
    proof {
        use_type_invariant(a);
        use_type_invariant(b);
        lemma_wide_products(a@, b@);
        assert(fits_wide(a.num * b.den));
    }
    a.num as i128 * b.den as i128
}

impl PartialOrd for Rational {
    fn partial_cmp(&self, other: &Self) -> (o: Option<Ordering>) {
        Some(self.cmp(other))
    }
}

impl vstd::std_specs::cmp::PartialOrdSpecImpl for Rational {
    open spec fn obeys_partial_cmp_spec() -> bool {
        true
    }

    open spec fn partial_cmp_spec(&self, other: &Rational) -> Option<Ordering> {
        if q_lt(self@, other@) {
            Some(Ordering::Less)
        } else if q_same(self@, other@) {
            Some(Ordering::Equal)
        } else {
            Some(Ordering::Greater)
        }
    }
}

proof fn lemma_one_is_coprime(a: nat)
    ensures
        gcd_of(a, 1) == 1,
{
    assert(a % 1 == 0);
    assert(gcd_of(1, 0) == 1);
}

/// Products of parts of two rationals fit the intermediate width, but for the
/// product of the denominators.
pub proof fn lemma_wide_products(a: (int, int), b: (int, int))
    requires
        q_fits(a),
        q_fits(b),
    ensures
        i128::MIN < a.0 * b.1 <= i128::MAX,
        i128::MIN < b.0 * a.1 <= i128::MAX,
        i128::MIN < a.0 * b.0 <= i128::MAX,
        0 < a.1 * b.1,
{
    let m: int = 0x8000_0000_0000_0000;
    let w: int = 0x1_0000_0000_0000_0000;
    assert(-m * w <= a.0 * b.1 <= m * w - m) by (nonlinear_arith)
        requires
            -m <= a.0 < m,
            0 < b.1 < w,
            m == 0x8000_0000_0000_0000,
    ;
    assert(-m * w < a.0 * b.1) by (nonlinear_arith)
        requires
            -m <= a.0 < m,
            0 < b.1 < w,
            m == 0x8000_0000_0000_0000,
    ;
    assert(-m * w < b.0 * a.1 <= m * w - m) by (nonlinear_arith)
        requires
            -m <= b.0 < m,
            0 < a.1 < w,
            m == 0x8000_0000_0000_0000,
    ;
    assert(-m * m <= a.0 * b.0 <= m * m) by (nonlinear_arith)
        requires
            -m <= a.0 < m,
            -m <= b.0 < m,
            m == 0x8000_0000_0000_0000,
    ;
    assert(0 < a.1 * b.1) by (nonlinear_arith)
        requires
            0 < a.1,
            0 < b.1,
    ;
}

fn wide_magnitude(n: i128) -> (m: u128)
    ensures
        m == magnitude(n as int),
{
    if n == i128::MIN {
        0x8000_0000_0000_0000_0000_0000_0000_0000u128
    } else if n < 0 {
        (-n) as u128
    } else {
        n as u128
    }
}

/// Euclid's algorithm.
pub fn gcd(a: u128, b: u128) -> (g: u128)
    requires
        a > 0 || b > 0,
    ensures
        g == gcd_of(a as nat, b as nat),
        g > 0,
{
    let mut x: u128 = a;
    let mut y: u128 = b;
    proof {
        lemma_gcd_divides(a as nat, b as nat);
    }
    while y != 0
        invariant
            gcd_of(x as nat, y as nat) == gcd_of(a as nat, b as nat),
        decreases y,
    {
        let t: u128 = x % y;
        x = y;
        y = t;
    }
    x
}

/// `n / d` rounded to the nearest integer, halves away from zero.
pub open spec fn round_half_away(n: int, d: int) -> int {
    if n >= 0 {
        (2 * n + d) / (2 * d)
    } else {
        -((2 * -n + d) / (2 * d))
    }
}

/// Divide, rounding halves away from zero.
pub fn div_round(num: i128, den: i128) -> (q: i128)
    requires
        den > 0,
    ensures
        q == round_half_away(num as int, den as int),
{
    let size: u128 = wide_magnitude(num);
    let d: u128 = den as u128;
    let whole: u128 = size / d;
    let rest: u128 = size % d;
    let up: bool = rest >= d - rest;
    proof {
        lemma_fundamental_div_mod(size as int, d as int);
        let q: int = if up { whole + 1 } else { whole as int };
        let r: int = if up { 2 * rest - d } else { 2 * rest + d };
        assert(2 * size + d == q * (2 * d) + r) by (nonlinear_arith)
            requires
                size == d * whole + rest,
                up && q == whole + 1 && r == 2 * rest - d || !up && q == whole && r == 2 * rest + d,
        ;
        lemma_fundamental_div_mod_converse(2 * size + d, 2 * d, q, r);
        assert(whole <= size) by (nonlinear_arith)
            requires
                size == d * whole + rest,
                d > 0,
                rest >= 0,
                whole >= 0,
        ;
        if up {
            assert(whole + 1 <= size) by (nonlinear_arith)
                requires
                    size == d * whole + rest,
                    d >= 1,
                    rest >= 1,
                    whole >= 0,
            ;
        }
    }
    let q: u128 = if up {
        whole + 1
    } else {
        whole
    };
    if num >= 0 {
        q as i128
    } else if q == 0x8000_0000_0000_0000_0000_0000_0000_0000u128 {
        i128::MIN
    } else {
        -(q as i128)
    }
}

/// Sums, products and quotients have exactly the value that arithmetic on
/// fractions gives them, in lowest terms.
pub proof fn law_arithmetic_is_exact(a: (int, int), b: (int, int))
    requires
        is_lowest(a),
        is_lowest(b),
    ensures
        q_same(q_add(a, b), (a.0 * b.1 + b.0 * a.1, a.1 * b.1)),
        q_same(q_mul(a, b), (a.0 * b.0, a.1 * b.1)),
        b.0 != 0 ==> q_same(q_div(a, b), (a.0 * b.1, a.1 * b.0)),
        is_lowest(q_add(a, b)),
        is_lowest(q_mul(a, b)),
        b.0 != 0 ==> is_lowest(q_div(a, b)),
{
    assert(a.1 * b.1 > 0) by (nonlinear_arith)
        requires
            a.1 > 0,
            b.1 > 0,
    ;
    lemma_lowest(a.0 * b.1 + b.0 * a.1, a.1 * b.1);
    lemma_lowest(a.0 * b.0, a.1 * b.1);
    if b.0 != 0 {
        assert(a.1 * b.0 != 0) by (nonlinear_arith)
            requires
                a.1 > 0,
                b.0 != 0,
        ;
        lemma_lowest(a.0 * b.1, a.1 * b.0);
    }
}

/// Dividing a product by one of its factors gives back the other factor.
pub proof fn law_div_undoes_mul(a: (int, int), b: (int, int))
    requires
        is_lowest(a),
        is_lowest(b),
        b.0 != 0,
    ensures
        q_div(q_mul(a, b), b) == a,
{
    law_arithmetic_is_exact(a, b);
    let m = q_mul(a, b);
    law_arithmetic_is_exact(m, b);
    let (an, ad) = a;
    let (bn, bd) = b;
    let (mn, md) = m;
    // mn / md == (an * bn) / (ad * bd)
    assert(md * bn != 0) by (nonlinear_arith)
        requires
            md > 0,
            bn != 0,
    ;
    assert((mn * bd) * ad == an * (md * bn)) by (nonlinear_arith)
        requires
            mn * (ad * bd) == (an * bn) * md,
    ;
    lemma_same_trans(q_div(m, b), (mn * bd, md * bn), a);
    lemma_lowest_unique(q_div(m, b), a);
}

/// Subtracting what was added gives back the first summand.
pub proof fn law_sub_undoes_add(a: (int, int), b: (int, int))
    requires
        is_lowest(a),
        is_lowest(b),
    ensures
        is_lowest(q_neg(b)),
        q_add(q_add(a, b), q_neg(b)) == a,
{
    law_arithmetic_is_exact(a, b);
    let m = q_add(a, b);
    law_arithmetic_is_exact(m, q_neg(b));
    let (an, ad) = a;
    let (bn, bd) = b;
    let (mn, md) = m;
    assert(md * bd > 0) by (nonlinear_arith)
        requires
            md > 0,
            bd > 0,
    ;
    assert((mn * bd + (-bn) * md) * ad == an * (md * bd)) by (nonlinear_arith)
        requires
            mn * (ad * bd) == (an * bd + bn * ad) * md,
    {
        assert((mn * bd + (-bn) * md) * ad == mn * (ad * bd) - (bn * ad) * md) by (nonlinear_arith);
        assert((an * bd + bn * ad) * md == an * (md * bd) + (bn * ad) * md) by (nonlinear_arith);
    }
    lemma_same_trans(q_add(m, q_neg(b)), (mn * bd + (-bn) * md, md * bd), a);
    lemma_lowest_unique(q_add(m, q_neg(b)), a);
}

/// Comparing with a fraction in lowest terms is comparing with the fraction.
pub proof fn lemma_lt_lowest(n: int, d: int, q: (int, int))
    requires
        d > 0,
        q.1 > 0,
    ensures
        q_lt(lowest(n, d), q) <==> n * q.1 < q.0 * d,
        q_lt(q, lowest(n, d)) <==> q.0 * d < n * q.1,
{
    lemma_lowest(n, d);
    let (a, b) = lowest(n, d);
    let (x, y) = q;
    assert(a * d == n * b);
    assert((a * y < x * b) == (n * y < x * d) && (x * b < a * y) == (x * d < n * y))
        by (nonlinear_arith)
        requires
            a * d == n * b,
            b > 0,
            d > 0,
    {
        // Both sides of the first comparison scale by d / b.
        assert((a * y) * d == (n * y) * b) by (nonlinear_arith)
            requires
                a * d == n * b,
        ;
        assert((x * b) * d == (x * d) * b) by (nonlinear_arith);
        let l = a * y;
        let r = x * b;
        let l2 = n * y;
        let r2 = x * d;
        assert((l < r) == (l * d < r * d)) by (nonlinear_arith)
            requires
                d > 0,
        ;
        assert((l2 < r2) == (l2 * b < r2 * b)) by (nonlinear_arith)
            requires
                b > 0,
        ;
        assert((r < l) == (r * d < l * d)) by (nonlinear_arith)
            requires
                d > 0,
        ;
        assert((r2 < l2) == (r2 * b < l2 * b)) by (nonlinear_arith)
            requires
                b > 0,
        ;
    }
}

/// The order is total, agrees with equality, and is transitive.
pub proof fn law_order_is_total(a: (int, int), b: (int, int), c: (int, int))
    requires
        is_lowest(a),
        is_lowest(b),
        is_lowest(c),
    ensures
        q_lt(a, b) || a == b || q_lt(b, a),
        q_lt(a, b) ==> a != b && !q_lt(b, a),
        q_lt(a, b) && q_lt(b, c) ==> q_lt(a, c),
        q_le(a, b) && q_le(b, c) ==> q_le(a, c),
        q_le(a, b) <==> q_lt(a, b) || a == b,
{
    if q_same(a, b) {
        lemma_lowest_unique(a, b);
    }
    let (an, ad) = a;
    let (bn, bd) = b;
    let (cn, cd) = c;
    if q_lt(a, b) && q_lt(b, c) {
        assert(an * cd < cn * ad) by (nonlinear_arith)
            requires
                an * bd < bn * ad,
                bn * cd < cn * bd,
                ad > 0,
                bd > 0,
                cd > 0,
        {
            assert((an * bd) * cd < (bn * ad) * cd) by (nonlinear_arith)
                requires an * bd < bn * ad, cd > 0;
            assert((bn * cd) * ad < (cn * bd) * ad) by (nonlinear_arith)
                requires bn * cd < cn * bd, ad > 0;
            assert((an * cd) * bd < (cn * ad) * bd) by (nonlinear_arith)
                requires (an * bd) * cd < (bn * ad) * cd, (bn * cd) * ad < (cn * bd) * ad;
            lemma_mul_strict_inequality_converse(an * cd, cn * ad, bd);
        }
    }
    if q_le(a, b) && q_le(b, c) {
        assert(an * cd <= cn * ad) by (nonlinear_arith)
            requires
                an * bd <= bn * ad,
                bn * cd <= cn * bd,
                ad > 0,
                bd > 0,
                cd > 0,
        {
            assert((an * bd) * cd <= (bn * ad) * cd) by (nonlinear_arith)
                requires an * bd <= bn * ad, cd > 0;
            assert((bn * cd) * ad <= (cn * bd) * ad) by (nonlinear_arith)
                requires bn * cd <= cn * bd, ad > 0;
            assert((an * cd) * bd <= (cn * ad) * bd) by (nonlinear_arith)
                requires (an * bd) * cd <= (bn * ad) * cd, (bn * cd) * ad <= (cn * bd) * ad;
            lemma_mul_inequality_converse(an * cd, cn * ad, bd);
        }
    }
}

/// Rounding gives the nearest whole number; of two that are equally near, the one
/// further from zero.
pub proof fn law_rounding_is_nearest(n: int, d: int)
    requires
        d > 0,
    ensures
        -d <= 2 * (round_half_away(n, d) * d - n) <= d,
        n >= 0 ==> 2 * (n - round_half_away(n, d) * d) < d,
        n < 0 ==> 2 * (round_half_away(n, d) * d - n) < d,
{
    let r = round_half_away(n, d);
    let m = if n >= 0 {
        n
    } else {
        -n
    };
    let q = (2 * m + d) / (2 * d);
    vstd::arithmetic::div_mod::lemma_fundamental_div_mod(2 * m + d, 2 * d);
    assert((2 * d) * q == 2 * (q * d)) by (nonlinear_arith);
    assert((-q) * d == -(q * d)) by (nonlinear_arith);
}

} // verus!
