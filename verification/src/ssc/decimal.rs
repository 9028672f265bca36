//! Decimal numbers in tags.

use crate::model::rational::{
    is_lowest, lemma_lowest_fixed, lemma_lowest_of_same, lowest, magnitude, q_fits, q_same,
    Rational,
};
use crate::util::chars::{
    chars_of, first_at, is_space, lemma_trimmed_end, lemma_trimmed_start, part, split_first,
    split_once, trim, trimmed,
};
use crate::util::number::{
    is_digit, lemma_dec_reads_back, lemma_digits_parse, lemma_fixed_reads_back, parse_i64,
    parsed_i64,
};
use crate::util::text::{dec, digits_fixed, push_dec, push_fixed};
use vstd::arithmetic::power::{
    lemma_pow0, lemma_pow_adds, lemma_pow1, lemma_pow_strictly_increases, pow,
};
use vstd::prelude::*;

verus! {

/// The integer nearest to `n / d`, the even one of two.
pub open spec fn round_half_even(n: int, d: int) -> int {
    let q = n / d;
    let twice = 2 * (n % d);
    if twice < d || (twice == d && q % 2 == 0) {
        q
    } else {
        q + 1
    }
}

/// `micros` millionths, written with six fractional digits.
pub open spec fn micros_text(micros: int) -> Seq<char> {
    let m = magnitude(micros);
    (if micros < 0 {
        seq!['-']
    } else {
        Seq::empty()
    }) + dec(m / 1_000_000) + seq!['.'] + digits_fixed(m % 1_000_000, 10, 6)
}

/// The fraction `q` as a decimal with six fractional digits.
pub open spec fn decimal_text(q: (int, int)) -> Seq<char> {
    micros_text(round_half_even(q.0 * 1_000_000, q.1))
}

/// One side of the decimal point: nothing stands for zero.
pub open spec fn decimal_part(s: Seq<char>) -> Option<int> {
    if s.len() == 0 {
        Some(0)
    } else {
        parsed_i64(s)
    }
}

/// `s` without its sign.
pub open spec fn unsigned(s: Seq<char>) -> Seq<char> {
    if s[0] == '-' || s[0] == '+' {
        s.skip(1)
    } else {
        s
    }
}

/// The parts of `s` before and behind the decimal point.
pub open spec fn point_parts(s: Seq<char>) -> (Seq<char>, Seq<char>) {
    match split_once(s, '.') {
        Some(parts) => parts,
        None => (s, Seq::empty()),
    }
}

/// The fraction that the decimal number `s` stands for. The digits as a whole
/// have to fit 64 bits.
pub open spec fn decimal_value(s: Seq<char>) -> Option<(int, int)> {
    let t = trimmed(s);
    if t.len() == 0 {
        Some((0int, 1int))
    } else {
        let (a, b) = point_parts(unsigned(t));
        match (decimal_part(a), decimal_part(b)) {
            (Some(whole), Some(fraction)) => {
                let scale = pow(10, b.len());
                let n = whole * scale + fraction;
                if b.len() > 18 || !(i64::MIN <= whole * scale <= i64::MAX) || !(i64::MIN <= n
                    <= i64::MAX) {
                    None
                } else if t[0] != '-' {
                    Some(lowest(n, scale))
                } else if n == i64::MIN {
                    Some(lowest(0, scale))
                } else {
                    Some(lowest(-n, scale))
                }
            },
            _ => None,
        }
    }
}

pub proof fn lemma_ten_to_6()
    ensures
        pow(10, 6) == 1_000_000,
{
    reveal(pow);
    reveal_with_fuel(pow, 7);
}

proof fn lemma_ten_to_18()
    ensures
        pow(10, 18) == 1_000_000_000_000_000_000,
{
    lemma_ten_to_6();
    lemma_pow_adds(10, 6, 6);
    lemma_pow_adds(10, 12, 6);
}

fn power_of_ten(n: usize) -> (p: i64)
    requires
        n <= 18,
    ensures
        p == pow(10, n as nat),
        p > 0,
{
    let mut p: i64 = 1;
    let mut i: usize = 0;
    proof {
        lemma_pow0(10);
    }
    while i < n
        invariant
            i <= n <= 18,
            p == pow(10, i as nat),
            p > 0,
        decreases n - i,
    {
        proof {
            lemma_pow1(10);
            lemma_pow_adds(10, i as nat, 1);
            if i + 1 < 18 {
                lemma_pow_strictly_increases(10, i as nat + 1, 18);
            }
            lemma_ten_to_18();
        }
        p = p * 10;
        i = i + 1;
    }
    p
}

/// Read one side of the decimal point.
fn parse_part(s: &Vec<char>) -> (r: Option<i64>)
    ensures
        match decimal_part(s@) {
            Some(n) => r is Some && r->0 == n,
            None => r is None,
        },
{
    if s.len() == 0 {
        Some(0)
    } else {
        parse_i64(s)
    }
}

/// Parse a decimal string like `"0.123"` or `"-4.5"` into an exact
/// `Rational` by treating the fractional part as `num / 10^digits`.
pub fn decimal_to_rational(s: &str) -> (r: Option<Rational>)
    ensures
        match decimal_value(s@) {
            Some(q) => r is Some && r->0@ == q,
            None => r is None,
        },
{
    parse_decimal(&chars_of(s))
}

/// Parse the characters of a decimal number.
pub fn parse_decimal(s: &Vec<char>) -> (r: Option<Rational>)
    ensures
        match decimal_value(s@) {
            Some(q) => r is Some && r->0@ == q,
            None => r is None,
        },
{
    let t = trim(s);
    if t.len() == 0 {
        return Some(Rational::zero());
    }
    let minus = t[0] == '-';
    let rest = if minus || t[0] == '+' {
        let rest = part(&t, 1, t.len());
        assert(rest@ =~= t@.skip(1));
        rest
    } else {
        t
    };
    let (int_part, frac_part) = match split_first(&rest, '.') {
        Some(parts) => parts,
        None => {
            let none: Vec<char> = Vec::new();
            assert(none@ =~= Seq::empty());
            (rest, none)
        },
    };
    let whole: i64 = match parse_part(&int_part) {
        Some(n) => n,
        None => {
            return None;
        },
    };
    let fraction: i64 = match parse_part(&frac_part) {
        Some(n) => n,
        None => {
            return None;
        },
    };
    if frac_part.len() > 18 {
        return None;
    }
    let scale: i64 = power_of_ten(frac_part.len());
    let scaled: i64 = match whole.checked_mul(scale) {
        Some(n) => n,
        None => {
            return None;
        },
    };
    let n: i64 = match scaled.checked_add(fraction) {
        Some(n) => n,
        None => {
            return None;
        },
    };
    let num: i64 = if !minus {
        n
    } else if n == i64::MIN {
        0
    } else {
        -n
    };
    match Rational::new(num, scale) {
        Ok(q) => Some(q),
        Err(_) => None,
    }
}

proof fn lemma_round_of_negative(m: int, d: int)
    requires
        m > 0,
        d > 0,
    ensures
        round_half_even(-m, d) == -round_half_even(m, d),
{
    let q = m / d;
    let r = m % d;
    assert(m == q * d + r) by {
        vstd::arithmetic::div_mod::lemma_fundamental_div_mod(m, d);
        assert(d * q == q * d) by (nonlinear_arith);
    }
    if r == 0 {
        assert(-m == (-q) * d) by (nonlinear_arith)
            requires
                m == q * d + r,
                r == 0,
        ;
        vstd::arithmetic::div_mod::lemma_fundamental_div_mod_converse(-m, d, -q, 0);
    } else {
        assert(-m == (-q - 1) * d + (d - r)) by (nonlinear_arith)
            requires
                m == q * d + r,
        ;
        vstd::arithmetic::div_mod::lemma_fundamental_div_mod_converse(-m, d, -q - 1, d - r);
    }
}

/// Format a `Rational` as a fixed-point decimal with 6 fractional digits.
/// Rounds half-to-even. Used for every decimal tag the writer emits.
pub fn format_decimal(r: Rational) -> (text: String)
    ensures
        text@ == decimal_text(r@),
{
    let num: i128 = r.num() as i128;
    let den: u128 = r.den() as u128;
    let negative = num < 0;
    let scaled: u128 = (if negative {
        (-num) as u128
    } else {
        num as u128
    }) * 1_000_000;
    let q: u128 = scaled / den;
    let rem: u128 = scaled % den;
    proof {
        assert(q <= scaled) by (nonlinear_arith)
            requires
                q == scaled / den,
                den >= 1,
        ;
    }
    let twice: u128 = rem * 2;
    let rounded: u128 = if twice < den || (twice == den && q % 2 == 0) {
        q
    } else {
        q + 1
    };
    proof {
        assert(rounded == round_half_even(scaled as int, den as int));
        if negative {
            lemma_round_of_negative(scaled as int, den as int);
        }
    }
    let ghost micros = round_half_even(r@.0 * 1_000_000, r@.1);
    assert(magnitude(micros) == rounded);
    let mut text = String::new();
    if negative && rounded > 0 {
        text.push('-');
    }
    push_dec(&mut text, rounded / 1_000_000);
    text.push('.');
    push_fixed(&mut text, rounded % 1_000_000, 10, 6);
    assert(text@ =~= micros_text(micros));
    text
}

/// A text that neither starts nor ends with white space is its own trimmed form.
pub proof fn lemma_trimmed_fixed(s: Seq<char>)
    requires
        s.len() > 0,
        !is_space(s[0]),
        !is_space(s.last()),
    ensures
        trimmed(s) == s,
{
    lemma_trimmed_start(s, 0);
    assert(s.skip(0) =~= s);
    lemma_trimmed_end(s, s.len() as int);
    assert(s.subrange(0, s.len() as int) =~= s);
}

/// The first `c` of a text stands behind a part that has none.
pub proof fn lemma_first_at(s: Seq<char>, c: char, i: int, at: int)
    requires
        0 <= i <= at < s.len(),
        s[at] == c,
        forall|k: int| i <= k < at ==> s[k] != c,
    ensures
        first_at(s, c, i) == Some(at),
    decreases at - i,
{
    if i < at {
        lemma_first_at(s, c, i + 1, at);
    }
}

/// The text of a number of millionths, taken apart.
pub proof fn lemma_micros_text(micros: int)
    requires
        -0x7fff_ffff_ffff_ffff <= micros <= i64::MAX,
    ensures
        decimal_value(micros_text(micros)) == Some(lowest(micros, 1_000_000)),
{
    let m = magnitude(micros);
    let s = micros_text(micros);
    let a = dec(m / 1_000_000);
    let b = digits_fixed(m % 1_000_000, 10, 6);
    lemma_ten_to_6();
    lemma_dec_reads_back(m / 1_000_000);
    lemma_fixed_reads_back(m % 1_000_000, 6);
    lemma_digits_parse(a);
    lemma_digits_parse(b);
    let sign = if micros < 0 { 1int } else { 0int };
    assert(s.len() == sign + a.len() + 1 + 6);
    assert(s.last() == b[5]);
    assert(is_digit(b[5]));
    if sign == 1 {
        assert(s[0] == '-');
    } else {
        assert(s[0] == a[0]);
        assert(is_digit(a[0]));
    }
    lemma_trimmed_fixed(s);
    let rest = unsigned(s);
    assert(rest =~= a + seq!['.'] + b);
    assert forall|k: int| 0 <= k < a.len() implies rest[k] != '.' by {
        assert(rest[k] == a[k]);
        assert(is_digit(a[k]));
    }
    lemma_first_at(rest, '.', 0, a.len() as int);
    assert(rest.subrange(0, a.len() as int) =~= a);
    assert(rest.subrange(a.len() as int + 1, rest.len() as int) =~= b);
    assert(point_parts(rest) == (a, b));
    assert((m / 1_000_000) * 1_000_000 + m % 1_000_000 == m);
}

/// Writing a value and reading it back gives the value again, if its
/// denominator divides `10^6` and its millionths fit 64 bits.
pub proof fn law_decimal_round_trip(q: (int, int))
    requires
        is_lowest(q),
        q_fits(q),
        1_000_000int % q.1 == 0,
        -0x7fff_ffff_ffff_ffff <= q.0 * (1_000_000int / q.1) <= i64::MAX,
    ensures
        decimal_value(decimal_text(q)) == Some(q),
{
    let k = 1_000_000int / q.1;
    let n = q.0;
    let d = q.1;
    assert(1_000_000 == k * d) by {
        vstd::arithmetic::div_mod::lemma_fundamental_div_mod(1_000_000, d);
        assert(d * k == k * d) by (nonlinear_arith);
    }
    assert(n * 1_000_000 == (n * k) * d) by (nonlinear_arith)
        requires
            1_000_000 == k * d,
    ;
    vstd::arithmetic::div_mod::lemma_fundamental_div_mod_converse(n * 1_000_000, d, n * k, 0);
    assert(round_half_even(n * 1_000_000, d) == n * k);
    lemma_micros_text(n * k);
    assert(q_same(q, (n * k, 1_000_000int)));
    lemma_lowest_of_same(q, (n * k, 1_000_000int));
    lemma_lowest_fixed(q);
}

} // verus!
