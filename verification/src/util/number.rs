//! Reading integers from text.

use crate::util::text::{dec, digit_char, digits_fixed};
use vstd::arithmetic::power::{lemma_pow0, lemma_pow1, lemma_pow_adds, pow};
use vstd::prelude::*;

verus! {

pub open spec fn is_digit(c: char) -> bool {
    '0' <= c && c <= '9'
}

pub open spec fn all_digits(s: Seq<char>) -> bool {
    forall|i: int| 0 <= i < s.len() ==> is_digit(#[trigger] s[i])
}

/// The number that a row of decimal digits stands for.
pub open spec fn number_of(s: Seq<char>) -> nat
    decreases s.len(),
{
    if s.len() == 0 {
        0
    } else {
        number_of(s.drop_last()) * 10 + (s.last() as u32 - 48) as nat
    }
}

/// The integer that `s` writes, an optional sign and digits, if it fits 64 bits.
pub open spec fn parsed_i64(s: Seq<char>) -> Option<int> {
    let minus = s.len() > 0 && s[0] == '-';
    let digits = if s.len() > 0 && (s[0] == '-' || s[0] == '+') {
        s.skip(1)
    } else {
        s
    };
    let n = if minus {
        -number_of(digits)
    } else {
        number_of(digits) as int
    };
    if digits.len() > 0 && all_digits(digits) && i64::MIN <= n <= i64::MAX {
        Some(n)
    } else {
        None
    }
}

proof fn lemma_prefix_is_smaller(s: Seq<char>, i: int)
    requires
        0 <= i <= s.len(),
        all_digits(s),
    ensures
        number_of(s.subrange(0, i)) <= number_of(s),
    decreases s.len() - i,
{
    if i == s.len() {
        assert(s.subrange(0, i) =~= s);
    } else {
        lemma_prefix_is_smaller(s, i + 1);
        assert(s.subrange(0, i + 1).drop_last() =~= s.subrange(0, i));
        assert(is_digit(s[i]));
    }
}

/// Read an integer: an optional sign, then digits.
pub fn parse_i64(s: &Vec<char>) -> (r: Option<i64>)
    ensures
        match parsed_i64(s@) {
            Some(n) => r is Some && r->0 == n,
            None => r is None,
        },
{
    let minus = s.len() > 0 && s[0] == '-';
    let start: usize = if s.len() > 0 && (s[0] == '-' || s[0] == '+') {
        1
    } else {
        0
    };
    let ghost digits = s@.skip(start as int);
    assert(start == 0 ==> digits =~= s@);
    if start == s.len() {
        return None;
    }
    let mut i: usize = start;
    while i < s.len()
        invariant
            start <= i <= s@.len(),
            s@.len() > start,
            start == (if s@[0] == '-' || s@[0] == '+' {
                1int
            } else {
                0
            }),
            digits == s@.skip(start as int),
            start == 0 ==> digits == s@,
            forall|k: int| 0 <= k < i - start ==> is_digit(#[trigger] digits[k]),
        decreases s@.len() - i,
    {
        let c: char = s[i];
        assert(digits[i - start] == c);
        if !('0' <= c && c <= '9') {
            return None;
        }
        i = i + 1;
    }
    assert(all_digits(digits));
    let mut n: u64 = 0;
    i = start;
    while i < s.len()
        invariant
            start <= i <= s@.len(),
            digits == s@.skip(start as int),
            all_digits(digits),
            n == number_of(digits.subrange(0, i - start)),
            n <= 0x8000_0000_0000_0000,
            s@.len() > start,
            parsed_i64(s@) == (if i64::MIN <= (if minus {
                -number_of(digits)
            } else {
                number_of(digits) as int
            }) <= i64::MAX {
                Some(if minus {
                    -number_of(digits)
                } else {
                    number_of(digits) as int
                })
            } else {
                None::<int>
            }),
        decreases s@.len() - i,
    {
        let c: char = s[i];
        assert(digits[i - start] == c);
        assert(is_digit(digits[i - start]));
        assert(digits.subrange(0, i + 1 - start).drop_last() =~= digits.subrange(0, i - start));
        proof {
            lemma_prefix_is_smaller(digits, i + 1 - start);
        }
        let wide: u128 = (n as u128) * 10 + (c as u32 - 48) as u128;
        if wide > 0x8000_0000_0000_0000 {
            return None;
        }
        n = wide as u64;
        i = i + 1;
    }
    assert(digits.subrange(0, i - start) =~= digits);
    if minus {
        if n == 0x8000_0000_0000_0000 {
            Some(i64::MIN)
        } else {
            Some(-(n as i64))
        }
    } else if n < 0x8000_0000_0000_0000 {
        Some(n as i64)
    } else {
        None
    }
}

/// The decimal form of a number is digits, and reads back as the number.
pub proof fn lemma_dec_reads_back(n: nat)
    ensures
        dec(n).len() > 0,
        all_digits(dec(n)),
        number_of(dec(n)) == n,
    decreases n,
{
    if n < 10 {
        assert(dec(n).drop_last() =~= Seq::empty());
        assert(number_of(Seq::empty()) == 0);
        assert(dec(n).last() == digit_char(n));
    } else {
        lemma_dec_reads_back(n / 10);
        assert(dec(n).drop_last() =~= dec(n / 10));
        assert(dec(n).last() == digit_char(n % 10));
    }
}

/// A row of `width` digits reads back as the number without its higher digits.
pub proof fn lemma_fixed_reads_back(n: nat, width: nat)
    requires
        n < pow(10, width),
    ensures
        digits_fixed(n, 10, width).len() == width,
        all_digits(digits_fixed(n, 10, width)),
        number_of(digits_fixed(n, 10, width)) == n,
    decreases width,
{
    if width == 0 {
        lemma_pow0(10);
    } else {
        lemma_pow_adds(10, (width - 1) as nat, 1);
        lemma_pow1(10);
        let p = pow(10, (width - 1) as nat);
        assert(n < p * 10);
        assert(n / 10 < p);
        lemma_fixed_reads_back(n / 10, (width - 1) as nat);
        let d = digits_fixed(n, 10, width);
        assert(d.drop_last() =~= digits_fixed(n / 10, 10, (width - 1) as nat));
        assert(d.last() == digit_char(n % 10));
    }
}

/// The decimal form of a signed number reads back as the number.
pub proof fn lemma_digits_parse(s: Seq<char>)
    requires
        s.len() > 0,
        all_digits(s),
        number_of(s) <= i64::MAX,
    ensures
        parsed_i64(s) == Some(number_of(s) as int),
{
    assert(is_digit(s[0]));
}

} // verus!
