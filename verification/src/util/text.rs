//! Number formatting and string assembly.

use vstd::prelude::*;
use vstd::string::StringExecFns;
use vstd::utf8::{decode_utf8, valid_utf8};

verus! {

/// `String::push` appends one character to the end of the string.
pub assume_specification[ String::push ](s: &mut String, c: char)
    ensures
        final(s)@ == old(s)@.push(c),
;

/// `std::str::from_utf8` gives the text of the bytes if they are valid UTF-8,
/// and an error if they are not.
#[verifier::external_body]
pub(crate) fn utf8_text(bytes: &[u8]) -> (r: Option<&str>)
    ensures
        valid_utf8(bytes@) ==> r is Some && r->0@ == decode_utf8(bytes@),
        !valid_utf8(bytes@) ==> r is None,
{
    std::str::from_utf8(bytes).ok()
}

/// What `{:?}` prints of a string: the string in double quotes, with escapes for
/// the characters that need one.
pub uninterp spec fn debug_text(s: Seq<char>) -> Seq<char>;

/// What `{:?}` prints of a character: the character in single quotes, escaped
/// where it needs to be.
pub uninterp spec fn debug_char(c: char) -> Seq<char>;

/// The `Debug` form of a string, from `std::fmt`. Which characters are escaped,
/// and how, is left to `std`: the result is only named.
#[verifier::external_body]
pub(crate) fn quoted(s: &str) -> (text: String)
    ensures
        text@ == debug_text(s@),
{
    format!("{:?}", s)
}

/// The `Debug` form of a character, from `std::fmt`, named likewise.
#[verifier::external_body]
pub(crate) fn quoted_char(c: char) -> (text: String)
    ensures
        text@ == debug_char(c),
{
    format!("{:?}", c)
}

/// The character of a digit below sixteen, upper case.
pub open spec fn digit_char(d: nat) -> char {
    if d < 10 {
        (48 + d) as char
    } else {
        (55 + d) as char
    }
}

/// The decimal digits of `n`, without leading zeros.
pub open spec fn dec(n: nat) -> Seq<char>
    decreases n,
{
    if n < 10 {
        seq![digit_char(n)]
    } else {
        dec(n / 10).push(digit_char(n % 10))
    }
}

/// The decimal form of a signed number.
pub open spec fn signed_dec(n: int) -> Seq<char> {
    if n < 0 {
        "-"@ + dec((-n) as nat)
    } else {
        dec(n as nat)
    }
}

/// The lowest `width` digits of `n` in base `base`, most significant first.
pub open spec fn digits_fixed(n: nat, base: nat, width: nat) -> Seq<char>
    decreases width,
{
    if width == 0 {
        Seq::empty()
    } else {
        digits_fixed(n / base, base, (width - 1) as nat).push(digit_char(n % base))
    }
}

/// The character of one digit.
pub fn digit(d: u8) -> (c: char)
    requires
        d < 16,
    ensures
        c == digit_char(d as nat),
{
    if d < 10 {
        (48 + d) as char
    } else {
        (55 + d) as char
    }
}

/// Append the decimal form of `n`.
pub fn push_dec(s: &mut String, n: u128)
    ensures
        final(s)@ == old(s)@ + dec(n as nat),
    decreases n,
{
    if n < 10 {
        s.push(digit(n as u8));
        assert(s@ =~= old(s)@ + dec(n as nat));
    } else {
        push_dec(s, n / 10);
        s.push(digit((n % 10) as u8));
        assert(s@ =~= old(s)@ + dec(n as nat));
    }
}

/// The decimal form of `n`.
pub fn dec_string(n: u128) -> (s: String)
    ensures
        s@ == dec(n as nat),
{
    let mut s = String::new();
    push_dec(&mut s, n);
    assert(s@ =~= dec(n as nat));
    s
}

/// The decimal form of a signed number.
pub fn signed_dec_string(n: i64) -> (s: String)
    ensures
        s@ == signed_dec(n as int),
{
    if n < 0 {
        "-".to_owned().concat(dec_string((-(n as i128)) as u128).as_str())
    } else {
        dec_string(n as u128)
    }
}

/// Append the lowest `width` digits of `n` in base `base`.
pub fn push_fixed(s: &mut String, n: u128, base: u8, width: usize)
    requires
        2 <= base <= 16,
    ensures
        final(s)@ == old(s)@ + digits_fixed(n as nat, base as nat, width as nat),
    decreases width,
{
    if width == 0 {
        assert(s@ =~= old(s)@ + digits_fixed(n as nat, base as nat, width as nat));
    } else {
        push_fixed(s, n / (base as u128), base, width - 1);
        s.push(digit((n % (base as u128)) as u8));
        assert(s@ =~= old(s)@ + digits_fixed(n as nat, base as nat, width as nat));
    }
}

/// The lowest `width` digits of `n` in base `base`.
pub fn fixed_string(n: u128, base: u8, width: usize) -> (s: String)
    requires
        2 <= base <= 16,
    ensures
        s@ == digits_fixed(n as nat, base as nat, width as nat),
{
    let mut s = String::new();
    push_fixed(&mut s, n, base, width);
    assert(s@ =~= digits_fixed(n as nat, base as nat, width as nat));
    s
}

/// `head`, the decimal form of `n`, then `tail`.
pub fn with_number(head: &str, n: u128, tail: &str) -> (s: String)
    ensures
        s@ == head@ + dec(n as nat) + tail@,
{
    head.to_owned().concat(dec_string(n).as_str()).concat(tail)
}

} // verus!
