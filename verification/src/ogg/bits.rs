//! Numbers in a bit stream, low bits first.

use vstd::prelude::*;

verus! {

/// Two to the power of `k`.
pub open spec fn two_to(k: int) -> int
    decreases k,
{
    if k <= 0 {
        1
    } else {
        2 * two_to(k - 1)
    }
}

/// The bit at a position.
pub open spec fn bit_at(p: Seq<u8>, pos: int) -> int {
    (p[pos / 8] as int / two_to(pos % 8)) % 2
}

/// The number that the `n` bits from `pos` on make up.
pub open spec fn number_at(p: Seq<u8>, pos: int, n: nat) -> int
    decreases n,
{
    if n == 0 {
        0
    } else {
        bit_at(p, pos) + 2 * number_at(p, pos + 1, (n - 1) as nat)
    }
}

/// Whether there are `n` bits from `pos` on.
pub open spec fn has_bits(p: Seq<u8>, pos: int, n: int) -> bool {
    pos + n <= 8 * p.len()
}

/// The number of bits that it takes to write `v`.
pub open spec fn bit_length(v: int) -> int
    decreases v,
{
    if v <= 0 {
        0
    } else {
        1 + bit_length(v / 2)
    }
}

pub proof fn lemma_two_to(k: int)
    requires
        0 <= k <= 32,
    ensures
        1 <= two_to(k) <= 0x1_0000_0000,
{
    reveal_with_fuel(two_to, 34);
}

pub proof fn lemma_small_powers()
    ensures
        two_to(1) == 2,
        two_to(2) == 4,
        two_to(3) == 8,
        two_to(4) == 16,
        two_to(5) == 32,
        two_to(6) == 64,
        two_to(8) == 256,
        two_to(16) == 0x1_0000,
{
    reveal_with_fuel(two_to, 18);
}

pub proof fn lemma_number_bound(p: Seq<u8>, pos: int, n: nat)
    ensures
        0 <= number_at(p, pos, n) < two_to(n as int),
    decreases n,
{
    if n > 0 {
        lemma_number_bound(p, pos + 1, (n - 1) as nat);
    }
}

fn small_power(k: u8) -> (w: u8)
    requires
        k < 8,
    ensures
        w == two_to(k as int),
        w > 0,
{
    proof {
        reveal_with_fuel(two_to, 9);
    }
    match k {
        0 => 1,
        1 => 2,
        2 => 4,
        3 => 8,
        4 => 16,
        5 => 32,
        6 => 64,
        _ => 128,
    }
}

/// Read `n` bits.
pub fn number(p: &[u8], pos: u128, n: u8) -> (v: u64)
    requires
        n <= 32,
        has_bits(p@, pos as int, n as int),
    ensures
        v == number_at(p@, pos as int, n as nat),
        v < two_to(n as int),
    decreases n,
{
    if n == 0 {
        return 0;
    }
    proof {
        lemma_two_to(n as int);
        lemma_two_to(n - 1);
    }
    let byte: u8 = p[(pos / 8) as usize];
    let bit: u8 = byte / small_power((pos % 8) as u8) % 2;
    let rest: u64 = number(p, pos + 1, n - 1);
    bit as u64 + 2 * rest
}

/// Whether there are `n` bits from `pos` on.
pub fn enough(p: &[u8], pos: u128, n: u128) -> (b: bool)
    requires
        pos <= 8 * p@.len(),
    ensures
        b == has_bits(p@, pos as int, n as int),
        p@.len() <= u64::MAX,
{
    n <= 8 * p.len() as u128 - pos
}

/// The number of bits that it takes to write `v`.
pub fn length_of(v: u64) -> (n: u8)
    requires
        v < 0x1_0000_0000,
    ensures
        n == bit_length(v as int),
        n <= 32,
        v > 0 ==> n > 0,
{
    let mut n: u8 = 0;
    let mut left: u64 = v;
    let mut cap: u64 = 0x1_0000_0000;
    proof {
        reveal_with_fuel(two_to, 34);
    }
    while left > 0
        invariant
            n <= 32,
            n + bit_length(left as int) == bit_length(v as int),
            left < cap,
            cap == two_to(32 - n),
            v > 0 ==> n > 0 || left > 0,
        decreases left,
    {
        proof {
            if n == 32 {
                assert(two_to(0) == 1);
            }
        }
        left = left / 2;
        n = n + 1;
        cap = cap / 2;
    }
    n
}

/// Bits are taken from the low end of each byte on: eight from the start of a byte are
/// that byte, and what follows a number weighs as much as the number's range.
pub proof fn law_bits_are_taken_from_the_low_end(p: Seq<u8>, pos: int, n: nat, m: nat)
    ensures
        pos >= 0 && pos % 8 == 0 && pos / 8 < p.len() ==> number_at(p, pos, 8) == p[pos / 8],
        number_at(p, pos, n + m) == number_at(p, pos, n) + two_to(n as int) * number_at(
            p,
            pos + n,
            m,
        ),
    decreases n,
{
    if pos >= 0 && pos % 8 == 0 && pos / 8 < p.len() {
        lemma_byte_bits(p, pos);
    }
    if n > 0 {
        law_bits_are_taken_from_the_low_end(p, pos + 1, (n - 1) as nat, m);
        let rest = number_at(p, pos + n, m);
        let t = two_to(n - 1);
        assert((n - 1) as nat + m == (n + m - 1) as nat);
        assert((2 * t) * rest == 2 * (t * rest)) by (nonlinear_arith);
    } else {
        assert(two_to(0) * number_at(p, pos, m) == number_at(p, pos, m));
    }
}

proof fn lemma_byte_bits(p: Seq<u8>, pos: int)
    requires
        pos >= 0,
        pos % 8 == 0,
        pos / 8 < p.len(),
    ensures
        number_at(p, pos, 8) == p[pos / 8],
{
    reveal_with_fuel(number_at, 9);
    reveal_with_fuel(two_to, 9);
    let v = p[pos / 8] as int;
    assert(bit_at(p, pos) == v % 2);
    assert(bit_at(p, pos + 1) == (v / 2) % 2);
    assert(bit_at(p, pos + 2) == (v / 4) % 2);
    assert(bit_at(p, pos + 3) == (v / 8) % 2);
    assert(bit_at(p, pos + 4) == (v / 16) % 2);
    assert(bit_at(p, pos + 5) == (v / 32) % 2);
    assert(bit_at(p, pos + 6) == (v / 64) % 2);
    assert(bit_at(p, pos + 7) == (v / 128) % 2);
    lemma_byte_halves(v);
}

proof fn lemma_byte_halves(x: int)
    requires
        0 <= x < 256,
    ensures
        x == 2 * (x / 2) + x % 2,
        x / 2 == 2 * (x / 4) + (x / 2) % 2,
        x / 4 == 2 * (x / 8) + (x / 4) % 2,
        x / 8 == 2 * (x / 16) + (x / 8) % 2,
        x / 16 == 2 * (x / 32) + (x / 16) % 2,
        x / 32 == 2 * (x / 64) + (x / 32) % 2,
        x / 64 == 2 * (x / 128) + (x / 64) % 2,
        x / 128 == (x / 128) % 2,
{
}

} // verus!
