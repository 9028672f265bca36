//! The codebooks of a Vorbis setup header, as far as they decide whether the
//! decoder can work with them.

use super::bits::{bit_length, enough, has_bits, length_of, number, number_at};
use vstd::prelude::*;

verus! {

/// Why a header is not read to its end.
#[derive(Debug, Clone, Copy, PartialEq, Eq, Structural)]
pub enum Halt {
    /// The header is malformed, and the decoder says so.
    Refused,
    /// The decoder cannot be trusted with the header: it would fail to return.
    Hazard,
}

/// What matters of a codebook.
#[derive(Debug, Clone, Copy, PartialEq, Eq, Structural)]
pub struct Book {
    /// Values in a vector.
    pub dimensions: u32,
    /// Whether any entry has a codeword.
    pub used: bool,
    /// The last entry with a codeword.
    pub last: u32,
    /// Whether entries stand for vectors.
    pub lookup: bool,
}

/// The most that the codebooks of a header may hold, entries and values of tables
/// together. The decoder spreads every table out, and one that is a few bytes in the
/// header may stand for more than any memory holds.
pub const MOST_VALUES: u64 = 0x1000_0000;

/// One more than the greatest number of entries.
pub const ENTRIES_END: u64 = 0x100_0000;

/// The codeword lengths of entries `i` and on, each written out: whether any
/// entry is used, the last one that is, and where the lengths end.
pub open spec fn listed_lengths(
    p: Seq<u8>,
    pos: int,
    entries: int,
    i: int,
    sparse: bool,
    used: bool,
    last: int,
) -> Result<(bool, int, int), Halt>
    decreases entries - i,
{
    if i >= entries {
        Ok((used, last, pos))
    } else if !sparse {
        if has_bits(p, pos, 5) {
            listed_lengths(p, pos + 5, entries, i + 1, sparse, true, i)
        } else {
            Err(Halt::Refused)
        }
    } else if !has_bits(p, pos, 1) {
        Err(Halt::Refused)
    } else if number_at(p, pos, 1) == 0 {
        listed_lengths(p, pos + 1, entries, i + 1, sparse, used, last)
    } else if has_bits(p, pos, 6) {
        listed_lengths(p, pos + 6, entries, i + 1, sparse, true, i)
    } else {
        Err(Halt::Refused)
    }
}

/// The codeword lengths from entry `i` on, in ascending order: how many entries
/// have each length. A length is counted in eight bits.
pub open spec fn ordered_lengths(
    p: Seq<u8>,
    pos: int,
    entries: int,
    i: int,
    length: int,
    used: bool,
    last: int,
) -> Result<(bool, int, int), Halt>
    decreases 8 * p.len() - pos,
{
    if i >= entries {
        Ok((used, last, pos))
    } else {
        let n = bit_length(entries - i);
        if n <= 0 || !has_bits(p, pos, n) {
            Err(Halt::Refused)
        } else if length >= 255 {
            Err(Halt::Hazard)
        } else {
            let more = number_at(p, pos, n as nat);
            if i + more > entries {
                Err(Halt::Refused)
            } else {
                ordered_lengths(
                    p,
                    pos + n,
                    entries,
                    i + more,
                    length + 1,
                    used || more > 0,
                    if more > 0 {
                        i + more - 1
                    } else {
                        last
                    },
                )
            }
        }
    }
}

/// `base` to the power of `n`.
pub open spec fn power(base: int, n: nat) -> int
    decreases n,
{
    if n == 0 {
        1
    } else {
        base * power(base, (n - 1) as nat)
    }
}

/// The greatest number from `v` on whose power does not exceed `entries`.
pub open spec fn root_from(entries: int, dimensions: nat, v: int) -> int
    decreases entries - v,
{
    if v >= entries || power(v + 1, dimensions) > entries {
        v
    } else {
        root_from(entries, dimensions, v + 1)
    }
}

/// The lookup table of a codebook: whether there is one, and where it ends. It may
/// hold `room` values.
pub open spec fn lookup_table(p: Seq<u8>, pos: int, entries: int, dimensions: int, room: int) -> Result<
    (bool, int),
    Halt,
> {
    if !has_bits(p, pos, 4) {
        Err(Halt::Refused)
    } else {
        let ty = number_at(p, pos, 4);
        if ty > 2 {
            Err(Halt::Refused)
        } else if ty == 0 {
            Ok((false, pos + 4))
        } else if !has_bits(p, pos, 73) {
            Err(Halt::Refused)
        } else if entries * dimensions > room || (ty == 1 && dimensions == 0 && entries > 0) {
            Err(Halt::Hazard)
        } else {
            let width = number_at(p, pos + 68, 4) + 1;
            let values = if ty == 1 {
                root_from(entries, dimensions as nat, 0)
            } else {
                entries * dimensions
            };
            if has_bits(p, pos, 73 + values * width) {
                Ok((true, pos + 73 + values * width))
            } else {
                Err(Halt::Refused)
            }
        }
    }
}

/// One codebook, where it ends, and how much room it leaves.
pub open spec fn codebook(p: Seq<u8>, pos: int, room: int) -> Result<(Book, int, int), Halt> {
    if !has_bits(p, pos, 66) || number_at(p, pos, 24) != 0x564342 {
        Err(Halt::Refused)
    } else {
        let dimensions = number_at(p, pos + 24, 16);
        let entries = number_at(p, pos + 40, 24);
        let lengths = if number_at(p, pos + 64, 1) == 0 {
            listed_lengths(p, pos + 66, entries, 0, number_at(p, pos + 65, 1) == 1, false, 0)
        } else if has_bits(p, pos, 70) {
            ordered_lengths(
                p,
                pos + 70,
                entries,
                0,
                number_at(p, pos + 65, 5) + 1,
                false,
                0,
            )
        } else {
            Err(Halt::Refused)
        };
        if entries > room {
            Err(Halt::Hazard)
        } else {
            match lengths {
                Err(e) => Err(e),
                Ok((used, last, after)) => match lookup_table(
                    p,
                    after,
                    entries,
                    dimensions,
                    room - entries,
                ) {
                    Err(e) => Err(e),
                    Ok((lookup, end)) => Ok(
                        (
                            Book {
                                dimensions: dimensions as u32,
                                used,
                                last: last as u32,
                                lookup,
                            },
                            end,
                            room - entries - if lookup {
                                entries * dimensions
                            } else {
                                0
                            },
                        ),
                    ),
                },
            }
        }
    }
}

/// The codebooks that are left, behind those read already.
pub open spec fn codebooks(p: Seq<u8>, pos: int, left: nat, books: Seq<Book>, room: int) -> Result<
    (Seq<Book>, int),
    Halt,
>
    decreases left,
{
    if left == 0 {
        Ok((books, pos))
    } else {
        match codebook(p, pos, room) {
            Err(e) => Err(e),
            Ok((book, end, rest)) => codebooks(
                p,
                end,
                (left - 1) as nat,
                books.push(book),
                rest,
            ),
        }
    }
}

fn listed_lengths_of(p: &[u8], start: u128, entries: u64, sparse: bool) -> (r: Result<
    (bool, u64, u128),
    Halt,
>)
    requires
        start <= 8 * p@.len(),
        entries < ENTRIES_END,
    ensures
        match listed_lengths(p@, start as int, entries as int, 0, sparse, false, 0) {
            Ok((used, last, end)) => r is Ok && (r->Ok_0).0 == used && (r->Ok_0).1 == last && (
            r->Ok_0).2 == end && end <= 8 * p@.len() && 0 <= last < ENTRIES_END,
            Err(e) => r == Err::<(bool, u64, u128), Halt>(e),
        },
{
    let mut pos: u128 = start;
    let mut i: u64 = 0;
    let mut used = false;
    let mut last: u64 = 0;
    while i < entries
        invariant
            i <= entries < ENTRIES_END,
            pos <= 8 * p@.len(),
            last < ENTRIES_END,
            listed_lengths(p@, start as int, entries as int, 0, sparse, false, 0) == listed_lengths(
                p@,
                pos as int,
                entries as int,
                i as int,
                sparse,
                used,
                last as int,
            ),
        decreases entries - i,
    {
        if !sparse {
            if !enough(p, pos, 5) {
                return Err(Halt::Refused);
            }
            pos = pos + 5;
            used = true;
            last = i;
        } else {
            if !enough(p, pos, 1) {
                return Err(Halt::Refused);
            }
            if number(p, pos, 1) == 0 {
                pos = pos + 1;
            } else {
                if !enough(p, pos, 6) {
                    return Err(Halt::Refused);
                }
                pos = pos + 6;
                used = true;
                last = i;
            }
        }
        i = i + 1;
    }
    Ok((used, last, pos))
}

fn ordered_lengths_of(p: &[u8], start: u128, entries: u64, first: u64) -> (r: Result<
    (bool, u64, u128),
    Halt,
>)
    requires
        start <= 8 * p@.len(),
        entries < ENTRIES_END,
        first <= 32,
    ensures
        match ordered_lengths(p@, start as int, entries as int, 0, first as int, false, 0) {
            Ok((used, last, end)) => r is Ok && (r->Ok_0).0 == used && (r->Ok_0).1 == last && (
            r->Ok_0).2 == end && end <= 8 * p@.len() && 0 <= last < ENTRIES_END,
            Err(e) => r == Err::<(bool, u64, u128), Halt>(e),
        },
{
    let mut pos: u128 = start;
    let mut i: u64 = 0;
    let mut length: u64 = first;
    let mut used = false;
    let mut last: u64 = 0;
    while i < entries
        invariant
            i <= entries < ENTRIES_END,
            pos <= 8 * p@.len(),
            length <= 255,
            last < ENTRIES_END,
            ordered_lengths(p@, start as int, entries as int, 0, first as int, false, 0)
                == ordered_lengths(
                p@,
                pos as int,
                entries as int,
                i as int,
                length as int,
                used,
                last as int,
            ),
        decreases 8 * p@.len() - pos,
    {
        let n: u8 = length_of(entries - i);
        if !enough(p, pos, n as u128) {
            return Err(Halt::Refused);
        }
        if length >= 255 {
            return Err(Halt::Hazard);
        }
        proof {
            super::bits::lemma_two_to(n as int);
        }
        let more: u64 = number(p, pos, n);
        if more > entries - i {
            return Err(Halt::Refused);
        }
        if more > 0 {
            used = true;
            last = i + more - 1;
        }
        pos = pos + n as u128;
        i = i + more;
        length = length + 1;
    }
    Ok((used, last, pos))
}

proof fn lemma_power_grows(base: int, m: nat, n: nat)
    requires
        base >= 1,
        m <= n,
    ensures
        1 <= power(base, m) <= power(base, n),
    decreases n,
{
    if m < n {
        lemma_power_grows(base, m, (n - 1) as nat);
        let x = power(base, (n - 1) as nat);
        assert(base * x >= x) by (nonlinear_arith)
            requires
                base >= 1,
                x >= 1,
        ;
    } else if n > 0 {
        lemma_power_grows(base, (n - 1) as nat, (n - 1) as nat);
        let x = power(base, (n - 1) as nat);
        assert(base * x >= 1) by (nonlinear_arith)
            requires
                base >= 1,
                x >= 1,
        ;
    }
}

/// Whether a power exceeds a limit.
fn power_exceeds(base: u64, n: u64, limit: u64) -> (b: bool)
    requires
        1 <= base <= ENTRIES_END,
        limit < ENTRIES_END,
    ensures
        b == (power(base as int, n as nat) > limit),
{
    let mut acc: u64 = 1;
    let mut k: u64 = 0;
    while k < n
        invariant
            1 <= base <= ENTRIES_END,
            limit < ENTRIES_END,
            k <= n,
            acc == power(base as int, k as nat),
            acc <= limit || k == 0,
            acc < ENTRIES_END,
        decreases n - k,
    {
        proof {
            assert(base * acc <= 0x100_0000 * 0x100_0000) by (nonlinear_arith)
                requires
                    0 <= base <= 0x100_0000,
                    0 <= acc <= 0x100_0000,
            ;
        }
        acc = base * acc;
        k = k + 1;
        if acc > limit {
            proof {
                lemma_power_grows(base as int, k as nat, n as nat);
            }
            return true;
        }
    }
    acc > limit
}

fn root_of(entries: u64, dimensions: u64) -> (v: u64)
    requires
        entries < ENTRIES_END,
    ensures
        v == root_from(entries as int, dimensions as nat, 0),
        v <= entries,
{
    let mut v: u64 = 0;
    while v < entries && !power_exceeds(v + 1, dimensions, entries)
        invariant
            v <= entries < ENTRIES_END,
            root_from(entries as int, dimensions as nat, 0) == root_from(
                entries as int,
                dimensions as nat,
                v as int,
            ),
        decreases entries - v,
    {
        v = v + 1;
    }
    v
}

fn lookup_table_of(p: &[u8], pos: u128, entries: u64, dimensions: u64, room: u64) -> (r: Result<
    (bool, u128),
    Halt,
>)
    requires
        pos <= 8 * p@.len(),
        entries < ENTRIES_END,
        dimensions <= 0xFFFF,
        entries * dimensions <= 0x100_0000 * 0x1_0000,
    ensures
        match lookup_table(p@, pos as int, entries as int, dimensions as int, room as int) {
            Ok((lookup, end)) => r is Ok && (r->Ok_0).0 == lookup && (r->Ok_0).1 == end && end <= 8
                * p@.len() && (lookup ==> entries * dimensions <= room),
            Err(e) => r == Err::<(bool, u128), Halt>(e),
        },
{
    if !enough(p, pos, 4) {
        return Err(Halt::Refused);
    }
    let ty: u64 = number(p, pos, 4);
    if ty > 2 {
        return Err(Halt::Refused);
    }
    if ty == 0 {
        return Ok((false, pos + 4));
    }
    if !enough(p, pos, 73) {
        return Err(Halt::Refused);
    }
    if entries * dimensions > room || (ty == 1 && dimensions == 0 && entries > 0) {
        return Err(Halt::Hazard);
    }
    proof {
        super::bits::lemma_two_to(4);
        reveal_with_fuel(super::bits::two_to, 6);
    }
    let width: u64 = number(p, pos + 68, 4) + 1;
    let values: u64 = if ty == 1 {
        root_of(entries, dimensions)
    } else {
        entries * dimensions
    };
    proof {
        assert(values * width <= 0x100_0000_0000 * 16) by (nonlinear_arith)
            requires
                0 <= values <= 0x100_0000_0000,
                0 <= width <= 16,
        ;
    }
    let size: u128 = 73 + (values * width) as u128;
    if !enough(p, pos, size) {
        return Err(Halt::Refused);
    }
    Ok((true, pos + size))
}

fn codebook_at(p: &[u8], pos: u128, room: u64) -> (r: Result<(Book, u128, u64), Halt>)
    requires
        pos <= 8 * p@.len(),
    ensures
        match codebook(p@, pos as int, room as int) {
            Ok((book, end, rest)) => r is Ok && (r->Ok_0).0 == book && (r->Ok_0).1 == end && (
            r->Ok_0).2 == rest && end <= 8 * p@.len(),
            Err(e) => r == Err::<(Book, u128, u64), Halt>(e),
        },
{
    if !enough(p, pos, 66) || number(p, pos, 24) != 0x564342 {
        return Err(Halt::Refused);
    }
    proof {
        reveal_with_fuel(super::bits::two_to, 26);
    }
    let dimensions: u64 = number(p, pos + 24, 16);
    let entries: u64 = number(p, pos + 40, 24);
    proof {
        assert(entries * dimensions <= 0x100_0000 * 0x1_0000) by (nonlinear_arith)
            requires
                entries <= 0x100_0000,
                dimensions <= 0x1_0000,
        ;
    }
    if entries > room {
        return Err(Halt::Hazard);
    }
    let (used, last, after) = if number(p, pos + 64, 1) == 0 {
        let sparse = number(p, pos + 65, 1) == 1;
        match listed_lengths_of(p, pos + 66, entries, sparse) {
            Ok(l) => l,
            Err(e) => return Err(e),
        }
    } else {
        if !enough(p, pos, 70) {
            return Err(Halt::Refused);
        }
        let first: u64 = number(p, pos + 65, 5) + 1;
        match ordered_lengths_of(p, pos + 70, entries, first) {
            Ok(l) => l,
            Err(e) => return Err(e),
        }
    };
    match lookup_table_of(p, after, entries, dimensions, room - entries) {
        Ok((lookup, end)) => {
            let rest: u64 = if lookup {
                room - entries - entries * dimensions
            } else {
                room - entries
            };
            Ok((Book { dimensions: dimensions as u32, used, last: last as u32, lookup }, end, rest))
        },
        Err(e) => Err(e),
    }
}

/// Read codebooks.
pub fn read_codebooks(p: &[u8], start: u128, count: u64) -> (r: Result<(Vec<Book>, u128), Halt>)
    requires
        start <= 8 * p@.len(),
        count <= 256,
    ensures
        match codebooks(p@, start as int, count as nat, Seq::empty(), MOST_VALUES as int) {
            Ok((books, end)) => r is Ok && (r->Ok_0).0@ == books && (r->Ok_0).1 == end && end <= 8
                * p@.len() && books.len() == count,
            Err(e) => r == Err::<(Vec<Book>, u128), Halt>(e),
        },
{
    let mut books: Vec<Book> = Vec::new();
    let mut pos: u128 = start;
    let mut left: u64 = count;
    let mut room: u64 = MOST_VALUES;
    assert(books@ =~= Seq::empty());
    while left > 0
        invariant
            pos <= 8 * p@.len(),
            left <= count,
            books@.len() + left == count,
            codebooks(p@, start as int, count as nat, Seq::empty(), MOST_VALUES as int)
                == codebooks(p@, pos as int, left as nat, books@, room as int),
        decreases left,
    {
        match codebook_at(p, pos, room) {
            Ok((book, end, rest)) => {
                books.push(book);
                pos = end;
                room = rest;
            },
            Err(e) => return Err(e),
        }
        left = left - 1;
    }
    Ok((books, pos))
}

} // verus!
