//! The residues of a Vorbis setup header, as far as they decide whether the decoder
//! can work with them. As with floors, the decoder finds out only once audio asks.

use super::bits::{enough, has_bits, lemma_small_powers, number, number_at, two_to};
use super::codebooks::{Book, Halt};
use super::floors::{numbers, reads_like};
use vstd::prelude::*;

verus! {

/// What matters of a residue.
#[derive(Debug, Clone, Copy, PartialEq, Eq, Structural)]
pub struct Residue {
    /// Whether the channels are coded as one.
    pub joint: bool,
    /// Whether the decoder can work with its books.
    pub sound: bool,
}

/// The passes of each classification of a residue, as a set of bits, and where
/// they end.
pub open spec fn cascades(p: Seq<u8>, pos: int, left: nat, done: Seq<int>) -> Result<
    (Seq<int>, int),
    Halt,
>
    decreases left,
{
    if left == 0 {
        Ok((done, pos))
    } else if !has_bits(p, pos, 4) {
        Err(Halt::Refused)
    } else if number_at(p, pos + 3, 1) == 0 {
        cascades(p, pos + 4, (left - 1) as nat, done.push(number_at(p, pos, 3)))
    } else if !has_bits(p, pos, 9) {
        Err(Halt::Refused)
    } else {
        cascades(
            p,
            pos + 9,
            (left - 1) as nat,
            done.push(number_at(p, pos, 3) + 8 * number_at(p, pos + 4, 5)),
        )
    }
}

/// Whether a residue can be read with a book that stands for vectors.
pub open spec fn residue_book_ok(ty: int, book: Book) -> bool {
    book.used && (ty == 0 ==> book.dimensions > 0)
}

/// The books of one classification, pass by pass: whether the decoder can work with
/// them, and where they end. The book of the eighth pass is not written: it is the
/// first.
pub open spec fn pass_books(
    p: Seq<u8>,
    pos: int,
    ty: int,
    cascade: int,
    pass: int,
    books: Seq<Book>,
    sound: bool,
) -> Result<(bool, int), Halt>
    decreases 8 - pass,
{
    if pass >= 8 {
        Ok((sound, pos))
    } else if (cascade / two_to(pass)) % 2 == 0 {
        pass_books(p, pos, ty, cascade, pass + 1, books, sound)
    } else if pass == 7 {
        Ok((sound && books[0].lookup && residue_book_ok(ty, books[0]), pos))
    } else if !has_bits(p, pos, 8) {
        Err(Halt::Refused)
    } else {
        let b = number_at(p, pos, 8);
        if b >= books.len() || !books[b].lookup {
            Err(Halt::Refused)
        } else {
            pass_books(
                p,
                pos + 8,
                ty,
                cascade,
                pass + 1,
                books,
                sound && residue_book_ok(ty, books[b]),
            )
        }
    }
}

/// The books of the classifications from `k` on.
pub open spec fn residue_books(
    p: Seq<u8>,
    pos: int,
    ty: int,
    list: Seq<int>,
    k: int,
    books: Seq<Book>,
    sound: bool,
) -> Result<(bool, int), Halt>
    decreases list.len() - k,
{
    if k >= list.len() {
        Ok((sound, pos))
    } else {
        match pass_books(p, pos, ty, list[k], 0, books, sound) {
            Err(e) => Err(e),
            Ok((fine, q)) => residue_books(p, q, ty, list, k + 1, books, fine),
        }
    }
}

/// One residue, and where it ends.
pub open spec fn residue(p: Seq<u8>, pos: int, books: Seq<Book>) -> Result<(Residue, int), Halt> {
    if !has_bits(p, pos, 102) {
        Err(Halt::Refused)
    } else {
        let ty = number_at(p, pos, 16);
        let class_book = number_at(p, pos + 94, 8);
        if ty > 2 {
            Err(Halt::Refused)
        } else {
            match cascades(
                p,
                pos + 102,
                (number_at(p, pos + 88, 6) + 1) as nat,
                Seq::empty(),
            ) {
                Err(e) => Err(e),
                Ok((list, after)) => match residue_books(p, after, ty, list, 0, books, true) {
                    Err(e) => Err(e),
                    Ok((sound, end)) => if class_book >= books.len() {
                        Err(Halt::Refused)
                    } else {
                        Ok(
                            (
                                Residue { joint: ty == 2, sound: sound && books[class_book].used },
                                end,
                            ),
                        )
                    },
                },
            }
        }
    }
}

/// The residues that are left, behind those read already.
pub open spec fn residues(
    p: Seq<u8>,
    pos: int,
    left: nat,
    books: Seq<Book>,
    done: Seq<Residue>,
) -> Result<(Seq<Residue>, int), Halt>
    decreases left,
{
    if left == 0 {
        Ok((done, pos))
    } else {
        match residue(p, pos, books) {
            Err(e) => Err(e),
            Ok((r, end)) => residues(p, end, (left - 1) as nat, books, done.push(r)),
        }
    }
}

fn read_cascades(p: &[u8], start: u128, count: u64) -> (r: Result<(Vec<u64>, u128), Halt>)
    requires
        start <= 8 * p@.len(),
    ensures
        match cascades(p@, start as int, count as nat, Seq::empty()) {
            Ok((list, end)) => r is Ok && numbers((r->Ok_0).0@) == list && (r->Ok_0).1 == end
                && end <= 8 * p@.len(),
            Err(e) => r == Err::<(Vec<u64>, u128), Halt>(e),
        },
{
    let mut list: Vec<u64> = Vec::new();
    let mut at: u128 = start;
    let mut left: u64 = count;
    assert(numbers(list@) =~= Seq::empty());
    while left > 0
        invariant
            at <= 8 * p@.len(),
            cascades(p@, start as int, count as nat, Seq::empty()) == cascades(
                p@,
                at as int,
                left as nat,
                numbers(list@),
            ),
        decreases left,
    {
        if !enough(p, at, 4) {
            return Err(Halt::Refused);
        }
        proof {
            lemma_small_powers();
        }
        let low: u64 = number(p, at, 3);
        let ghost before = list@;
        if number(p, at + 3, 1) == 0 {
            list.push(low);
            at = at + 4;
            assert(numbers(list@) =~= numbers(before).push(low as int));
        } else {
            if !enough(p, at, 9) {
                return Err(Halt::Refused);
            }
            let c: u64 = low + 8 * number(p, at + 4, 5);
            list.push(c);
            at = at + 9;
            assert(numbers(list@) =~= numbers(before).push(c as int));
        }
        left = left - 1;
    }
    Ok((list, at))
}

fn residue_book_fits(ty: u64, book: &Book) -> (b: bool)
    ensures
        b == residue_book_ok(ty as int, *book),
{
    book.used && (ty != 0 || book.dimensions > 0)
}

fn read_pass_books(
    p: &[u8],
    start: u128,
    ty: u64,
    cascade: u64,
    books: &Vec<Book>,
    before: bool,
) -> (r: Result<(bool, u128), Halt>)
    requires
        start <= 8 * p@.len(),
        books@.len() > 0,
    ensures
        reads_like(
            r,
            pass_books(p@, start as int, ty as int, cascade as int, 0, books@, before),
            p@,
        ),
{
    let mut at: u128 = start;
    let mut sound = before;
    let mut pass: u8 = 0;
    let mut weight: u64 = 1;
    while pass < 8
        invariant
            pass <= 8,
            at <= 8 * p@.len(),
            books@.len() > 0,
            weight == two_to(pass as int),
            1 <= weight <= 256,
            pass_books(p@, start as int, ty as int, cascade as int, 0, books@, before)
                == pass_books(
                p@,
                at as int,
                ty as int,
                cascade as int,
                pass as int,
                books@,
                sound,
            ),
        decreases 8 - pass,
    {
        if (cascade / weight) % 2 != 0 {
            if pass == 7 {
                return Ok((sound && books[0].lookup && residue_book_fits(ty, &books[0]), at));
            }
            if !enough(p, at, 8) {
                return Err(Halt::Refused);
            }
            proof {
                lemma_small_powers();
            }
            let b: u64 = number(p, at, 8);
            if b as usize >= books.len() || !books[b as usize].lookup {
                return Err(Halt::Refused);
            }
            sound = sound && residue_book_fits(ty, &books[b as usize]);
            at = at + 8;
        }
        proof {
            reveal_with_fuel(two_to, 10);
        }
        weight = 2 * weight;
        pass = pass + 1;
    }
    Ok((sound, at))
}

fn read_residue(p: &[u8], pos: u128, books: &Vec<Book>) -> (r: Result<(Residue, u128), Halt>)
    requires
        pos <= 8 * p@.len(),
        books@.len() > 0,
    ensures
        match residue(p@, pos as int, books@) {
            Ok((v, end)) => r is Ok && (r->Ok_0).0 == v && (r->Ok_0).1 == end && end <= 8 * p@.len(),
            Err(e) => r == Err::<(Residue, u128), Halt>(e),
        },
{
    if !enough(p, pos, 102) {
        return Err(Halt::Refused);
    }
    proof {
        lemma_small_powers();
    }
    let ty: u64 = number(p, pos, 16);
    if ty > 2 {
        return Err(Halt::Refused);
    }
    let class_book: u64 = number(p, pos + 94, 8);
    let (list, after) = match read_cascades(p, pos + 102, number(p, pos + 88, 6) + 1) {
        Ok(c) => c,
        Err(e) => return Err(e),
    };
    let mut at: u128 = after;
    let mut sound = true;
    let mut k: usize = 0;
    let ghost l = numbers(list@);
    while k < list.len()
        invariant
            k <= list@.len(),
            at <= 8 * p@.len(),
            books@.len() > 0,
            l == numbers(list@),
            has_bits(p@, pos as int, 102),
            ty == number_at(p@, pos as int, 16),
            ty <= 2,
            cascades(
                p@,
                pos + 102,
                (number_at(p@, pos + 88, 6) + 1) as nat,
                Seq::empty(),
            ) == Ok::<(Seq<int>, int), Halt>((l, after as int)),
            residue_books(p@, after as int, ty as int, l, 0, books@, true) == residue_books(
                p@,
                at as int,
                ty as int,
                l,
                k as int,
                books@,
                sound,
            ),
        decreases list@.len() - k,
    {
        assert(l[k as int] == list@[k as int]);
        match read_pass_books(p, at, ty, list[k], books, sound) {
            Ok((fine, q)) => {
                sound = fine;
                at = q;
            },
            Err(e) => return Err(e),
        }
        k = k + 1;
    }
    if class_book as usize >= books.len() {
        return Err(Halt::Refused);
    }
    Ok((Residue { joint: ty == 2, sound: sound && books[class_book as usize].used }, at))
}

/// Read residues.
pub fn read_residues(p: &[u8], start: u128, count: u64, books: &Vec<Book>) -> (r: Result<
    (Vec<Residue>, u128),
    Halt,
>)
    requires
        start <= 8 * p@.len(),
        books@.len() > 0,
    ensures
        match residues(p@, start as int, count as nat, books@, Seq::empty()) {
            Ok((list, end)) => r is Ok && (r->Ok_0).0@ == list && (r->Ok_0).1 == end && end <= 8
                * p@.len() && list.len() == count,
            Err(e) => r == Err::<(Vec<Residue>, u128), Halt>(e),
        },
{
    let mut list: Vec<Residue> = Vec::new();
    let mut at: u128 = start;
    let mut left: u64 = count;
    assert(list@ =~= Seq::empty());
    while left > 0
        invariant
            at <= 8 * p@.len(),
            books@.len() > 0,
            list@.len() + left == count,
            residues(p@, start as int, count as nat, books@, Seq::empty()) == residues(
                p@,
                at as int,
                left as nat,
                books@,
                list@,
            ),
        decreases left,
    {
        match read_residue(p, at, books) {
            Ok((v, end)) => {
                list.push(v);
                at = end;
            },
            Err(e) => return Err(e),
        }
        left = left - 1;
    }
    Ok((list, at))
}

} // verus!
