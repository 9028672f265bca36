//! The floors of a Vorbis setup header, as far as they decide whether the decoder
//! can work with them.
//!
//! The decoder finds out only once audio asks for a floor, so one that it cannot work
//! with is marked and read on from.

use super::bits::{enough, has_bits, lemma_small_powers, number, number_at, two_to};
use super::codebooks::{Book, Halt};
use vstd::prelude::*;

verus! {

/// The books of a floor of type 0: whether each is there and has codewords, and
/// where they end.
pub open spec fn floor0_books(p: Seq<u8>, pos: int, left: nat, books: Seq<Book>, sound: bool) -> Result<
    (bool, int),
    Halt,
>
    decreases left,
{
    if left == 0 {
        Ok((sound, pos))
    } else if !has_bits(p, pos, 8) {
        Err(Halt::Refused)
    } else {
        let b = number_at(p, pos, 8);
        if b > books.len() {
            Err(Halt::Refused)
        } else {
            floor0_books(
                p,
                pos + 8,
                (left - 1) as nat,
                books,
                sound && b < books.len() && books[b].used,
            )
        }
    }
}

/// A floor of type 0, which is sound if its order is at least 2, its bark map is not
/// empty, its amplitude fits a signed word, and its books are.
pub open spec fn floor0(p: Seq<u8>, pos: int, books: Seq<Book>) -> Result<(bool, int), Halt> {
    if !has_bits(p, pos, 58) {
        Err(Halt::Refused)
    } else {
        floor0_books(
            p,
            pos + 58,
            (number_at(p, pos + 54, 4) + 1) as nat,
            books,
            number_at(p, pos, 8) >= 2 && number_at(p, pos + 24, 16) > 0 && number_at(
                p,
                pos + 40,
                6,
            ) <= 30,
        )
    }
}

/// The highest of the first `n` partition classes, or -1.
pub open spec fn top_class(p: Seq<u8>, pos: int, n: nat) -> int
    decreases n,
{
    if n == 0 {
        -1
    } else {
        let before = top_class(p, pos, (n - 1) as nat);
        let c = number_at(p, pos + 4 * (n - 1), 4);
        if c > before {
            c
        } else {
            before
        }
    }
}

/// The books of a class: whether each has codewords, where they end, and the highest
/// value that any of them gives, `high` at least.
pub open spec fn class_books(
    p: Seq<u8>,
    pos: int,
    left: nat,
    books: Seq<Book>,
    sound: bool,
    high: int,
) -> Result<(bool, int, int), Halt>
    decreases left,
{
    if left == 0 {
        Ok((sound, pos, high))
    } else if !has_bits(p, pos, 8) {
        Err(Halt::Refused)
    } else {
        let b = number_at(p, pos, 8);
        if b > books.len() {
            Err(Halt::Refused)
        } else if b == 0 {
            class_books(p, pos + 8, (left - 1) as nat, books, sound, high)
        } else {
            class_books(
                p,
                pos + 8,
                (left - 1) as nat,
                books,
                sound && books[b - 1].used,
                if books[b - 1].last > high {
                    books[b - 1].last as int
                } else {
                    high
                },
            )
        }
    }
}

/// The master book of a class, if it has one: whether it has codewords, and where it
/// ends.
pub open spec fn master_book(p: Seq<u8>, pos: int, subclasses: int, books: Seq<Book>) -> Result<
    (bool, int),
    Halt,
> {
    if subclasses == 0 {
        Ok((true, pos))
    } else if !has_bits(p, pos, 8) {
        Err(Halt::Refused)
    } else if number_at(p, pos, 8) >= books.len() {
        Err(Halt::Refused)
    } else {
        Ok((books[number_at(p, pos, 8)].used, pos + 8))
    }
}

/// The classes of a floor of type 1.
pub struct Classes {
    /// Their dimensions.
    pub dims: Seq<int>,
    /// Whether all their books have codewords.
    pub sound: bool,
    /// The highest value that a book of theirs gives.
    pub high: int,
}

/// The classes that are left, behind those read already, and where they end.
pub open spec fn classes(p: Seq<u8>, pos: int, left: nat, books: Seq<Book>, done: Classes) -> Result<
    (Classes, int),
    Halt,
>
    decreases left,
{
    if left == 0 {
        Ok((done, pos))
    } else if !has_bits(p, pos, 5) {
        Err(Halt::Refused)
    } else {
        let sub = number_at(p, pos + 3, 2);
        match master_book(p, pos + 5, sub, books) {
            Err(e) => Err(e),
            Ok((master, after)) => match class_books(
                p,
                after,
                two_to(sub) as nat,
                books,
                done.sound && master,
                done.high,
            ) {
                Err(e) => Err(e),
                Ok((sound, end, high)) => classes(
                    p,
                    end,
                    (left - 1) as nat,
                    books,
                    Classes { dims: done.dims.push(number_at(p, pos, 3) + 1), sound, high },
                ),
            },
        }
    }
}

/// No classes yet.
pub open spec fn no_classes() -> Classes {
    Classes { dims: Seq::empty(), sound: true, high: 0 }
}

/// The number of points that the first `n` partitions have.
pub open spec fn points(p: Seq<u8>, list: int, n: nat, dims: Seq<int>) -> int
    decreases n,
{
    if n == 0 {
        0
    } else {
        points(p, list, (n - 1) as nat, dims) + dims[number_at(p, list + 4 * (n - 1), 4)]
    }
}

/// The range of a floor's values, by its multiplier.
pub open spec fn floor_range(multiplier: int) -> int {
    if multiplier == 0 {
        256
    } else if multiplier == 1 {
        128
    } else if multiplier == 2 {
        86
    } else {
        64
    }
}

/// A floor of type 1, which is sound if its books are and none gives a value out of
/// the floor's range: the lines between its points are reckoned from them.
pub open spec fn floor1(p: Seq<u8>, pos: int, books: Seq<Book>) -> Result<(bool, int), Halt> {
    if !has_bits(p, pos, 5) {
        Err(Halt::Refused)
    } else {
        let n = number_at(p, pos, 5) as nat;
        if !has_bits(p, pos, 5 + 4 * n as int) {
            Err(Halt::Refused)
        } else {
            let count = (top_class(p, pos + 5, n) + 1) as nat;
            match classes(p, pos + 5 + 4 * n, count, books, no_classes()) {
                Err(e) => Err(e),
                Ok((all, after)) => if !has_bits(p, after, 6) {
                    Err(Halt::Refused)
                } else {
                    let size = 6 + points(p, pos + 5, n, all.dims) * number_at(p, after + 2, 4);
                    if has_bits(p, after, size) {
                        Ok(
                            (
                                all.sound && all.high < floor_range(number_at(p, after, 2)),
                                after + size,
                            ),
                        )
                    } else {
                        Err(Halt::Refused)
                    }
                },
            }
        }
    }
}

/// The floors that are left, behind those read already: which are sound, and where
/// they end.
pub open spec fn floors(p: Seq<u8>, pos: int, left: nat, books: Seq<Book>, done: Seq<bool>) -> Result<
    (Seq<bool>, int),
    Halt,
>
    decreases left,
{
    if left == 0 {
        Ok((done, pos))
    } else if !has_bits(p, pos, 16) {
        Err(Halt::Refused)
    } else {
        let ty = number_at(p, pos, 16);
        let floor = if ty == 0 {
            floor0(p, pos + 16, books)
        } else if ty == 1 {
            floor1(p, pos + 16, books)
        } else {
            Err(Halt::Refused)
        };
        match floor {
            Err(e) => Err(e),
            Ok((sound, end)) => floors(p, end, (left - 1) as nat, books, done.push(sound)),
        }
    }
}

/// What a walk over a part of a header returns.
pub open spec fn reads_like(
    r: Result<(bool, u128), Halt>,
    s: Result<(bool, int), Halt>,
    p: Seq<u8>,
) -> bool {
    match s {
        Ok((sound, end)) => r is Ok && (r->Ok_0).0 == sound && (r->Ok_0).1 == end && end <= 8
            * p.len(),
        Err(e) => r == Err::<(bool, u128), Halt>(e),
    }
}

fn read_floor0(p: &[u8], pos: u128, books: &Vec<Book>) -> (r: Result<(bool, u128), Halt>)
    requires
        pos <= 8 * p@.len(),
    ensures
        reads_like(r, floor0(p@, pos as int, books@), p@),
{
    proof {
        lemma_small_powers();
    }
    if !enough(p, pos, 58) {
        return Err(Halt::Refused);
    }
    let mut sound = number(p, pos, 8) >= 2 && number(p, pos + 24, 16) > 0 && number(p, pos + 40, 6)
        <= 30;
    let mut left: u64 = number(p, pos + 54, 4) + 1;
    let mut at: u128 = pos + 58;
    while left > 0
        invariant
            at <= 8 * p@.len(),
            left <= 16,
            floor0(p@, pos as int, books@) == floor0_books(
                p@,
                at as int,
                left as nat,
                books@,
                sound,
            ),
        decreases left,
    {
        if !enough(p, at, 8) {
            return Err(Halt::Refused);
        }
        let b: u64 = number(p, at, 8);
        proof {
            lemma_small_powers();
        }
        if b as usize > books.len() {
            return Err(Halt::Refused);
        }
        sound = sound && (b as usize) < books.len() && books[b as usize].used;
        at = at + 8;
        left = left - 1;
    }
    Ok((sound, at))
}

fn read_master_book(p: &[u8], pos: u128, subclasses: u64, books: &Vec<Book>) -> (r: Result<
    (bool, u128),
    Halt,
>)
    requires
        pos <= 8 * p@.len(),
    ensures
        reads_like(r, master_book(p@, pos as int, subclasses as int, books@), p@),
{
    if subclasses == 0 {
        return Ok((true, pos));
    }
    if !enough(p, pos, 8) {
        return Err(Halt::Refused);
    }
    proof {
        lemma_small_powers();
    }
    let b: u64 = number(p, pos, 8);
    if b as usize >= books.len() {
        return Err(Halt::Refused);
    }
    Ok((books[b as usize].used, pos + 8))
}

fn read_class_books(
    p: &[u8],
    start: u128,
    count: u64,
    books: &Vec<Book>,
    before: bool,
    least: u64,
) -> (r: Result<(bool, u128, u64), Halt>)
    requires
        start <= 8 * p@.len(),
    ensures
        match class_books(p@, start as int, count as nat, books@, before, least as int) {
            Ok((sound, end, high)) => r is Ok && (r->Ok_0).0 == sound && (r->Ok_0).1 == end && (
            r->Ok_0).2 == high && end <= 8 * p@.len(),
            Err(e) => r == Err::<(bool, u128, u64), Halt>(e),
        },
{
    let mut at: u128 = start;
    let mut left: u64 = count;
    let mut sound = before;
    let mut high: u64 = least;
    while left > 0
        invariant
            at <= 8 * p@.len(),
            class_books(p@, start as int, count as nat, books@, before, least as int)
                == class_books(p@, at as int, left as nat, books@, sound, high as int),
        decreases left,
    {
        if !enough(p, at, 8) {
            return Err(Halt::Refused);
        }
        proof {
            lemma_small_powers();
        }
        let b: u64 = number(p, at, 8);
        if b as usize > books.len() {
            return Err(Halt::Refused);
        }
        if b > 0 {
            let book: Book = books[b as usize - 1];
            sound = sound && book.used;
            if book.last as u64 > high {
                high = book.last as u64;
            }
        }
        at = at + 8;
        left = left - 1;
    }
    Ok((sound, at, high))
}

/// The number of books of a class.
fn subclass_books(sub: u64) -> (n: u64)
    requires
        sub < 4,
    ensures
        n == two_to(sub as int),
{
    proof {
        reveal_with_fuel(two_to, 5);
    }
    if sub == 0 {
        1
    } else if sub == 1 {
        2
    } else if sub == 2 {
        4
    } else {
        8
    }
}

/// Small numbers.
pub open spec fn numbers(list: Seq<u64>) -> Seq<int> {
    Seq::new(list.len(), |i: int| list[i] as int)
}

fn read_classes(p: &[u8], start: u128, count: u64, books: &Vec<Book>) -> (r: Result<
    (Vec<u64>, u128, bool, u64),
    Halt,
>)
    requires
        start <= 8 * p@.len(),
    ensures
        match classes(p@, start as int, count as nat, books@, no_classes()) {
            Ok((all, end)) => r is Ok && numbers((r->Ok_0).0@) == all.dims && (r->Ok_0).1 == end && (
            r->Ok_0).2 == all.sound && (r->Ok_0).3 == all.high && end <= 8 * p@.len()
                && all.dims.len() == count && forall|i: int|
                0 <= i < all.dims.len() ==> 1 <= #[trigger] all.dims[i] <= 8,
            Err(e) => r == Err::<(Vec<u64>, u128, bool, u64), Halt>(e),
        },
{
    let mut dims: Vec<u64> = Vec::new();
    let mut at: u128 = start;
    let mut left: u64 = count;
    let mut sound = true;
    let mut high: u64 = 0;
    assert(numbers(dims@) =~= Seq::empty());
    while left > 0
        invariant
            at <= 8 * p@.len(),
            left <= count,
            dims@.len() + left == count,
            forall|i: int| 0 <= i < dims@.len() ==> 1 <= #[trigger] dims@[i] <= 8,
            classes(p@, start as int, count as nat, books@, no_classes()) == classes(
                p@,
                at as int,
                left as nat,
                books@,
                (Classes { dims: numbers(dims@), sound, high: high as int }),
            ),
        decreases left,
    {
        if !enough(p, at, 5) {
            return Err(Halt::Refused);
        }
        proof {
            lemma_small_powers();
        }
        let d: u64 = number(p, at, 3) + 1;
        let sub: u64 = number(p, at + 3, 2);
        let (master, after) = match read_master_book(p, at + 5, sub, books) {
            Ok(q) => q,
            Err(e) => return Err(e),
        };
        let (fine, end, top) = match read_class_books(
            p,
            after,
            subclass_books(sub),
            books,
            sound && master,
            high,
        ) {
            Ok(q) => q,
            Err(e) => return Err(e),
        };
        let ghost before = dims@;
        dims.push(d);
        assert(numbers(dims@) =~= numbers(before).push(d as int));
        at = end;
        sound = fine;
        high = top;
        left = left - 1;
    }
    Ok((dims, at, sound, high))
}

proof fn lemma_top_class(p: Seq<u8>, pos: int, n: nat)
    ensures
        -1 <= top_class(p, pos, n) < 16,
        forall|k: int| 0 <= k < n ==> 0 <= #[trigger] number_at(p, pos + 4 * k, 4) <= top_class(
            p,
            pos,
            n,
        ),
    decreases n,
{
    if n > 0 {
        lemma_top_class(p, pos, (n - 1) as nat);
        super::bits::lemma_number_bound(p, pos + 4 * (n - 1), 4);
        lemma_small_powers();
        assert forall|k: int| 0 <= k < n implies 0 <= #[trigger] number_at(p, pos + 4 * k, 4)
            <= top_class(p, pos, n) by {
            if k < n - 1 {
                assert(number_at(p, pos + 4 * k, 4) <= top_class(p, pos, (n - 1) as nat));
            }
        }
    }
}

fn read_floor1(p: &[u8], pos: u128, books: &Vec<Book>) -> (r: Result<(bool, u128), Halt>)
    requires
        pos <= 8 * p@.len(),
    ensures
        reads_like(r, floor1(p@, pos as int, books@), p@),
{
    proof {
        lemma_small_powers();
    }
    if !enough(p, pos, 5) {
        return Err(Halt::Refused);
    }
    let n: u64 = number(p, pos, 5);
    if !enough(p, pos, 5 + 4 * n as u128) {
        return Err(Halt::Refused);
    }
    let list: u128 = pos + 5;
    let mut count: u64 = 0;
    let mut k: u64 = 0;
    while k < n
        invariant
            k <= n <= 32,
            has_bits(p@, pos as int, 5 + 4 * n),
            p@.len() <= u64::MAX,
            list == pos + 5,
            count == top_class(p@, list as int, k as nat) + 1,
        decreases n - k,
    {
        proof {
            lemma_small_powers();
        }
        let c: u64 = number(p, list + 4 * k as u128, 4);
        if c + 1 > count {
            count = c + 1;
        }
        k = k + 1;
    }
    proof {
        lemma_top_class(p@, list as int, n as nat);
    }
    let (dims, after, sound, high) = match read_classes(p, list + 4 * n as u128, count, books) {
        Ok(c) => c,
        Err(e) => return Err(e),
    };
    if !enough(p, after, 6) {
        return Err(Halt::Refused);
    }
    proof {
        lemma_small_powers();
    }
    let multiplier: u64 = number(p, after, 2);
    let range: u64 = if multiplier == 0 {
        256
    } else if multiplier == 1 {
        128
    } else if multiplier == 2 {
        86
    } else {
        64
    };
    let mut total: u64 = 0;
    let mut i: u64 = 0;
    let ghost d = numbers(dims@);
    while i < n
        invariant
            i <= n <= 32,
            has_bits(p@, pos as int, 5 + 4 * n),
            p@.len() <= u64::MAX,
            list == pos + 5,
            d == numbers(dims@),
            dims@.len() == top_class(p@, list as int, n as nat) + 1,
            forall|k: int| 0 <= k < d.len() ==> 1 <= #[trigger] d[k] <= 8,
            total == points(p@, list as int, i as nat, d),
            total <= 8 * i,
        decreases n - i,
    {
        proof {
            lemma_top_class(p@, list as int, n as nat);
            assert(number_at(p@, list + 4 * i, 4) <= top_class(p@, list as int, n as nat));
        }
        let c: u64 = number(p, list + 4 * i as u128, 4);
        assert(d[c as int] == dims@[c as int]);
        total = total + dims[c as usize];
        i = i + 1;
    }
    let width: u64 = number(p, after + 2, 4);
    proof {
        assert(total * width <= 256 * 16) by (nonlinear_arith)
            requires
                0 <= total <= 256,
                0 <= width <= 16,
        ;
    }
    let size: u128 = 6 + (total * width) as u128;
    if !enough(p, after, size) {
        return Err(Halt::Refused);
    }
    Ok((sound && high < range, after + size))
}

/// Read floors.
pub fn read_floors(p: &[u8], start: u128, count: u64, books: &Vec<Book>) -> (r: Result<
    (Vec<bool>, u128),
    Halt,
>)
    requires
        start <= 8 * p@.len(),
    ensures
        match floors(p@, start as int, count as nat, books@, Seq::empty()) {
            Ok((list, end)) => r is Ok && (r->Ok_0).0@ == list && (r->Ok_0).1 == end && end <= 8
                * p@.len() && list.len() == count,
            Err(e) => r == Err::<(Vec<bool>, u128), Halt>(e),
        },
{
    let mut list: Vec<bool> = Vec::new();
    let mut at: u128 = start;
    let mut left: u64 = count;
    assert(list@ =~= Seq::empty());
    while left > 0
        invariant
            at <= 8 * p@.len(),
            list@.len() + left == count,
            floors(p@, start as int, count as nat, books@, Seq::empty()) == floors(
                p@,
                at as int,
                left as nat,
                books@,
                list@,
            ),
        decreases left,
    {
        if !enough(p, at, 16) {
            return Err(Halt::Refused);
        }
        let ty: u64 = number(p, at, 16);
        let floor = if ty == 0 {
            read_floor0(p, at + 16, books)
        } else if ty == 1 {
            read_floor1(p, at + 16, books)
        } else {
            Err(Halt::Refused)
        };
        match floor {
            Ok((sound, end)) => {
                list.push(sound);
                at = end;
            },
            Err(e) => return Err(e),
        }
        left = left - 1;
    }
    Ok((list, at))
}

} // verus!
