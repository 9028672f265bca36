//! Little-endian byte-slice reader with offset tracking.
//!
//! Binary formats parsed by this crate (SSQ, XWB, WAVM) are strictly
//! little-endian and frequently need a byte offset in error messages.
//! `LeReader` wraps a `&[u8]` with a cursor and reports the current
//! position on every EOF, so callers can surface "unexpected EOF at
//! byte N" without threading an offset counter through every call site.
//!
//! The `put_*` functions are the writers' side: each appends one value to a
//! byte vector.

use vstd::prelude::*;
use vstd::slice::slice_subrange;

verus! {

/// The little-endian 16-bit value at `at`.
pub open spec fn le16(b: Seq<u8>, at: int) -> u16 {
    (b[at] + 0x100 * b[at + 1]) as u16
}

/// The little-endian 32-bit value at `at`.
pub open spec fn le32(b: Seq<u8>, at: int) -> u32 {
    (b[at] + 0x100 * b[at + 1] + 0x1_0000 * b[at + 2] + 0x100_0000 * b[at + 3]) as u32
}

/// The two's-complement reading of a 16-bit word.
pub open spec fn signed16(v: u16) -> i16 {
    if v < 0x8000 {
        v as i16
    } else {
        (v - 0x1_0000) as i16
    }
}

/// The two's-complement reading of a 32-bit word.
pub open spec fn signed32(v: u32) -> i32 {
    if v < 0x8000_0000 {
        v as i32
    } else {
        (v - 0x1_0000_0000) as i32
    }
}

/// The word that reads as `v` in two's complement.
pub open spec fn word16(v: i16) -> u16 {
    if v >= 0 {
        v as u16
    } else {
        (v + 0x1_0000) as u16
    }
}

/// The word that reads as `v` in two's complement.
pub open spec fn word32(v: i32) -> u32 {
    if v >= 0 {
        v as u32
    } else {
        (v + 0x1_0000_0000) as u32
    }
}

/// The little-endian signed 16-bit value at `at`.
pub open spec fn sle16(b: Seq<u8>, at: int) -> i16 {
    signed16(le16(b, at))
}

/// The little-endian signed 32-bit value at `at`.
pub open spec fn sle32(b: Seq<u8>, at: int) -> i32 {
    signed32(le32(b, at))
}

/// The two bytes of `v`, low byte first.
pub open spec fn bytes16(v: u16) -> Seq<u8> {
    seq![(v % 0x100) as u8, (v / 0x100) as u8]
}

/// The four bytes of `v`, low byte first.
pub open spec fn bytes32(v: u32) -> Seq<u8> {
    seq![
        (v % 0x100) as u8,
        ((v / 0x100) % 0x100) as u8,
        ((v / 0x1_0000) % 0x100) as u8,
        (v / 0x100_0000) as u8,
    ]
}

/// The bytes of a signed 16-bit value.
pub open spec fn sbytes16(v: i16) -> Seq<u8> {
    bytes16(word16(v))
}

/// The bytes of a signed 32-bit value.
pub open spec fn sbytes32(v: i32) -> Seq<u8> {
    bytes32(word32(v))
}

/// Reading what was written gives back the 16-bit value.
pub proof fn law_le16_round_trip(v: u16)
    ensures
        le16(bytes16(v), 0) == v,
        signed16(word16(signed16(v))) == signed16(v),
        word16(signed16(v)) == v,
{
}

/// Reading what was written gives back the 32-bit value, at any position.
pub proof fn law_le32_round_trip(pre: Seq<u8>, v: u32, post: Seq<u8>)
    ensures
        le32(pre + bytes32(v) + post, pre.len() as int) == v,
        word32(signed32(v)) == v,
{
    let b = pre + bytes32(v) + post;
    let n = pre.len() as int;
    assert(b[n] == bytes32(v)[0]);
    assert(b[n + 1] == bytes32(v)[1]);
    assert(b[n + 2] == bytes32(v)[2]);
    assert(b[n + 3] == bytes32(v)[3]);
}

/// A signed value keeps its word.
pub proof fn law_signed_round_trip(v: i32, w: i16)
    ensures
        signed32(word32(v)) == v,
        signed16(word16(w)) == w,
{
}

/// A value read from bytes writes back as those bytes.
pub proof fn law_bytes_of_read(b: Seq<u8>, at: int)
    requires
        0 <= at,
        at + 4 <= b.len(),
    ensures
        bytes32(le32(b, at)) == b.subrange(at, at + 4),
        bytes16(le16(b, at)) == b.subrange(at, at + 2),
{
    let (b0, b1, b2, b3) = (b[at] as int, b[at + 1] as int, b[at + 2] as int, b[at + 3] as int);
    let v = le32(b, at);
    assert(v % 0x100 == b0);
    assert(v / 0x100 == b1 + 0x100 * b2 + 0x1_0000 * b3);
    assert((v / 0x100) % 0x100 == b1);
    assert(v / 0x1_0000 == b2 + 0x100 * b3);
    assert((v / 0x1_0000) % 0x100 == b2);
    assert(v / 0x100_0000 == b3);
    assert(bytes32(v) =~= b.subrange(at, at + 4));
    assert(bytes16(le16(b, at)) =~= b.subrange(at, at + 2));
}

/// A value lies wholly inside the part of the buffer that it is read from.
pub proof fn lemma_le32_sub(b: Seq<u8>, lo: int, hi: int, at: int)
    requires
        0 <= lo <= hi <= b.len(),
        0 <= at,
        lo + at + 4 <= hi,
    ensures
        le32(b.subrange(lo, hi), at) == le32(b, lo + at),
        le16(b.subrange(lo, hi), at) == le16(b, lo + at),
{
}

/// The bytes of a list of 32-bit words.
pub open spec fn words_bytes(words: Seq<u32>) -> Seq<u8>
    decreases words.len(),
{
    if words.len() == 0 {
        Seq::empty()
    } else {
        words_bytes(words.drop_last()) + bytes32(words.last())
    }
}

/// Reading word `i` of a list of words gives it back, wherever they stand.
pub proof fn lemma_word_at(pre: Seq<u8>, words: Seq<u32>, post: Seq<u8>, i: int)
    requires
        0 <= i < words.len(),
    ensures
        words_bytes(words).len() == 4 * words.len(),
        le32(pre + words_bytes(words) + post, pre.len() + 4 * i) == words[i],
    decreases words.len(),
{
    let head = words_bytes(words.drop_last());
    let last = bytes32(words.last());
    lemma_words_len(words.drop_last());
    if i == words.len() - 1 {
        law_le32_round_trip(pre + head, words.last(), post);
        assert(pre + head + last + post =~= pre + words_bytes(words) + post);
    } else {
        lemma_word_at(pre, words.drop_last(), last + post, i);
        assert(pre + head + (last + post) =~= pre + words_bytes(words) + post);
    }
}

pub proof fn lemma_words_len(words: Seq<u32>)
    ensures
        words_bytes(words).len() == 4 * words.len(),
    decreases words.len(),
{
    if words.len() > 0 {
        lemma_words_len(words.drop_last());
    }
}

/// The bytes of two lists of words follow each other.
pub proof fn lemma_words_concat(a: Seq<u32>, b: Seq<u32>)
    ensures
        words_bytes(a + b) == words_bytes(a) + words_bytes(b),
    decreases b.len(),
{
    if b.len() == 0 {
        assert(a + b =~= a);
        assert(words_bytes(a) + words_bytes(b) =~= words_bytes(a));
    } else {
        lemma_words_concat(a, b.drop_last());
        assert((a + b).drop_last() =~= a + b.drop_last());
        assert(words_bytes(a + b) =~= words_bytes(a) + words_bytes(b));
    }
}

/// Errors from reading past the end of the underlying buffer.
#[derive(Debug, Clone, Copy, PartialEq, Eq, Structural)]
pub enum IoError {
    /// The reader was asked for more bytes than remain in the buffer.
    UnexpectedEof { offset: usize, wanted: usize, remaining: usize },
}

/// Cursor over a byte slice that reads little-endian integers and
/// tracks the current offset for diagnostic purposes.
#[derive(Debug, Clone, Copy)]
pub struct LeReader<'a> {
    buf: &'a [u8],
    offset: usize,
}

impl<'a> LeReader<'a> {
    /// The cursor never leaves the buffer.
    #[verifier::type_invariant]
    pub open spec fn wf(self) -> bool {
        self.at() <= self.bytes().len() <= usize::MAX
    }

    /// The whole buffer.
    pub closed spec fn bytes(self) -> Seq<u8> {
        self.buf@
    }

    /// The read position.
    pub closed spec fn at(self) -> nat {
        self.offset as nat
    }

    /// The error for `wanted` bytes that are not there.
    pub open spec fn eof(self, wanted: int) -> IoError {
        IoError::UnexpectedEof {
            offset: self.at() as usize,
            wanted: wanted as usize,
            remaining: (self.bytes().len() - self.at()) as usize,
        }
    }

    /// Whether a read of `wanted` bytes takes `self` to `after`: it advances
    /// exactly on success.
    pub open spec fn stepped(self, after: Self, wanted: int) -> bool {
        &&& after.bytes() == self.bytes()
        &&& after.at() == self.at() + if self.at() + wanted <= self.bytes().len() {
            wanted
        } else {
            0
        }
    }

    /// Create a reader positioned at the start of `buf`.
    #[must_use]
    pub fn new(buf: &'a [u8]) -> (r: Self)
        ensures
            r.bytes() == buf@,
            r.at() == 0,
    {
        let len: usize = buf.len();
        assert(buf@.len() == len);
        Self { buf, offset: 0 }
    }

    /// Current read position, in bytes from the start of the buffer.
    #[must_use]
    pub fn position(&self) -> (n: usize)
        ensures
            n == self.at(),
    {
        self.offset
    }

    /// Number of unread bytes remaining.
    #[must_use]
    pub fn remaining(&self) -> (n: usize)
        ensures
            n == self.bytes().len() - self.at(),
    {
        proof {
            use_type_invariant(self);
        }
        self.buf.len() - self.offset
    }

    /// Advance the cursor by `len` bytes and return the consumed slice.
    pub fn read_bytes(&mut self, len: usize) -> (r: Result<&'a [u8], IoError>)
        ensures
            old(self).stepped(*final(self), len as int),
            old(self).at() + len <= old(self).bytes().len() ==> r is Ok && r->Ok_0@
                == old(self).bytes().subrange(old(self).at() as int, old(self).at() + len),
            old(self).at() + len > old(self).bytes().len() ==> r is Err && r->Err_0 == old(
                self,
            ).eof(len as int),
    {
        proof {
            use_type_invariant(&*self);
        }
        let left: usize = self.buf.len() - self.offset;
        if len > left {
            return Err(
                IoError::UnexpectedEof { offset: self.offset, wanted: len, remaining: left },
            );
        }
        let end: usize = self.offset + len;
        let slice = slice_subrange(self.buf, self.offset, end);
        self.offset = end;
        Ok(slice)
    }

    /// Read a single unsigned byte.
    pub fn read_u8(&mut self) -> (r: Result<u8, IoError>)
        ensures
            old(self).stepped(*final(self), 1),
            old(self).at() + 1 <= old(self).bytes().len() ==> r is Ok && r->Ok_0
                == old(self).bytes()[old(self).at() as int],
            old(self).at() + 1 > old(self).bytes().len() ==> r is Err && r->Err_0 == old(self).eof(
                1,
            ),
    {
        match self.read_bytes(1) {
            Ok(bytes) => Ok(bytes[0]),
            Err(e) => Err(e),
        }
    }

    /// Read a little-endian `u16`.
    pub fn read_u16(&mut self) -> (r: Result<u16, IoError>)
        ensures
            old(self).stepped(*final(self), 2),
            old(self).at() + 2 <= old(self).bytes().len() ==> r is Ok && r->Ok_0 == le16(
                old(self).bytes(),
                old(self).at() as int,
            ),
            old(self).at() + 2 > old(self).bytes().len() ==> r is Err && r->Err_0 == old(self).eof(
                2,
            ),
    {
        match self.read_bytes(2) {
            Ok(bytes) => Ok(get_u16(bytes, 0)),
            Err(e) => Err(e),
        }
    }

    /// Read a little-endian `u32`.
    pub fn read_u32(&mut self) -> (r: Result<u32, IoError>)
        ensures
            old(self).stepped(*final(self), 4),
            old(self).at() + 4 <= old(self).bytes().len() ==> r is Ok && r->Ok_0 == le32(
                old(self).bytes(),
                old(self).at() as int,
            ),
            old(self).at() + 4 > old(self).bytes().len() ==> r is Err && r->Err_0 == old(self).eof(
                4,
            ),
    {
        match self.read_bytes(4) {
            Ok(bytes) => Ok(get_u32(bytes, 0)),
            Err(e) => Err(e),
        }
    }
}

/// The little-endian `u16` at `at`.
pub fn get_u16(b: &[u8], at: usize) -> (v: u16)
    requires
        at + 2 <= b@.len(),
    ensures
        v == le16(b@, at as int),
{
    b[at] as u16 + 0x100 * b[at + 1] as u16
}

/// The little-endian `u32` at `at`.
pub fn get_u32(b: &[u8], at: usize) -> (v: u32)
    requires
        at + 4 <= b@.len(),
    ensures
        v == le32(b@, at as int),
{
    b[at] as u32 + 0x100 * b[at + 1] as u32 + 0x1_0000 * b[at + 2] as u32 + 0x100_0000
        * b[at + 3] as u32
}

/// The little-endian `i16` at `at`.
pub fn get_i16(b: &[u8], at: usize) -> (v: i16)
    requires
        at + 2 <= b@.len(),
    ensures
        v == sle16(b@, at as int),
{
    to_signed16(get_u16(b, at))
}

/// The little-endian `i32` at `at`.
pub fn get_i32(b: &[u8], at: usize) -> (v: i32)
    requires
        at + 4 <= b@.len(),
    ensures
        v == sle32(b@, at as int),
{
    to_signed32(get_u32(b, at))
}

/// The `n` signed 32-bit values that start at `start`.
pub open spec fn sle32s(b: Seq<u8>, start: int, n: nat) -> Seq<i32> {
    Seq::new(n, |i: int| sle32(b, start + 4 * i))
}

/// The `n` signed 32-bit values that start at `start`.
pub fn get_i32s(b: &[u8], start: usize, n: usize) -> (v: Vec<i32>)
    requires
        start + 4 * n <= b@.len(),
    ensures
        v@ == sle32s(b@, start as int, n as nat),
{
    let mut v: Vec<i32> = Vec::new();
    let mut i: usize = 0;
    let len: usize = b.len();
    while i < n
        invariant
            i <= n,
            start + 4 * n <= b@.len(),
            b@.len() == len,
            v@ =~= sle32s(b@, start as int, i as nat),
        decreases n - i,
    {
        v.push(get_i32(b, start + 4 * i));
        i = i + 1;
    }
    v
}

/// Two's-complement reading of a word.
pub fn to_signed16(v: u16) -> (s: i16)
    ensures
        s == signed16(v),
{
    if v < 0x8000 {
        v as i16
    } else {
        (v as i32 - 0x1_0000) as i16
    }
}

/// Two's-complement reading of a word.
pub fn to_signed32(v: u32) -> (s: i32)
    ensures
        s == signed32(v),
{
    if v < 0x8000_0000 {
        v as i32
    } else {
        (v as i64 - 0x1_0000_0000) as i32
    }
}

/// The word of a signed value.
pub fn to_word16(v: i16) -> (w: u16)
    ensures
        w == word16(v),
{
    if v >= 0 {
        v as u16
    } else {
        (v as i32 + 0x1_0000) as u16
    }
}

/// The word of a signed value.
pub fn to_word32(v: i32) -> (w: u32)
    ensures
        w == word32(v),
{
    if v >= 0 {
        v as u32
    } else {
        (v as i64 + 0x1_0000_0000) as u32
    }
}

/// Append a byte slice.
pub fn put_bytes(out: &mut Vec<u8>, bytes: &[u8])
    ensures
        final(out)@ == old(out)@ + bytes@,
{
    let mut i: usize = 0;
    while i < bytes.len()
        invariant
            i <= bytes@.len(),
            out@ == old(out)@ + bytes@.subrange(0, i as int),
        decreases bytes@.len() - i,
    {
        out.push(bytes[i]);
        i = i + 1;
        assert(bytes@.subrange(0, i as int) =~= bytes@.subrange(0, i - 1).push(bytes@[i - 1]));
    }
    assert(bytes@.subrange(0, i as int) =~= bytes@);
}

/// Append `n` zero bytes.
pub fn put_zeros(out: &mut Vec<u8>, n: usize)
    ensures
        final(out)@ == old(out)@ + Seq::new(n as nat, |i: int| 0u8),
{
    let mut i: usize = 0;
    while i < n
        invariant
            i <= n,
            out@ =~= old(out)@ + Seq::new(i as nat, |j: int| 0u8),
        decreases n - i,
    {
        out.push(0);
        i = i + 1;
    }
}

/// Append a little-endian `u16`.
pub fn put_u16(out: &mut Vec<u8>, v: u16)
    ensures
        final(out)@ == old(out)@ + bytes16(v),
{
    out.push((v % 0x100) as u8);
    out.push((v / 0x100) as u8);
    assert(out@ =~= old(out)@ + bytes16(v));
}

/// Append a little-endian `u32`.
pub fn put_u32(out: &mut Vec<u8>, v: u32)
    ensures
        final(out)@ == old(out)@ + bytes32(v),
{
    out.push((v % 0x100) as u8);
    out.push(((v / 0x100) % 0x100) as u8);
    out.push(((v / 0x1_0000) % 0x100) as u8);
    out.push((v / 0x100_0000) as u8);
    assert(out@ =~= old(out)@ + bytes32(v));
}

/// Append a little-endian `i16`.
pub fn put_i16(out: &mut Vec<u8>, v: i16)
    ensures
        final(out)@ == old(out)@ + sbytes16(v),
{
    put_u16(out, to_word16(v));
}

/// Append a little-endian `i32`.
pub fn put_i32(out: &mut Vec<u8>, v: i32)
    ensures
        final(out)@ == old(out)@ + sbytes32(v),
{
    put_u32(out, to_word32(v));
}

} // verus!
