//! Text as sequences of characters: trimming, splitting and comparing.

use vstd::prelude::*;

verus! {

/// Whether `c` has the Unicode property White_Space.
pub open spec fn is_space(c: char) -> bool {
    let n = c as u32;
    (0x9 <= n <= 0xD) || n == 0x20 || n == 0x85 || n == 0xA0 || n == 0x1680 || (0x2000 <= n
        <= 0x200A) || n == 0x2028 || n == 0x2029 || n == 0x202F || n == 0x205F || n == 0x3000
}

/// `s` without its leading white space.
pub open spec fn trimmed_start(s: Seq<char>) -> Seq<char>
    decreases s.len(),
{
    if s.len() > 0 && is_space(s[0]) {
        trimmed_start(s.skip(1))
    } else {
        s
    }
}

/// `s` without its trailing white space.
pub open spec fn trimmed_end(s: Seq<char>) -> Seq<char>
    decreases s.len(),
{
    if s.len() > 0 && is_space(s.last()) {
        trimmed_end(s.drop_last())
    } else {
        s
    }
}

/// `s` without the white space around it.
pub open spec fn trimmed(s: Seq<char>) -> Seq<char> {
    trimmed_end(trimmed_start(s))
}

/// The pieces of `s` between the separators: one more than there are
/// separators.
pub open spec fn split(s: Seq<char>, sep: char) -> Seq<Seq<char>>
    decreases s.len(),
{
    if s.len() == 0 {
        seq![Seq::empty()]
    } else {
        let before = split(s.drop_last(), sep);
        if s.last() == sep {
            before.push(Seq::empty())
        } else {
            before.drop_last().push(before.last().push(s.last()))
        }
    }
}

/// The position of the first `c` from `i` on.
pub open spec fn first_at(s: Seq<char>, c: char, i: int) -> Option<int>
    decreases s.len() - i,
{
    if i >= s.len() {
        None
    } else if s[i] == c {
        Some(i)
    } else {
        first_at(s, c, i + 1)
    }
}

/// The parts of `s` before and behind the first `c`.
pub open spec fn split_once(s: Seq<char>, c: char) -> Option<(Seq<char>, Seq<char>)> {
    match first_at(s, c, 0) {
        Some(i) => Some((s.subrange(0, i), s.subrange(i + 1, s.len() as int))),
        None => None,
    }
}

/// The upper-case form of an ASCII letter, other characters unchanged.
pub open spec fn upper_char(c: char) -> char {
    if 'a' <= c && c <= 'z' {
        (c as u32 - 32) as char
    } else {
        c
    }
}

/// `s` with its ASCII letters in upper case.
pub open spec fn upper(s: Seq<char>) -> Seq<char> {
    Seq::new(s.len(), |i: int| upper_char(s[i]))
}

/// The contents of a list of texts.
pub open spec fn texts(v: Seq<Vec<char>>) -> Seq<Seq<char>> {
    Seq::new(v.len(), |i: int| v[i]@)
}

/// The characters of a text.
pub fn chars_of(s: &str) -> (v: Vec<char>)
    ensures
        v@ == s@,
{
    let mut v: Vec<char> = Vec::new();
    for c in it: s.chars()
        invariant
            v@ == it.seq().take(it.index() as int),
            it.seq() == s@,
    {
        v.push(c);
    }
    assert(v@ =~= s@);
    v
}

/// The text made up of some characters.
pub fn string_of(v: &Vec<char>) -> (s: String)
    ensures
        s@ == v@,
{
    let mut s = String::new();
    let mut i: usize = 0;
    while i < v.len()
        invariant
            i <= v@.len(),
            s@ =~= v@.subrange(0, i as int),
        decreases v@.len() - i,
    {
        s.push(v[i]);
        i = i + 1;
    }
    assert(v@.subrange(0, i as int) =~= v@);
    s
}

/// Part of a text.
pub fn part(v: &Vec<char>, from: usize, to: usize) -> (p: Vec<char>)
    requires
        from <= to <= v@.len(),
    ensures
        p@ == v@.subrange(from as int, to as int),
{
    let mut p: Vec<char> = Vec::new();
    let mut i: usize = from;
    while i < to
        invariant
            from <= i <= to <= v@.len(),
            p@ =~= v@.subrange(from as int, i as int),
        decreases to - i,
    {
        p.push(v[i]);
        i = i + 1;
    }
    p
}

/// Whether `c` is white space.
pub fn is_whitespace(c: char) -> (b: bool)
    ensures
        b == is_space(c),
{
    let n: u32 = c as u32;
    (0x9 <= n && n <= 0xD) || n == 0x20 || n == 0x85 || n == 0xA0 || n == 0x1680 || (0x2000 <= n
        && n <= 0x200A) || n == 0x2028 || n == 0x2029 || n == 0x202F || n == 0x205F || n == 0x3000
}

/// Where the leading white space ends.
pub proof fn lemma_trimmed_start(s: Seq<char>, i: int)
    requires
        0 <= i <= s.len(),
        forall|k: int| 0 <= k < i ==> is_space(#[trigger] s[k]),
        i < s.len() ==> !is_space(s[i]),
    ensures
        trimmed_start(s) == s.skip(i),
    decreases i,
{
    if i == 0 {
        assert(s.skip(0) =~= s);
    } else {
        assert(is_space(s[0]));
        assert forall|k: int| 0 <= k < i - 1 implies is_space(#[trigger] s.skip(1)[k]) by {
            assert(s.skip(1)[k] == s[k + 1]);
        }
        lemma_trimmed_start(s.skip(1), i - 1);
        assert(s.skip(1).skip(i - 1) =~= s.skip(i));
    }
}

/// Where the trailing white space starts.
pub proof fn lemma_trimmed_end(s: Seq<char>, j: int)
    requires
        0 <= j <= s.len(),
        forall|k: int| j <= k < s.len() ==> is_space(#[trigger] s[k]),
        j > 0 ==> !is_space(s[j - 1]),
    ensures
        trimmed_end(s) == s.subrange(0, j),
    decreases s.len(),
{
    if j == s.len() {
        assert(s.subrange(0, j) =~= s);
    } else {
        assert(is_space(s[s.len() - 1]));
        lemma_trimmed_end(s.drop_last(), j);
        assert(s.drop_last().subrange(0, j) =~= s.subrange(0, j));
    }
}

/// A text without the white space around it.
pub fn trim(v: &Vec<char>) -> (t: Vec<char>)
    ensures
        t@ == trimmed(v@),
{
    let mut i: usize = 0;
    while i < v.len() && is_whitespace(v[i])
        invariant
            i <= v@.len(),
            forall|k: int| 0 <= k < i ==> is_space(#[trigger] v@[k]),
        decreases v@.len() - i,
    {
        i = i + 1;
    }
    let mut j: usize = v.len();
    while j > i && is_whitespace(v[j - 1])
        invariant
            i <= j <= v@.len(),
            forall|k: int| j <= k < v@.len() ==> is_space(#[trigger] v@[k]),
        decreases j,
    {
        j = j - 1;
    }
    proof {
        lemma_trimmed_start(v@, i as int);
        let s = v@.skip(i as int);
        assert forall|k: int| j - i <= k < s.len() implies is_space(#[trigger] s[k]) by {
            assert(s[k] == v@[k + i]);
        }
        lemma_trimmed_end(s, j - i);
        assert(s.subrange(0, j - i) =~= v@.subrange(i as int, j as int));
    }
    part(v, i, j)
}

proof fn lemma_split_nonempty(s: Seq<char>, sep: char)
    ensures
        split(s, sep).len() > 0,
    decreases s.len(),
{
    if s.len() > 0 {
        lemma_split_nonempty(s.drop_last(), sep);
    }
}

/// Split a text at each separator.
pub fn split_at(v: &Vec<char>, sep: char) -> (pieces: Vec<Vec<char>>)
    ensures
        texts(pieces@) == split(v@, sep),
{
    let mut pieces: Vec<Vec<char>> = Vec::new();
    let mut cur: Vec<char> = Vec::new();
    let mut i: usize = 0;
    proof {
        let none = v@.subrange(0, 0);
        assert(none =~= Seq::empty());
        assert(texts(pieces@).push(cur@) =~= split(none, sep));
    }
    while i < v.len()
        invariant
            i <= v@.len(),
            texts(pieces@).push(cur@) == split(v@.subrange(0, i as int), sep),
        decreases v@.len() - i,
    {
        let c: char = v[i];
        let ghost now = v@.subrange(0, i + 1);
        let ghost before = texts(pieces@);
        assert(now.drop_last() =~= v@.subrange(0, i as int));
        assert(now.last() == c);
        if c == sep {
            let ghost piece = cur@;
            pieces.push(cur);
            cur = Vec::new();
            assert(texts(pieces@) =~= before.push(piece));
            assert(texts(pieces@).push(cur@) =~= split(now, sep));
        } else {
            let ghost piece = cur@;
            cur.push(c);
            assert(before.push(piece).drop_last() =~= before);
            assert(texts(pieces@).push(cur@) =~= split(now, sep));
        }
        i = i + 1;
    }
    assert(v@.subrange(0, i as int) =~= v@);
    let ghost before = texts(pieces@);
    let ghost piece = cur@;
    pieces.push(cur);
    assert(texts(pieces@) =~= before.push(piece));
    pieces
}

/// Split a text at the first separator.
pub fn split_first(v: &Vec<char>, sep: char) -> (r: Option<(Vec<char>, Vec<char>)>)
    ensures
        match split_once(v@, sep) {
            Some((a, b)) => r is Some && (r->0).0@ == a && (r->0).1@ == b,
            None => r is None,
        },
{
    let mut i: usize = 0;
    while i < v.len() && v[i] != sep
        invariant
            i <= v@.len(),
            first_at(v@, sep, 0) == first_at(v@, sep, i as int),
        decreases v@.len() - i,
    {
        i = i + 1;
    }
    if i < v.len() {
        Some((part(v, 0, i), part(v, i + 1, v.len())))
    } else {
        None
    }
}

/// A text with its ASCII letters in upper case.
pub fn to_upper(v: &Vec<char>) -> (u: Vec<char>)
    ensures
        u@ == upper(v@),
{
    let mut u: Vec<char> = Vec::new();
    let mut i: usize = 0;
    while i < v.len()
        invariant
            i <= v@.len(),
            u@ =~= upper(v@).subrange(0, i as int),
        decreases v@.len() - i,
    {
        let c: char = v[i];
        if 'a' <= c && c <= 'z' {
            u.push((c as u8 - 32) as char);
        } else {
            u.push(c);
        }
        i = i + 1;
    }
    u
}

/// Whether a text reads `word`.
pub fn reads(v: &Vec<char>, word: &str) -> (b: bool)
    ensures
        b == (v@ == word@),
{
    let w = chars_of(word);
    if v.len() != w.len() {
        return false;
    }
    let mut i: usize = 0;
    while i < v.len()
        invariant
            i <= v@.len(),
            v@.len() == w@.len(),
            w@ == word@,
            forall|k: int| 0 <= k < i ==> v@[k] == w@[k],
        decreases v@.len() - i,
    {
        if v[i] != w[i] {
            return false;
        }
        i = i + 1;
    }
    assert(v@ =~= w@);
    true
}

/// The lower-case form of an ASCII letter, other characters unchanged.
pub open spec fn lower_char(c: char) -> char {
    if 'A' <= c && c <= 'Z' {
        (c as u32 + 32) as char
    } else {
        c
    }
}

/// `s` with its ASCII letters in lower case.
pub open spec fn lower(s: Seq<char>) -> Seq<char> {
    Seq::new(s.len(), |i: int| lower_char(s[i]))
}

/// `s` without `suffix`, if it ends with it.
pub open spec fn without_suffix(s: Seq<char>, suffix: Seq<char>) -> Seq<char> {
    let n = s.len() - suffix.len();
    if n >= 0 && s.subrange(n, s.len() as int) == suffix {
        s.subrange(0, n)
    } else {
        s
    }
}

/// Whether `a` comes before `b` in the order of code points, from position `i` on.
pub open spec fn before_from(a: Seq<char>, b: Seq<char>, i: int) -> bool
    decreases b.len() - i,
{
    if i >= b.len() {
        false
    } else if i >= a.len() {
        true
    } else if a[i] != b[i] {
        a[i] < b[i]
    } else {
        before_from(a, b, i + 1)
    }
}

/// Whether `a` comes before `b` in the order of code points.
pub open spec fn text_before(a: Seq<char>, b: Seq<char>) -> bool {
    before_from(a, b, 0)
}

/// A text with its ASCII letters in lower case.
pub fn to_lower(v: &Vec<char>) -> (u: Vec<char>)
    ensures
        u@ == lower(v@),
{
    let mut u: Vec<char> = Vec::new();
    let mut i: usize = 0;
    while i < v.len()
        invariant
            i <= v@.len(),
            u@ =~= lower(v@).subrange(0, i as int),
        decreases v@.len() - i,
    {
        let c: char = v[i];
        if 'A' <= c && c <= 'Z' {
            u.push((c as u8 + 32) as char);
        } else {
            u.push(c);
        }
        i = i + 1;
    }
    u
}

/// A text without the suffix, if it ends with it.
pub fn strip_suffix(v: &Vec<char>, suffix: &str) -> (s: Vec<char>)
    ensures
        s@ == without_suffix(v@, suffix@),
{
    let k: usize = chars_of(suffix).len();
    let len: usize = v.len();
    if k > len {
        let s = part(v, 0, len);
        assert(s@ =~= v@);
        return s;
    }
    if reads(&part(v, len - k, len), suffix) {
        part(v, 0, len - k)
    } else {
        let s = part(v, 0, len);
        assert(s@ =~= v@);
        s
    }
}

/// Whether two texts are the same.
pub fn same_text(a: &Vec<char>, b: &Vec<char>) -> (r: bool)
    ensures
        r == (a@ == b@),
{
    reads(a, string_of(b).as_str())
}

/// Whether `a` comes before `b` in the order of code points.
pub fn is_text_before(a: &Vec<char>, b: &Vec<char>) -> (r: bool)
    ensures
        r == text_before(a@, b@),
{
    let mut i: usize = 0;
    while i < b.len()
        invariant
            i <= b@.len(),
            i <= a@.len(),
            text_before(a@, b@) == before_from(a@, b@, i as int),
        decreases b@.len() - i,
    {
        if i >= a.len() {
            return true;
        }
        if a[i] != b[i] {
            return a[i] < b[i];
        }
        i = i + 1;
    }
    false
}

} // verus!
