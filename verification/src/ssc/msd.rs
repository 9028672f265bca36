//! MSD tokenizer — shared between SSC and SM parsers.
//!
//! MSD is the text format used by StepMania's simfile formats.
//! Each value is written as `#PARAM0:PARAM1:PARAM2;`:
//!
//! - `#` starts a new value
//! - `:` separates params within a value
//! - `;` terminates the value
//! - `//` begins a line comment (consumed silently)
//! - If a `#` appears at the start of a new line while a value is still
//!   open, we recover as if the missing `;` were present (some real
//!   files author without the terminator; StepMania tolerates this).
//! - Backslash escapes the next character (enabled by default).

use crate::util::chars::{
    chars_of, is_space, is_whitespace, lemma_trimmed_end, part, string_of, to_upper, trimmed_end,
    upper,
};
use vstd::prelude::*;

verus! {

/// One parsed MSD value. `params[0]` is conventionally the tag name
/// (e.g. `"TITLE"`, `"NOTES"`, `"NOTEDATA"`); later entries are the
/// value's sub-fields.
#[derive(Debug, Clone, PartialEq, Eq)]
pub struct MsdValue {
    pub params: Vec<String>,
}

impl View for MsdValue {
    type V = Seq<Seq<char>>;

    open spec fn view(&self) -> Seq<Seq<char>> {
        strings_view(self.params@)
    }
}

/// The contents of a list of strings.
pub open spec fn strings_view(v: Seq<String>) -> Seq<Seq<char>> {
    Seq::new(v.len(), |i: int| v[i]@)
}

/// The contents of a list of values.
pub open spec fn values_view(v: Seq<MsdValue>) -> Seq<Seq<Seq<char>>> {
    Seq::new(v.len(), |i: int| v[i]@)
}

/// The parameter numbered `n`, empty where there is none.
pub open spec fn param_of(v: Seq<Seq<char>>, n: int) -> Seq<char> {
    if n < v.len() {
        v[n]
    } else {
        Seq::empty()
    }
}

/// The tag of a value, in upper case.
pub open spec fn tag_of(v: Seq<Seq<char>>) -> Seq<char> {
    upper(param_of(v, 0))
}

impl MsdValue {
    /// Tag name (uppercase-canonicalized), or empty if the value had
    /// no params.
    #[must_use]
    pub fn tag(&self) -> (s: String)
        ensures
            s@ == tag_of(self@),
    {
        string_of(&to_upper(&chars_of(self.param(0))))
    }

    /// Nth sub-field of the value, or `""` if absent.
    #[must_use]
    pub fn param(&self, n: usize) -> (s: &str)
        ensures
            s@ == param_of(self@, n as int),
    {
        if n < self.params.len() {
            self.params[n].as_str()
        } else {
            proof {
                reveal_strlit("");
            }
            assert(""@ =~= Seq::<char>::empty());
            ""
        }
    }
}

/// Where the line that holds position `i` of `b` ends: at its line feed, or at
/// the end of the input.
pub open spec fn line_end(b: Seq<char>, i: int) -> int
    decreases b.len() - i,
{
    if i >= b.len() || b[i] == '\n' {
        i
    } else {
        line_end(b, i + 1)
    }
}

pub proof fn lemma_line_end(b: Seq<char>, i: int)
    requires
        0 <= i,
    ensures
        i <= line_end(b, i),
        i < b.len() ==> line_end(b, i) <= b.len(),
    decreases b.len() - i,
{
    if i >= b.len() || b[i] == '\n' {
    } else {
        lemma_line_end(b, i + 1);
    }
}

/// Whether nothing but white space stands behind the last line break of `s`.
pub open spec fn at_line_start(s: Seq<char>) -> bool
    decreases s.len(),
{
    if s.len() == 0 || s.last() == '\n' || s.last() == '\r' {
        true
    } else {
        is_space(s.last()) && at_line_start(s.drop_last())
    }
}

/// The tokenizer between two characters.
#[verifier::ext_equal]
pub struct Scan {
    /// The values so far, the open one without its current parameter.
    pub out: Seq<Seq<Seq<char>>>,
    /// Whether a value is open.
    pub reading: bool,
    /// The current parameter so far.
    pub cur: Seq<char>,
}

/// `out` with one more parameter in its last value.
pub open spec fn with_param(out: Seq<Seq<Seq<char>>>, p: Seq<char>) -> Seq<Seq<Seq<char>>> {
    out.drop_last().push(out.last().push(p))
}

/// The values that `b` holds from `i` on, added to those of `s`.
pub open spec fn scanned(b: Seq<char>, i: int, s: Scan) -> Seq<Seq<Seq<char>>>
    decreases b.len() - i, (if s.reading { 1int } else { 0int }),
{
    if i >= b.len() {
        if s.reading && s.cur.len() > 0 {
            with_param(s.out, s.cur)
        } else {
            s.out
        }
    } else if i < 0 {
        s.out
    } else if i + 1 < b.len() && b[i] == '/' && b[i + 1] == '/' {
        // "//" hides the rest of its line.
        let end = line_end(b, i);
        if i < end <= b.len() {
            scanned(b, end, s)
        } else {
            s.out
        }
    } else if !s.reading {
        if b[i] == '#' {
            // "#" opens a value.
            scanned(
                b,
                i + 1,
                Scan { out: s.out.push(Seq::empty()), reading: true, cur: Seq::empty() },
            )
        } else {
            scanned(b, i + 1, s)
        }
    } else if b[i] == '#' && at_line_start(s.cur) {
        // "#" on a new line closes the open value.
        scanned(
            b,
            i,
            Scan {
                out: with_param(s.out, trimmed_end(s.cur)),
                reading: false,
                cur: Seq::empty(),
            },
        )
    } else if b[i] == ':' {
        // ":" closes a parameter.
        scanned(
            b,
            i + 1,
            Scan { out: with_param(s.out, s.cur), reading: true, cur: Seq::empty() },
        )
    } else if b[i] == ';' {
        // ";" closes the value.
        scanned(
            b,
            i + 1,
            Scan { out: with_param(s.out, s.cur), reading: false, cur: Seq::empty() },
        )
    } else if b[i] == '\\' && i + 1 < b.len() {
        // A backslash takes the next character as it is.
        scanned(b, i + 2, Scan { cur: s.cur.push(b[i + 1]), ..s })
    } else {
        scanned(b, i + 1, Scan { cur: s.cur.push(b[i]), ..s })
    }
}

/// The tokenizer at the start of the input.
pub open spec fn fresh() -> Scan {
    Scan { out: Seq::empty(), reading: false, cur: Seq::empty() }
}

/// The values of a text.
pub open spec fn tokens(text: Seq<char>) -> Seq<Seq<Seq<char>>> {
    scanned(text, 0, fresh())
}

/// True when `cur` (the current param being built) is empty or
/// contains only trailing whitespace since the last newline. Used to
/// decide whether a `#` should trigger missing-`;` recovery.
fn is_first_non_whitespace_on_line(cur: &Vec<char>) -> (b: bool)
    ensures
        b == at_line_start(cur@),
{
    let mut n: usize = cur.len();
    assert(cur@.subrange(0, n as int) =~= cur@);
    while n > 0
        invariant
            n <= cur@.len(),
            at_line_start(cur@) == at_line_start(cur@.subrange(0, n as int)),
        decreases n,
    {
        let c: char = cur[n - 1];
        assert(cur@.subrange(0, n as int).drop_last() =~= cur@.subrange(0, n - 1));
        if c == '\n' || c == '\r' {
            return true;
        }
        if !is_whitespace(c) {
            return false;
        }
        n = n - 1;
    }
    true
}

/// `s` without its trailing white space.
fn without_trailing_whitespace(s: &Vec<char>) -> (t: Vec<char>)
    ensures
        t@ == trimmed_end(s@),
{
    let mut n: usize = s.len();
    while n > 0 && is_whitespace(s[n - 1])
        invariant
            n <= s@.len(),
            forall|k: int| n <= k < s@.len() ==> is_space(#[trigger] s@[k]),
        decreases n,
    {
        n = n - 1;
    }
    proof {
        lemma_trimmed_end(s@, n as int);
    }
    part(s, 0, n)
}

/// Close the current parameter of the last value.
fn finalize_param(out: &mut Vec<MsdValue>, cur: &Vec<char>)
    requires
        old(out)@.len() > 0,
    ensures
        values_view(final(out)@) == with_param(values_view(old(out)@), cur@),
        final(out)@.len() == old(out)@.len(),
{
    let ghost before = out@;
    match out.pop() {
        Some(mut value) => {
            let ghost params = value.params@;
            value.params.push(string_of(cur));
            let ghost kept = out@;
            assert(strings_view(value.params@) =~= strings_view(params).push(cur@));
            out.push(value);
            assert(values_view(out@) =~= with_param(values_view(before), cur@));
        },
        None => {},
    }
}

/// Tokenize the full input string into a list of MSD values.
#[must_use]
pub fn tokenize(input: &str) -> (out: Vec<MsdValue>)
    ensures
        values_view(out@) == tokens(input@),
{
    let chars = chars_of(input);
    let len: usize = chars.len();
    let ghost b = chars@;
    let mut out: Vec<MsdValue> = Vec::new();
    let mut i: usize = 0;
    let mut reading_value = false;
    let mut cur: Vec<char> = Vec::new();
    assert(values_view(out@) =~= fresh().out);
    assert(cur@ =~= fresh().cur);
    while i < len
        invariant
            b == chars@,
            len == b.len(),
            i <= len,
            b == input@,
            reading_value ==> out@.len() > 0,
            scanned(
                b,
                i as int,
                (Scan { out: values_view(out@), reading: reading_value, cur: cur@ }),
            ) == tokens(input@),
        decreases len - i, (if reading_value { 1int } else { 0int }),
    {
        let c: char = chars[i];
        if i < len - 1 && c == '/' && chars[i + 1] == '/' {
            // Line comment — skip to end of line.
            let start: usize = i;
            while i < len && chars[i] != '\n'
                invariant
                    b == chars@,
                    len == b.len(),
                    start <= i <= len,
                    line_end(b, start as int) == line_end(b, i as int),
                decreases len - i,
            {
                i = i + 1;
            }
            assert(start < i) by {
                lemma_line_end(b, start + 1);
            }
        } else if !reading_value {
            // Everything outside a value is ignored (whitespace, stray
            // characters, comments already handled above).
            if c == '#' {
                let ghost before = out@;
                let params: Vec<String> = Vec::new();
                out.push(MsdValue { params });
                assert(strings_view(params@) =~= Seq::empty());
                assert(values_view(out@) =~= values_view(before).push(Seq::empty()));
                reading_value = true;
                cur = Vec::new();
                assert(cur@ =~= Seq::empty());
            }
            i = i + 1;
        } else if c == '#' && is_first_non_whitespace_on_line(&cur) {
            // Missing-`;` recovery: a `#` at the start of a line while
            // still inside a value closes the current value.
            let kept = without_trailing_whitespace(&cur);
            finalize_param(&mut out, &kept);
            cur = Vec::new();
            assert(cur@ =~= Seq::empty());
            reading_value = false;
        } else if c == ':' {
            finalize_param(&mut out, &cur);
            cur = Vec::new();
            assert(cur@ =~= Seq::empty());
            i = i + 1;
        } else if c == ';' {
            finalize_param(&mut out, &cur);
            cur = Vec::new();
            assert(cur@ =~= Seq::empty());
            reading_value = false;
            i = i + 1;
        } else if c == '\\' && i < len - 1 {
            // Backslash escape: consume next character verbatim.
            cur.push(chars[i + 1]);
            i = i + 2;
        } else {
            cur.push(c);
            i = i + 1;
        }
    }
    // Flush any unterminated value.
    if reading_value && cur.len() > 0 {
        finalize_param(&mut out, &cur);
    }
    out
}

} // verus!
