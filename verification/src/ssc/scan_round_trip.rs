//! Tag lines read back as values.

use super::msd::{at_line_start, fresh, scanned, tokens, with_param, Scan};
use super::writer::tag_text;
use vstd::prelude::*;

verus! {

/// Whether a text stands in a value as it is: nothing in it ends a
/// parameter or escapes, no `#` starts a line, and no comment starts in it.
pub open spec fn scannable(v: Seq<char>) -> bool {
    forall|i: int|
        0 <= i < v.len() ==> {
            let c = #[trigger] v[i];
            &&& c != ':'
            &&& c != ';'
            &&& c != '\\'
            &&& c == '#' ==> !at_line_start(v.subrange(0, i))
            &&& c == '/' && i + 1 < v.len() ==> v[i + 1] != '/'
        }
}

/// Scanning a text inside a value adds it to the current parameter.
proof fn lemma_scan_text(
    text: Seq<char>,
    i: int,
    v: Seq<char>,
    k: int,
    out: Seq<Seq<Seq<char>>>,
)
    requires
        scannable(v),
        0 <= i,
        0 <= k <= v.len(),
        i + v.len() < text.len(),
        text.subrange(i, i + v.len()) == v,
        text[i + v.len()] != '/',
    ensures
        scanned(
            text,
            i + k,
            Scan { out, reading: true, cur: v.subrange(0, k) },
        ) == scanned(text, i + v.len(), Scan { out, reading: true, cur: v }),
    decreases v.len() - k,
{
    let b = text;
    if k == v.len() {
        assert(v.subrange(0, k) =~= v);
    } else {
        let c = v[k];
        assert(text.subrange(i, i + v.len())[k] == c);
        assert(text[i + k] == c);
        assert(v.subrange(0, k).push(c) =~= v.subrange(0, k + 1));
        if c == '/' {
            if k + 1 < v.len() {
                assert(text.subrange(i, i + v.len())[k + 1] == v[k + 1]);
                assert(text[i + k + 1] == v[k + 1]);
            }
            assert(text[i + k + 1] != '/');
        }
        let s = Scan { out, reading: true, cur: v.subrange(0, k) };
        assert(scanned(b, i + k, s) == scanned(
            b,
            i + k + 1,
            Scan { out, reading: true, cur: v.subrange(0, k + 1) },
        ));
        lemma_scan_text(text, i, v, k + 1, out);
    }
}

/// Scanning a tag line adds its value.
proof fn lemma_scan_line(
    text: Seq<char>,
    i: int,
    tag: Seq<char>,
    value: Seq<char>,
    out: Seq<Seq<Seq<char>>>,
)
    requires
        scannable(tag),
        scannable(value),
        0 <= i,
        i + tag_text(tag, value).len() <= text.len(),
        text.subrange(i, i + tag_text(tag, value).len()) == tag_text(tag, value),
    ensures
        scanned(text, i, Scan { out, reading: false, cur: Seq::empty() }) == scanned(
            text,
            i + tag_text(tag, value).len(),
            Scan { out: out.push(seq![tag, value]), reading: false, cur: Seq::empty() },
        ),
{
    let b = text;
    let line = tag_text(tag, value);
    let none = Seq::<char>::empty();
    let n = line.len() as int;
    let t = tag.len() as int;
    let v = value.len() as int;
    assert(n == t + v + 4);
    assert forall|k: int| 0 <= k < n implies #[trigger] text[i + k] == line[k] by {
        assert(text.subrange(i, i + n)[k] == line[k]);
    }
    assert(text[i + 0] == line[0] && line[0] == '#');
    assert(text[i + (t + 1)] == line[t + 1] && line[t + 1] == ':');
    assert(text[i + (t + v + 2)] == line[t + v + 2] && line[t + v + 2] == ';');
    assert(text[i + (t + v + 3)] == line[t + v + 3] && line[t + v + 3] == '\n');
    let opened = out.push(Seq::empty());
    assert(b[i] == '#');
    assert(scanned(b, i, Scan { out, reading: false, cur: none }) == scanned(
        b,
        i + 1,
        Scan { out: opened, reading: true, cur: none },
    ));
    assert(text.subrange(i + 1, i + 1 + t) =~= tag) by {
        assert forall|k: int| 0 <= k < t implies text.subrange(i + 1, i + 1 + t)[k] == tag[k] by {
            assert(text[i + (k + 1)] == line[k + 1]);
        }
    }
    assert(tag.subrange(0, 0) =~= none);
    lemma_scan_text(text, i + 1, tag, 0, opened);
    let tagged = out.push(seq![tag]);
    assert(b[i + 1 + t] == ':');
    assert(with_param(opened, tag) =~= tagged) by {
        assert(Seq::<Seq<char>>::empty().push(tag) =~= seq![tag]);
        assert(opened.drop_last() =~= out);
    }
    assert(scanned(b, i + 1 + t, Scan { out: opened, reading: true, cur: tag }) == scanned(
        b,
        i + 2 + t,
        Scan { out: tagged, reading: true, cur: none },
    ));
    assert(text.subrange(i + 2 + t, i + 2 + t + v) =~= value) by {
        assert forall|k: int| 0 <= k < v implies text.subrange(i + 2 + t, i + 2 + t + v)[k]
            == value[k] by {
            assert(text[i + (k + 2 + t)] == line[k + 2 + t]);
        }
    }
    assert(value.subrange(0, 0) =~= none);
    lemma_scan_text(text, i + 2 + t, value, 0, tagged);
    let full = out.push(seq![tag, value]);
    assert(with_param(tagged, value) =~= full) by {
        assert(seq![tag].push(value) =~= seq![tag, value]);
        assert(tagged.drop_last() =~= out);
    }
    assert(b[i + 2 + t + v] == ';');
    assert(scanned(b, i + 2 + t + v, Scan { out: tagged, reading: true, cur: value }) == scanned(
        b,
        i + 3 + t + v,
        Scan { out: full, reading: false, cur: none },
    ));
    assert(b[i + 3 + t + v] == '\n');
    assert(scanned(b, i + 3 + t + v, Scan { out: full, reading: false, cur: none }) == scanned(
        b,
        i + 4 + t + v,
        Scan { out: full, reading: false, cur: none },
    ));
}

/// Some tag lines.
pub open spec fn lines_text(lines: Seq<(Seq<char>, Seq<char>)>) -> Seq<char>
    decreases lines.len(),
{
    if lines.len() == 0 {
        Seq::empty()
    } else {
        lines_text(lines.drop_last()) + tag_text(lines.last().0, lines.last().1)
    }
}

/// The values that tag lines stand for.
pub open spec fn line_values(lines: Seq<(Seq<char>, Seq<char>)>) -> Seq<Seq<Seq<char>>> {
    Seq::new(lines.len(), |i: int| seq![lines[i].0, lines[i].1])
}

/// Whether every tag and value of some lines stands for itself.
pub open spec fn lines_scannable(lines: Seq<(Seq<char>, Seq<char>)>) -> bool {
    forall|i: int|
        0 <= i < lines.len() ==> scannable((#[trigger] lines[i]).0) && scannable(lines[i].1)
}

/// Lines put together.
pub proof fn lemma_lines_add(a: Seq<(Seq<char>, Seq<char>)>, b: Seq<(Seq<char>, Seq<char>)>)
    ensures
        lines_text(a + b) == lines_text(a) + lines_text(b),
    decreases b.len(),
{
    if b.len() == 0 {
        assert(a + b =~= a);
        assert(lines_text(a) + lines_text(b) =~= lines_text(a));
    } else {
        lemma_lines_add(a, b.drop_last());
        assert((a + b).drop_last() =~= a + b.drop_last());
        assert((a + b).last() == b.last());
        assert(lines_text(a + b) =~= lines_text(a) + lines_text(b));
    }
}

proof fn lemma_scan_lines(lines: Seq<(Seq<char>, Seq<char>)>, k: int)
    requires
        lines_scannable(lines),
        0 <= k <= lines.len(),
    ensures
        scanned(
            lines_text(lines),
            lines_text(lines.subrange(0, k)).len() as int,
            Scan {
                out: line_values(lines.subrange(0, k)),
                reading: false,
                cur: Seq::empty(),
            },
        ) == line_values(lines),
    decreases lines.len() - k,
{
    let text = lines_text(lines);
    let n = lines.len() as int;
    if k == n {
        assert(lines.subrange(0, k) =~= lines);
    } else {
        let done = lines.subrange(0, k);
        let next = lines.subrange(0, k + 1);
        let rest = lines.subrange(k + 1, n);
        let (tag, value) = lines[k];
        assert(next.drop_last() =~= done);
        assert(next.last() == lines[k]);
        assert(lines =~= next + rest);
        lemma_lines_add(next, rest);
        let at = lines_text(done).len() as int;
        let line = tag_text(tag, value);
        assert(lines_text(next) == lines_text(done) + line);
        assert(text.subrange(at, at + line.len()) =~= line);
        lemma_scan_line(text, at, tag, value, line_values(done));
        assert(line_values(done).push(seq![tag, value]) =~= line_values(next));
        lemma_scan_lines(lines, k + 1);
    }
}

/// Tag lines read back as their values.
pub proof fn law_lines_round_trip(lines: Seq<(Seq<char>, Seq<char>)>)
    requires
        lines_scannable(lines),
    ensures
        tokens(lines_text(lines)) == line_values(lines),
{
    let text = lines_text(lines);
    lemma_scan_lines(lines, 0);
    assert(lines.subrange(0, 0) =~= Seq::empty());
    assert(line_values(lines.subrange(0, 0)) =~= fresh().out);
}

} // verus!
