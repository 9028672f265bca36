//! What the parts of a path are, and how names are put in order.

use super::chars::{before_from, lower_char, split, text_before, trimmed, upper_char};
use super::path::{extension_of, file_name_of, joined, last_dot, last_part, song_stem, stem_of};
use crate::ssc::text_round_trip::{lacks, lemma_split_one, lemma_split_step};
use vstd::prelude::*;

verus! {

/// Whether a text names a file in a directory.
pub open spec fn is_name(name: Seq<char>) -> bool {
    lacks(name, '/') && name.len() > 0 && name != seq!['.'] && name != seq!['.', '.']
}

proof fn lemma_last_part(parts: Seq<Seq<char>>, name: Seq<char>)
    requires
        parts.len() > 0,
        parts.last() == name,
        is_name(name),
    ensures
        last_part(parts) == Some(name),
{
    reveal_strlit("");
    reveal_strlit(".");
    reveal_strlit("..");
    assert(""@.len() == 0);
    assert("."@ =~= seq!['.']);
    assert(".."@ =~= seq!['.', '.']);
}

/// The file name is what stands behind the last slash, or the whole path.
pub proof fn law_file_name_is_behind_the_last_slash(dir: Seq<char>, name: Seq<char>)
    requires
        is_name(name),
    ensures
        file_name_of(name) == Some(name),
        file_name_of(dir + seq!['/'] + name) == Some(name),
{
    lemma_split_one(name, '/');
    lemma_last_part(split(name, '/'), name);
    lemma_split_step(dir, name, '/');
    lemma_last_part(split(dir + seq!['/'] + name, '/'), name);
}

/// A file keeps its name in whatever directory it is put.
pub proof fn law_joined_path_ends_with_the_name(dir: Seq<char>, name: Seq<char>)
    requires
        is_name(name),
    ensures
        file_name_of(joined(dir, name)) == Some(name),
        dir.len() <= joined(dir, name).len(),
        joined(dir, name).subrange(0, dir.len() as int) == dir,
        dir.len() > 0 ==> joined(dir, name)[joined(dir, name).len() - name.len() - 1] == '/',
{
    reveal_strlit("/");
    assert(name[0] != '/');
    law_file_name_is_behind_the_last_slash(dir, name);
    assert("/"@ =~= seq!['/']);
    if dir.len() == 0 {
        assert(dir + name =~= name);
    } else if dir.last() == '/' {
        let above = dir.drop_last();
        law_file_name_is_behind_the_last_slash(above, name);
        assert(above + seq!['/'] + name =~= dir + name);
    }
    assert(joined(dir, name).subrange(0, dir.len() as int) =~= dir);
}

proof fn lemma_last_dot(name: Seq<char>, at: int)
    requires
        0 < at < name.len(),
        name[at] == '.',
        forall|i: int| at < i < name.len() ==> #[trigger] name[i] != '.',
    ensures
        last_dot(name) == Some(at),
    decreases name.len(),
{
    if at < name.len() - 1 {
        assert(name.last() != '.');
        lemma_last_dot(name.drop_last(), at);
    }
}

/// The extension is what stands behind the last point, and the stem what stands before it.
pub proof fn law_extension_is_behind_the_last_point(stem: Seq<char>, ext: Seq<char>)
    requires
        stem.len() > 0,
        lacks(ext, '.'),
    ensures
        stem_of(stem + seq!['.'] + ext) == stem,
        extension_of(stem + seq!['.'] + ext) == Some(ext),
{
    let name = stem + seq!['.'] + ext;
    let at = stem.len() as int;
    assert forall|i: int| at < i < name.len() implies #[trigger] name[i] != '.' by {
        assert(name[i] == ext[i - at - 1]);
    }
    lemma_last_dot(name, at);
    assert(name.subrange(0, at) =~= stem);
    assert(name.subrange(at + 1, name.len() as int) =~= ext);
}

proof fn lemma_no_dot(name: Seq<char>)
    requires
        forall|i: int| 0 < i < name.len() ==> #[trigger] name[i] != '.',
    ensures
        last_dot(name) is None,
    decreases name.len(),
{
    if name.len() > 1 {
        assert(name.last() != '.');
        lemma_no_dot(name.drop_last());
    }
}

/// A name without a point, or with one in front alone, has no extension.
pub proof fn law_names_may_lack_an_extension(name: Seq<char>)
    requires
        forall|i: int| 0 < i < name.len() ==> #[trigger] name[i] != '.',
    ensures
        extension_of(name) is None,
        stem_of(name) == name,
{
    lemma_no_dot(name);
}

/// A song is named by its chart's file, without the extension and without `_all`.
pub proof fn law_song_is_named_by_its_chart(dir: Seq<char>, stem: Seq<char>, ext: Seq<char>)
    requires
        stem.len() > 0,
        lacks(stem, '/'),
        lacks(ext, '/'),
        lacks(ext, '.'),
        ext.len() > 0,
    ensures
        song_stem(dir + seq!['/'] + (stem + seq!['_', 'a', 'l', 'l', '.'] + ext)) == stem,
        !(stem.len() >= 4 && stem.subrange(stem.len() - 4, stem.len() as int) == seq![
            '_',
            'a',
            'l',
            'l',
        ]) ==> song_stem(dir + seq!['/'] + (stem + seq!['.'] + ext)) == stem,
{
    reveal_strlit("_all");
    let all = seq!['_', 'a', 'l', 'l'];
    assert("_all"@ =~= all);
    let long = stem + all;
    let a = stem + seq!['_', 'a', 'l', 'l', '.'] + ext;
    let b = stem + seq!['.'] + ext;
    assert(a =~= long + seq!['.'] + ext);
    assert(lacks(a, '/'));
    assert(lacks(b, '/'));
    assert(a.len() > 2 && b.len() > 2);
    law_file_name_is_behind_the_last_slash(dir, a);
    law_file_name_is_behind_the_last_slash(dir, b);
    law_extension_is_behind_the_last_point(long, ext);
    law_extension_is_behind_the_last_point(stem, ext);
    assert(long.subrange(long.len() - 4, long.len() as int) =~= all);
    assert(long.subrange(0, long.len() - 4) =~= stem);
}

/// Names are in the order of their first differing characters; a name comes before any
/// longer one that it begins.
pub proof fn law_names_are_in_dictionary_order(a: Seq<char>, b: Seq<char>, i: int)
    requires
        0 <= i <= a.len(),
        i < b.len(),
        forall|k: int| 0 <= k < i ==> #[trigger] a[k] == b[k],
        i < a.len() ==> a[i] < b[i],
    ensures
        text_before(a, b),
        !text_before(b, a),
{
    lemma_before_from(a, b, 0, i);
}

proof fn lemma_before_from(a: Seq<char>, b: Seq<char>, at: int, i: int)
    requires
        0 <= at <= i <= a.len(),
        i < b.len(),
        forall|k: int| 0 <= k < i ==> #[trigger] a[k] == b[k],
        i < a.len() ==> a[i] < b[i],
    ensures
        before_from(a, b, at),
        !before_from(b, a, at),
    decreases i - at,
{
    if at < i {
        assert(a[at] == b[at]);
        lemma_before_from(a, b, at + 1, i);
    }
}

/// The case of ASCII letters is changed, and of nothing else.
pub proof fn law_case_of_letters(c: char)
    ensures
        'a' <= c && c <= 'z' ==> upper_char(c) as int == c as int - ('a' as int - 'A' as int)
            && lower_char(upper_char(c)) == c && lower_char(c) == c,
        'A' <= c && c <= 'Z' ==> lower_char(c) as int == c as int + ('a' as int - 'A' as int)
            && upper_char(lower_char(c)) == c && upper_char(c) == c,
        !('a' <= c && c <= 'z') && !('A' <= c && c <= 'Z') ==> upper_char(c) == c && lower_char(c)
            == c,
{
}

/// White space around a text is left out, and nothing else.
pub proof fn law_trimming_leaves_the_text(a: Seq<char>, text: Seq<char>, b: Seq<char>)
    requires
        forall|i: int| 0 <= i < a.len() ==> crate::util::chars::is_space(#[trigger] a[i]),
        forall|i: int| 0 <= i < b.len() ==> crate::util::chars::is_space(#[trigger] b[i]),
        text.len() > 0,
        !crate::util::chars::is_space(text[0]),
        !crate::util::chars::is_space(text.last()),
    ensures
        trimmed(a + text + b) == text,
{
    let s = a + text + b;
    let n = a.len() as int;
    assert(s[n] == text[0]);
    assert forall|k: int| 0 <= k < n implies crate::util::chars::is_space(#[trigger] s[k]) by {
        assert(s[k] == a[k]);
    }
    crate::util::chars::lemma_trimmed_start(s, n);
    let rest = s.skip(n);
    let m = text.len() as int;
    assert(rest =~= text + b);
    assert(rest[m - 1] == text.last());
    assert forall|k: int| m <= k < rest.len() implies crate::util::chars::is_space(
        #[trigger] rest[k],
    ) by {
        assert(rest[k] == b[k - m]);
    }
    crate::util::chars::lemma_trimmed_end(rest, m);
    assert(rest.subrange(0, m) =~= text);
}

/// White space is what Unicode says it is: five control characters, the space, the next
/// line, and the spaces and separators beyond ASCII.
pub proof fn law_white_space(c: char)
    ensures
        crate::util::chars::is_space(c) <==> c == '\t' || c == '\n' || c == '\u{B}' || c == '\u{C}'
            || c == '\r' || c == ' ' || c == '\u{85}' || c == '\u{A0}' || c == '\u{1680}' || ('\u{2000}'
            <= c && c <= '\u{200A}') || c == '\u{2028}' || c == '\u{2029}' || c == '\u{202F}' || c
            == '\u{205F}' || c == '\u{3000}',
{
}

} // verus!
