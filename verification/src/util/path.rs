//! Paths as text, with `/` between their parts.

use crate::util::chars::{
    chars_of, part, reads, split, split_at, string_of, strip_suffix, texts, without_suffix,
};
use vstd::prelude::*;
use vstd::string::StringExecFns;

verus! {

/// The last of some path parts, current-directory parts and empty ones aside.
/// There is none behind a parent-directory part.
pub open spec fn last_part(parts: Seq<Seq<char>>) -> Option<Seq<char>>
    decreases parts.len(),
{
    if parts.len() == 0 {
        None
    } else if parts.last() == ""@ || parts.last() == "."@ {
        last_part(parts.drop_last())
    } else if parts.last() == ".."@ {
        None
    } else {
        Some(parts.last())
    }
}

/// The file name at the end of a path.
pub open spec fn file_name_of(path: Seq<char>) -> Option<Seq<char>> {
    last_part(split(path, '/'))
}

/// Where the extension of a file name starts: at its last dot, unless that is
/// its first character.
pub open spec fn last_dot(name: Seq<char>) -> Option<int>
    decreases name.len(),
{
    if name.len() <= 1 {
        None
    } else if name.last() == '.' {
        Some(name.len() - 1)
    } else {
        last_dot(name.drop_last())
    }
}

/// A file name without its extension.
pub open spec fn stem_of(name: Seq<char>) -> Seq<char> {
    match last_dot(name) {
        Some(i) => name.subrange(0, i),
        None => name,
    }
}

/// The extension of a file name.
pub open spec fn extension_of(name: Seq<char>) -> Option<Seq<char>> {
    match last_dot(name) {
        Some(i) => Some(name.subrange(i + 1, name.len() as int)),
        None => None,
    }
}

/// The path `name` in the directory `dir`; an absolute path stays as it is.
pub open spec fn joined(dir: Seq<char>, name: Seq<char>) -> Seq<char> {
    if name.len() > 0 && name[0] == '/' {
        name
    } else if dir.len() == 0 || dir.last() == '/' {
        dir + name
    } else {
        dir + "/"@ + name
    }
}

/// The stem of the chart at `path`, without the `_all` of Ultramix charts.
pub open spec fn song_stem(path: Seq<char>) -> Seq<char> {
    match file_name_of(path) {
        Some(name) => without_suffix(stem_of(name), "_all"@),
        None => Seq::empty(),
    }
}

/// The file name at the end of a path.
pub fn file_name(path: &str) -> (r: Option<Vec<char>>)
    ensures
        match file_name_of(path@) {
            Some(name) => r is Some && r->0@ == name,
            None => r is None,
        },
{
    let mut parts = split_at(&chars_of(path), '/');
    let ghost all = texts(parts@);
    while parts.len() > 0
        invariant
            last_part(texts(parts@)) == file_name_of(path@),
        decreases parts@.len(),
    {
        let ghost before = parts@;
        match parts.pop() {
            Some(name) => {
                assert(texts(before).drop_last() =~= texts(parts@));
                assert(texts(before).last() == name@);
                if reads(&name, "..") {
                    proof {
                        reveal_strlit("");
                        reveal_strlit(".");
                        reveal_strlit("..");
                        assert(""@.len() == 0 && "."@.len() == 1 && ".."@.len() == 2);
                    }
                    return None;
                }
                if !reads(&name, "") && !reads(&name, ".") {
                    return Some(name);
                }
            },
            None => {},
        }
    }
    None
}

fn find_last_dot(name: &Vec<char>) -> (r: Option<usize>)
    ensures
        match last_dot(name@) {
            Some(i) => r is Some && r->0 == i && 0 < i < name@.len(),
            None => r is None,
        },
{
    let mut n: usize = name.len();
    assert(name@.subrange(0, n as int) =~= name@);
    while n > 1
        invariant
            n <= name@.len(),
            last_dot(name@) == last_dot(name@.subrange(0, n as int)),
        decreases n,
    {
        assert(name@.subrange(0, n as int).drop_last() =~= name@.subrange(0, n - 1));
        if name[n - 1] == '.' {
            return Some(n - 1);
        }
        n = n - 1;
    }
    None
}

/// A file name without its extension.
pub fn file_stem(name: &Vec<char>) -> (s: Vec<char>)
    ensures
        s@ == stem_of(name@),
{
    match find_last_dot(name) {
        Some(i) => part(name, 0, i),
        None => {
            let s = part(name, 0, name.len());
            assert(s@ =~= name@);
            s
        },
    }
}

/// The extension of a file name.
pub fn extension(name: &Vec<char>) -> (r: Option<Vec<char>>)
    ensures
        match extension_of(name@) {
            Some(e) => r is Some && r->0@ == e,
            None => r is None,
        },
{
    let len: usize = name.len();
    match find_last_dot(name) {
        Some(i) => Some(part(name, i + 1, len)),
        None => None,
    }
}

/// The path `name` in the directory `dir`; an absolute path stays as it is.
pub fn join(dir: &str, name: &str) -> (path: String)
    ensures
        path@ == joined(dir@, name@),
{
    let d = chars_of(dir);
    let n = chars_of(name);
    if n.len() > 0 && n[0] == '/' {
        name.to_owned()
    } else if d.len() == 0 || d[d.len() - 1] == '/' {
        dir.to_owned().concat(name)
    } else {
        dir.to_owned().concat("/").concat(name)
    }
}

/// The input chart's file stem with any Ultramix `_all` suffix removed.
pub fn input_stem(chart_path: &str) -> (s: String)
    ensures
        s@ == song_stem(chart_path@),
{
    match file_name(chart_path) {
        Some(name) => string_of(&strip_suffix(&file_stem(&name), "_all")),
        None => {
            let s = String::new();
            assert(s@ =~= Seq::empty());
            s
        },
    }
}

} // verus!
