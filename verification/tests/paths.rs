use ddr_chart_tools::util::chars::{
    chars_of, is_text_before, part, same_text, split_at, split_first, string_of, strip_suffix,
    to_lower, to_upper, trim,
};
use ddr_chart_tools::util::number::parse_i64;
use ddr_chart_tools::util::path::{extension, file_name, file_stem, input_stem, join};

fn text(v: Vec<char>) -> String {
    string_of(&v)
}

#[test]
fn file_names_are_the_last_part_of_a_path() {
    assert_eq!(file_name("a/b/song.ssc").map(text).as_deref(), Some("song.ssc"));
    assert_eq!(file_name("song.ssc").map(text).as_deref(), Some("song.ssc"));
    assert_eq!(file_name("a/song.ssc/").map(text).as_deref(), Some("song.ssc"));
    assert_eq!(file_name("a/song.ssc/.").map(text).as_deref(), Some("song.ssc"));
    assert!(file_name("a/..").is_none());
    assert!(file_name("/").is_none());
    assert!(file_name("").is_none());
}

#[test]
fn extensions_start_at_the_last_dot() {
    let name = chars_of("$1.78.ssc");
    assert_eq!(text(file_stem(&name)), "$1.78");
    assert_eq!(extension(&name).map(text).as_deref(), Some("ssc"));
    let hidden = chars_of(".hidden");
    assert_eq!(text(file_stem(&hidden)), ".hidden");
    assert!(extension(&hidden).is_none());
    assert_eq!(extension(&chars_of("x.")).map(text).as_deref(), Some(""));
}

#[test]
fn stems_lose_the_all_suffix() {
    assert_eq!(input_stem("songs/abs2_all.ssq"), "abs2");
    assert_eq!(input_stem("songs/abs2.ssq"), "abs2");
    assert_eq!(input_stem(".."), "");
}

#[test]
fn joined_paths_have_one_separator() {
    assert_eq!(join("out", "a.ssq"), "out/a.ssq");
    assert_eq!(join("out/", "a.ssq"), "out/a.ssq");
    assert_eq!(join("", "a.ssq"), "a.ssq");
    assert_eq!(join("out", "/a.ssq"), "/a.ssq");
}

#[test]
fn texts_are_cut_and_compared() {
    let v = chars_of("  a=b=c \n");
    assert_eq!(text(trim(&v)), "a=b=c");
    let pieces: Vec<String> = split_at(&trim(&v), '=').into_iter().map(text).collect();
    assert_eq!(pieces, vec!["a", "b", "c"]);
    let (head, tail) = split_first(&trim(&v), '=').unwrap();
    assert_eq!((text(head), text(tail)), ("a".to_string(), "b=c".to_string()));
    assert!(split_first(&chars_of("abc"), '=').is_none());
    assert_eq!(text(to_upper(&chars_of("aZé1"))), "AZé1");
    assert_eq!(text(to_lower(&chars_of("aZÉ1"))), "azÉ1");
    assert_eq!(text(strip_suffix(&chars_of("abs2_all"), "_all")), "abs2");
    assert_eq!(text(part(&chars_of("abcdef"), 2, 4)), "cd");
    assert!(same_text(&chars_of("ab"), &chars_of("ab")));
    assert!(is_text_before(&chars_of("B"), &chars_of("a")));
    assert!(is_text_before(&chars_of("a"), &chars_of("ab")));
    assert!(!is_text_before(&chars_of("a"), &chars_of("a")));
}

#[test]
fn integers_are_read_in_full_range() {
    assert_eq!(parse_i64(&chars_of("-9223372036854775808")), Some(i64::MIN));
    assert_eq!(parse_i64(&chars_of("9223372036854775808")), None);
    assert_eq!(parse_i64(&chars_of("+7")), Some(7));
    assert_eq!(parse_i64(&chars_of("")), None);
    assert_eq!(parse_i64(&chars_of("-")), None);
    assert_eq!(parse_i64(&chars_of("1 ")), None);
}
