use ddr_chart_tools::ssc::msd::tokenize;

#[test]
fn single_tag_value() {
    let v = tokenize("#TITLE:Example;");
    assert_eq!(v.len(), 1);
    assert_eq!(v[0].tag(), "TITLE");
    assert_eq!(v[0].param(1), "Example");
}

#[test]
fn multiple_params_separated_by_colon() {
    let v = tokenize("#NOTES:dance-single::Beginner:3:0.5,0.5,0.5:0000\n0000\n;");
    assert_eq!(v.len(), 1);
    assert_eq!(v[0].tag(), "NOTES");
    assert_eq!(v[0].param(1), "dance-single");
    assert_eq!(v[0].param(2), ""); // empty description field
    assert_eq!(v[0].param(3), "Beginner");
    assert_eq!(v[0].param(4), "3");
    assert_eq!(v[0].param(5), "0.5,0.5,0.5");
    assert_eq!(v[0].param(6), "0000\n0000\n");
}

#[test]
fn multiple_top_level_values() {
    let v = tokenize("#TITLE:A;\n#ARTIST:B;\n");
    assert_eq!(v.len(), 2);
    assert_eq!(v[0].tag(), "TITLE");
    assert_eq!(v[0].param(1), "A");
    assert_eq!(v[1].tag(), "ARTIST");
    assert_eq!(v[1].param(1), "B");
}

#[test]
fn line_comment_is_stripped() {
    let v = tokenize("#TITLE:Hello // this is a comment\nWorld;");
    // The comment-through-newline is stripped; the value continues on
    // the next line.
    assert_eq!(v[0].param(1), "Hello \nWorld");
}

#[test]
fn backslash_escapes_special_chars() {
    let v = tokenize(r"#TITLE:a\:b\;c;");
    assert_eq!(v[0].param(1), "a:b;c");
}

#[test]
fn missing_semicolon_recovers_on_hash_at_line_start() {
    // First value is missing its `;`. `#ARTIST` at start of next line
    // closes it.
    let v = tokenize("#TITLE:A\n#ARTIST:B;");
    assert_eq!(v.len(), 2);
    assert_eq!(v[0].tag(), "TITLE");
    assert_eq!(v[0].param(1), "A");
    assert_eq!(v[1].tag(), "ARTIST");
    assert_eq!(v[1].param(1), "B");
}

#[test]
fn hash_mid_value_is_literal() {
    // A `#` that's not at the start of a line is treated as content.
    let v = tokenize("#TITLE:A#B;");
    assert_eq!(v.len(), 1);
    assert_eq!(v[0].param(1), "A#B");
}

#[test]
fn empty_input() {
    assert!(tokenize("").is_empty());
}

#[test]
fn whitespace_between_values() {
    let v = tokenize("#A:1;\n\n   \n#B:2;");
    assert_eq!(v.len(), 2);
}
