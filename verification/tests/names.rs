//! Names read as the segments of a TOML key path, and where a key stands in an order.

use common::sections::{is_named, parse_name, rank, read_name, run_end};

/// A setting names a table the way TOML does, so a quoted segment is the one name it holds.
#[test]
fn a_configured_name_reads_as_the_segments_it_names() {
    assert_eq!(parse_name("a.b.c"), ["a", "b", "c"]);
    assert_eq!(parse_name("a.\"b.c\""), ["a", "b.c"]);
    assert_eq!(parse_name("a.'b.c'"), ["a", "b.c"]);
    assert_eq!(parse_name("plain"), ["plain"]);
    // a name TOML cannot read as a key names no table, and the caller is told why
    assert!(read_name("a.\"unclosed").is_err());
    assert!(read_name("").is_err());
    // a name is the whole of what it says: text carrying its own key, comment or table says more
    assert!(read_name("a = 1\nb").is_err());
    assert!(read_name("a # held").is_err());
    assert!(read_name("a = 0\n#").is_err());
    assert_eq!(read_name("a.b"), Ok(vec![String::from("a"), String::from("b")]));
}

/// A name TOML cannot read as a key falls back to the pieces between its dots.
#[test]
fn a_name_toml_cannot_read_splits_on_its_dots() {
    assert_eq!(parse_name("a.\"unclosed"), ["a", "\"unclosed"]);
    assert_eq!(parse_name("a..b"), ["a", "", "b"]);
    assert_eq!(parse_name(""), [""]);
    assert_eq!(parse_name("a # b.c"), ["a # b", "c"]);
}

#[test]
fn escapes_in_a_quoted_segment_read_as_what_they_stand_for() {
    assert_eq!(read_name("a.\"b\\u0041\""), Ok(vec![String::from("a"), String::from("bA")]));
    assert_eq!(read_name("\"a\\tb\""), Ok(vec![String::from("a\tb")]));
    assert_eq!(read_name("\"\\U0001F600\""), Ok(vec![String::from("\u{1F600}")]));
    assert!(read_name("\"\\ud800\"").is_err());
    assert!(read_name("\"\\q\"").is_err());
    assert_eq!(read_name("'a\\b'"), Ok(vec![String::from("a\\b")]));
}

#[test]
fn blanks_may_stand_around_the_dots_and_the_name() {
    assert_eq!(read_name(" 'x' .\ty "), Ok(vec![String::from("x"), String::from("y")]));
    assert!(read_name("a..b").is_err());
    assert!(read_name("a.").is_err());
    assert!(read_name(".a").is_err());
    assert!(read_name("a b").is_err());
    assert!(read_name("a\u{e9}").is_err());
}

#[test]
fn a_key_is_named_by_itself_and_by_what_it_is_written_under() {
    assert!(is_named("lint", "lint"));
    assert!(is_named("lint.select", "lint"));
    assert!(!is_named("lints", "lint"));
    assert!(!is_named("lin", "lint"));
}

#[test]
fn a_key_the_order_does_not_name_ranks_last() {
    assert_eq!(rank("lint.select", &["lint", "x"]), 0);
    assert_eq!(rank("x", &["lint", "x"]), 1);
    assert_eq!(rank("other", &["lint"]), 1);
    assert_eq!(rank("lintx", &["lint"]), 1);
    assert_eq!(rank("a", &[]), 0);
}

#[test]
fn a_run_ends_where_the_wanted_name_does() {
    assert_eq!(run_end("ruff", "ruff"), Some(4));
    assert_eq!(run_end("ruff.lint", "ruff"), Some(4));
    assert_eq!(run_end("tool.ruff.lint", "ruff"), Some(9));
    assert_eq!(run_end("tool.ruff", "ruff"), Some(9));
    assert_eq!(run_end("tool.ruffx", "ruff"), None);
    assert_eq!(run_end("tool.other", "ruff"), None);
    assert_eq!(run_end("\u{e9}.ruff", "ruff"), Some(7));
}
