//! Quotes taken off text, and where a line of it breaks.

use common::string::{can_use_literal_string, find_best_wrap_point, strip_quotes};

#[test]
fn test_strip_quotes_double_quotes() {
    assert_eq!(strip_quotes("\"hello\""), "hello");
}

#[test]
fn test_strip_quotes_single_quotes() {
    assert_eq!(strip_quotes("'hello'"), "hello");
}

#[test]
fn test_strip_quotes_no_quotes() {
    assert_eq!(strip_quotes("hello"), "hello");
}

#[test]
fn test_strip_quotes_empty_string() {
    assert_eq!(strip_quotes("\"\""), "");
}

#[test]
fn test_strip_quotes_triple_quotes() {
    assert_eq!(strip_quotes("\"\"\"hello\"\"\""), "hello");
}

#[test]
fn double_quotes_come_off_before_single_ones() {
    assert_eq!(strip_quotes("\"'a'\""), "a");
    assert_eq!(strip_quotes("'\"a\"'"), "\"a\"");
}

#[test]
fn a_literal_string_holds_no_quote_and_no_control_character() {
    assert!(can_use_literal_string("hello"));
    assert!(can_use_literal_string("a\tb"));
    assert!(!can_use_literal_string("it's"));
    assert!(!can_use_literal_string("a\u{1}b"));
    assert!(!can_use_literal_string("a\u{7f}"));
}

#[test]
fn a_line_breaks_after_the_last_separator_or_space_that_fits() {
    assert_eq!(find_best_wrap_point("hello world", 20), 11);
    assert_eq!(find_best_wrap_point("hello world foo", 8), 6);
    assert_eq!(find_best_wrap_point("A :: B :: C", 9), 5);
    assert_eq!(find_best_wrap_point("abcdef", 3), 3);
    assert_eq!(find_best_wrap_point(" abc", 2), 1);
    assert_eq!(find_best_wrap_point("abc", 0), 1);
}
