//! How wide text is written, and where a line of it may break.

use common::width::{break_points, columns};

#[test]
fn text_is_measured_in_columns() {
    assert_eq!(columns("abc"), 3);
    assert_eq!(columns("日本"), 4);
    assert_eq!(columns("e\u{301}"), 1);
    assert_eq!(columns(""), 0);
}

#[test]
fn a_line_breaks_between_characters_up_to_the_first_past_the_column() {
    assert_eq!(break_points("abc", 10), vec![1, 2, 3]);
    assert_eq!(break_points("abc", 1), vec![1, 2]);
    assert_eq!(break_points("", 5), Vec::<usize>::new());
    assert_eq!(break_points("日本", 2), vec![3, 6]);
}

#[test]
fn an_escape_and_a_grapheme_each_break_whole() {
    assert_eq!(break_points("a\\nb", 10), vec![1, 3, 4]);
    assert_eq!(break_points("a\\u00e9x", 100), vec![1, 7, 8]);
    assert_eq!(break_points("e\u{301}x", 10), vec![3, 4]);
}

#[test]
fn an_escape_at_the_end_is_measured_back_from_the_end() {
    assert_eq!(break_points("ab\\", 10), vec![1, 2, 3]);
}

#[test]
fn an_escape_the_text_cuts_inside_a_character_ends_the_points() {
    assert_eq!(break_points("\u{e9}\\", 10), vec![2]);
}
