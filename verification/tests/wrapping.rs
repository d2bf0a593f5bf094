//! Where a long value breaks, and which keys a pattern names.

use common::strings::{
    matches_key, one_segment, pattern_segments, wrap_point, wrap_with_continuations, Want,
};

fn names(pattern: &[Want]) -> Vec<Option<String>> {
    pattern
        .iter()
        .map(|want| match want {
            Want::Any => None,
            Want::Named(name) => Some(name.clone()),
        })
        .collect()
}

fn path(segments: &[&str]) -> Vec<String> {
    segments.iter().map(|s| s.to_string()).collect()
}

#[test]
fn a_quoted_segment_holds_its_dots() {
    assert_eq!(
        names(&pattern_segments("tool.\"a.b\".commands")),
        vec![Some(String::from("tool")), Some(String::from("a.b")), Some(String::from("commands"))]
    );
    assert_eq!(names(&pattern_segments("*.commands")), vec![None, Some(String::from("commands"))]);
    assert_eq!(names(&pattern_segments("\"*\"")), vec![Some(String::from("*"))]);
    assert_eq!(names(&pattern_segments("a. b")), vec![Some(String::from("a")), Some(String::from("b"))]);
    assert_eq!(names(&pattern_segments("'x.y'")), vec![Some(String::from("x.y"))]);
    assert_eq!(names(&pattern_segments("\"a\\\".b\"")), vec![Some(String::from("a\".b"))]);
}

#[test]
fn a_component_toml_cannot_read_names_itself() {
    assert!(matches!(one_segment("*"), Want::Any));
    assert!(matches!(one_segment("a b"), Want::Named(ref n) if n == "a b"));
    assert!(matches!(one_segment("\"q\""), Want::Named(ref n) if n == "q"));
}

#[test]
fn a_wildcard_at_either_end_stands_for_the_path_beyond_it() {
    let any_commands = pattern_segments("*.commands");
    assert!(matches_key(&path(&["tool", "x", "commands"]), &any_commands));
    assert!(!matches_key(&path(&["commands"]), &any_commands));
    assert!(!matches_key(&path(&["tool", "x", "other"]), &any_commands));
    let under_ruff = pattern_segments("tool.ruff.*");
    assert!(matches_key(&path(&["tool", "ruff", "x", "y"]), &under_ruff));
    assert!(!matches_key(&path(&["tool", "black", "x"]), &under_ruff));
    let exact = pattern_segments("tool.ruff");
    assert!(matches_key(&path(&["tool", "ruff"]), &exact));
    assert!(!matches_key(&path(&["tool", "ruff", "x"]), &exact));
    let middle = pattern_segments("tool.*.x");
    assert!(matches_key(&path(&["tool", "a", "x"]), &middle));
    assert!(!matches_key(&path(&["tool", "a", "b", "x"]), &middle));
}

#[test]
fn a_line_breaks_after_a_classifier_separator_then_a_space() {
    assert_eq!(wrap_point("Programming Language :: Python", 25), 24);
    assert_eq!(wrap_point("hello world foo", 8), 6);
    assert_eq!(wrap_point("abcdefghij", 4), 4);
}

#[test]
fn a_long_value_wraps_with_continuations() {
    assert_eq!(
        wrap_with_continuations("aaa bbb ccc", 10, "  "),
        Some(String::from("\"\"\"\\\n  aaa \\\n  bbb ccc\\\n  \"\"\""))
    );
    assert_eq!(
        wrap_with_continuations("日本語", 3, ""),
        Some(String::from("\"\"\"\\\n日\\\n本\\\n語\\\n\"\"\""))
    );
    assert_eq!(wrap_with_continuations("", 10, ""), Some(String::from("\"\"\"\\\n\"\"\"")));
}

#[test]
fn a_column_too_narrow_leaves_nothing_to_wrap_to() {
    assert_eq!(wrap_with_continuations("abc", 2, "  "), None);
    assert_eq!(wrap_with_continuations("日本", 2, ""), None);
}
