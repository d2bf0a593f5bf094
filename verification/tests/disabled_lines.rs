//! The line-level pieces of turning a commented key back on and commenting it out again.

use common::disabled::{
    before, breaks, closing_lines, comment_disabled_line, enable_block, enabled_form, fresh_marker,
    join_like, kept_marker, marks_a_disabled_key, past, read_line_by_line, scan_to_close,
    split_comment, without_marker, Close, OpenValue, MARKER,
};

#[test]
fn a_comment_line_splits_into_its_indent_and_what_it_says() {
    assert_eq!(
        split_comment("  # a = 1"),
        Some((String::from("  "), String::from("a = 1")))
    );
    assert_eq!(split_comment("#a"), Some((String::new(), String::from("a"))));
    assert_eq!(split_comment("#  two"), Some((String::new(), String::from(" two"))));
    assert_eq!(split_comment("a = 1 # not a comment line"), None);
    assert_eq!(split_comment(""), None);
}

#[test]
fn a_value_over_lines_closes_where_its_brackets_come_back() {
    let lines = ["# a = [", "#   1,", "# ]", "b = 1"];
    assert_eq!(
        closing_lines(&lines),
        vec![Close::At(2), Close::At(1), Close::At(2), Close::Never]
    );
}

#[test]
fn a_value_left_open_closes_on_no_line() {
    let lines = ["# a = [", "#   1,", "x = 2", "# b = 1"];
    assert_eq!(
        closing_lines(&lines),
        vec![Close::Never, Close::At(1), Close::Never, Close::At(3)]
    );
}

#[test]
fn a_run_holding_a_string_over_lines_is_read_line_by_line() {
    let lines = ["# a = '''", "# x", "# '''", "", "# b = 1"];
    assert_eq!(
        closing_lines(&lines),
        vec![Close::Scan, Close::Scan, Close::Scan, Close::Never, Close::At(4)]
    );
    assert_eq!(scan_to_close(&lines, 0), Some(2));
    assert_eq!(scan_to_close(&lines, 1), Some(1));
    assert_eq!(scan_to_close(&lines, 3), None);
}

#[test]
fn a_scan_stops_at_a_line_that_is_not_a_comment() {
    assert_eq!(scan_to_close(&["# a = [", "b = 1"], 0), None);
    assert_eq!(scan_to_close(&["# a = [", "# ]"], 0), Some(1));
    assert_eq!(scan_to_close(&["# a = 1"], 5), None);
}

#[test]
fn a_block_reads_as_the_bodies_of_its_lines() {
    let lines = ["# a = [", "#   1,", "# ]"];
    let closes = closing_lines(&lines);
    assert_eq!(
        enable_block(&lines, 0, &closes),
        Some((2, String::from("a = [\n  1,\n]")))
    );
    assert_eq!(enable_block(&lines, 1, &closes), Some((1, String::from("  1,"))));
    let open = ["# a = ["];
    assert_eq!(enable_block(&open, 0, &closing_lines(&open)), None);
    assert_eq!(enable_block(&open, 3, &closing_lines(&open)), None);
}

#[test]
fn brackets_inside_strings_and_comments_say_nothing() {
    let mut open = OpenValue::new();
    open.read(&"a = \"[\" # [".chars().collect());
    assert!(!open.is_open());
    assert_eq!(open.net, 0);

    let mut open = OpenValue::new();
    open.read(&"a = { b = [1".chars().collect());
    assert!(open.is_open());
    assert_eq!(open.depth, 2);
    open.read(&"] }".chars().collect());
    assert!(!open.is_open());
    assert_eq!(open.net, 0);
}

#[test]
fn an_escaped_quote_does_not_close_a_basic_string() {
    let mut open = OpenValue::new();
    open.read(&"a = \"\"\"x \\\"\"\" [".chars().collect());
    assert!(open.is_open());
    assert_eq!(open.depth, 0);
}

#[test]
fn a_string_opened_with_one_quote_closes_with_its_line() {
    let mut open = OpenValue::new();
    open.read(&"a = 'open".chars().collect());
    assert!(!open.is_open());
}

#[test]
fn the_marker_grows_past_every_run_the_source_writes() {
    assert_eq!(fresh_marker("a = 1\n"), MARKER);
    assert_eq!(fresh_marker("# __toml_fmt_disabled__\n"), format!("{MARKER}x"));
    assert_eq!(
        fresh_marker("# __toml_fmt_disabled__xx and __toml_fmt_disabled__x"),
        format!("{MARKER}xxx")
    );
    assert!(!"# __toml_fmt_disabled__xx".contains(&fresh_marker("# __toml_fmt_disabled__xx")));
}

#[test]
fn the_marker_says_which_comment_it_opened() {
    assert!(marks_a_disabled_key("# __toml_fmt_disabled__", MARKER));
    assert!(marks_a_disabled_key("#  __toml_fmt_disabled__  ", MARKER));
    assert!(marks_a_disabled_key("# why __toml_fmt_disabled__-kept", MARKER));
    assert!(!marks_a_disabled_key("# note", MARKER));
    assert!(!marks_a_disabled_key("# __toml_fmt_disabled__x", MARKER));
    assert_eq!(kept_marker(MARKER), "__toml_fmt_disabled__-kept");
}

#[test]
fn an_enabled_key_carries_the_marker_in_one_comment() {
    assert_eq!(enabled_form("a = 1", "M", false), "a = 1  # M");
    assert_eq!(enabled_form("a = 1  # why", "M", true), "a = 1  # why M-kept");
}

#[test]
fn the_marker_comes_off_with_the_comment_it_opened() {
    assert_eq!(without_marker("a = 1  # __toml_fmt_disabled__", MARKER), "a = 1");
    assert_eq!(
        without_marker("a = 1  # why __toml_fmt_disabled__-kept", MARKER),
        "a = 1  # why"
    );
    assert_eq!(without_marker("]  #__toml_fmt_disabled__", MARKER), "]");
}

#[test]
fn a_line_is_commented_back_at_the_key_s_indent() {
    assert_eq!(
        comment_disabled_line("  a = 1  # __toml_fmt_disabled__", 2, Some(MARKER)),
        "  # a = 1"
    );
    assert_eq!(comment_disabled_line("    1,", 2, None), "  #   1,");
    assert_eq!(comment_disabled_line("a", 4, None), "a# ");
    assert_eq!(comment_disabled_line("ü = 1", 2, None), "ü#  = 1");
}

#[test]
fn lines_join_back_the_way_the_source_ended() {
    assert_eq!(join_like("x\n", vec![String::from("a"), String::from("b")]), "a\nb\n");
    assert_eq!(join_like("x", vec![String::from("a")]), "a");
    assert_eq!(join_like("", Vec::new()), "");
}

#[test]
fn small_pieces_count_what_they_say() {
    assert_eq!(past("héllo", 2), "llo");
    assert_eq!(past("ab", 5), "");
    assert_eq!(breaks("a\nb\n"), 2);
    assert_eq!(breaks(""), 0);
    let ends = vec![3, 1, 4];
    assert_eq!(before(&ends, 1, 1), 0);
    assert_eq!(before(&ends, 2, 0), 1);
    let mut closes = vec![Close::At(0), Close::Never, Close::At(2)];
    read_line_by_line(&mut closes, 1, 3, false);
    assert_eq!(closes, vec![Close::At(0), Close::Never, Close::At(2)]);
    read_line_by_line(&mut closes, 1, 3, true);
    assert_eq!(closes, vec![Close::At(0), Close::Scan, Close::Scan]);
}

/// Where the base marker is written twice over one shared `__`, the scan sees only the first, so
/// the marker it picks is one the source already holds.
#[test]
fn overlapping_markers_hide_the_second_from_the_scan() {
    let source = "__toml_fmt_disabled__toml_fmt_disabled__x";
    let picked = fresh_marker(source);
    assert_eq!(picked, format!("{MARKER}x"));
    assert!(source.contains(&picked));
}

/// A standing comment that holds a key is enabled with its indent; one that holds a table header
/// stays, with the comments after it; a text that enables nothing is left alone.
#[test]
fn enabling_keeps_what_a_header_comment_covers() {
    let source = "a = 1\n  # b = 2\n# [tool]\n# c = 3\nd = 4\n";
    let lines: Vec<&str> = source.lines().collect();
    let standing = [false, true, true, true, false];
    let headers = [false, false, true, false, false];
    let forms = [None, Some(String::from("b = 2")), None, Some(String::from("c = 3")), None];
    assert_eq!(
        common::disabled::enable_lines(source, &lines, &standing, &headers, &forms),
        Some(String::from("a = 1\n  b = 2\n# [tool]\n# c = 3\nd = 4\n"))
    );
    let nowhere = [false; 5];
    assert_eq!(common::disabled::enable_lines(source, &lines, &nowhere, &headers, &forms), None);
    let formless = [None, None, None, None, None];
    assert_eq!(common::disabled::enable_lines(source, &lines, &standing, &headers, &formless), None);
}
