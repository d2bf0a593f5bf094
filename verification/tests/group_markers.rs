use common::group::is_group_marker;

/// Whether a comment opens a group does not hang on its case nor on the white space before it.
#[test]
fn a_group_marker_reads_alike_in_any_case() {
    for comment in ["# Group: web", "#group:x", "# groups", "# Grou", "#  GROUP:", "# group web", "x # group:"] {
        let marker = is_group_marker(comment);
        assert_eq!(marker, is_group_marker(&comment.to_ascii_uppercase()), "{comment}");
        assert_eq!(marker, is_group_marker(&comment.to_ascii_lowercase()), "{comment}");
        assert_eq!(marker, is_group_marker(&format!(" \t{comment}")), "{comment}");
    }
    assert!(is_group_marker("# Group: web"));
    assert!(is_group_marker("\t#GROUP:"));
    assert!(!is_group_marker("# groups"));
    assert!(!is_group_marker("x # group:"));
}
