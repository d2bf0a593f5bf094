//! Table names and the spacing between the tables of a written document.

use common::table::{
    add_intermediate_parents, build_inline_table_text, count_unquoted_dots, detect_schema,
    first_unquoted_dot, normalize_table_spacing, split_table_name, InlineEntry, InlineTableSchema,
};

#[test]
fn dots_inside_quotes_split_nothing() {
    assert_eq!(count_unquoted_dots("a.\"b.c\".d"), 2);
    assert_eq!(count_unquoted_dots("plain"), 0);
    assert_eq!(first_unquoted_dot("a\"b.c\".d"), 6);
    assert_eq!(first_unquoted_dot("\u{e9}.x"), 2);
    assert_eq!(
        split_table_name("tool.\"a.b\".c"),
        (String::from("tool.\"a.b\""), String::from("c"))
    );
    assert_eq!(split_table_name("a.b"), (String::from("a"), String::from("b")));
    assert_eq!(split_table_name("a.\"b.c\""), (String::from("a"), String::from("\"b.c\"")));
}

#[test]
fn different_groups_get_the_root_gap() {
    let content = "[tool.a]\nx = 1\n[tool.b]\ny = 2\n[other]\nz = 3\n";
    assert_eq!(
        normalize_table_spacing(content, &["tool"], "\n", Some("")),
        "[tool.a]\nx = 1\n\n[tool.b]\ny = 2\n\n[other]\nz = 3\n"
    );
    assert_eq!(
        normalize_table_spacing(content, &[], "\n", Some("")),
        "[tool.a]\nx = 1\n[tool.b]\ny = 2\n\n[other]\nz = 3\n"
    );
}

#[test]
fn the_gap_goes_above_the_comments_that_lead_a_table() {
    let content = "[a]\nx = 1\n\n\n# about b\n[b]\ny = 2";
    assert_eq!(
        normalize_table_spacing(content, &[], "\n", None),
        "[a]\nx = 1\n\n# about b\n[b]\ny = 2"
    );
}

#[test]
fn gaps_inside_a_group_stay_where_none_is_asked_for() {
    let content = "[a.x]\nk = 1\n\n\n[a.y]\nk = 2\n";
    assert_eq!(normalize_table_spacing(content, &[], "\n", None), content);
    assert_eq!(
        normalize_table_spacing(content, &[], "\n", Some("\n")),
        "[a.x]\nk = 1\n\n[a.y]\nk = 2\n"
    );
}

#[test]
fn repeated_array_entries_keep_their_spacing() {
    let content = "[[a]]\nk = 1\n\n\n[[a]]\nk = 2\n";
    assert_eq!(normalize_table_spacing(content, &[], "\n\n", Some("")), content);
}

#[test]
fn a_schema_is_found_by_its_discriminator() {
    let schemas = [
        InlineTableSchema { discriminator: "path", key_order: &["path", "editable"] },
        InlineTableSchema { discriminator: "git", key_order: &["git", "rev"] },
    ];
    let keys = vec![String::from("rev"), String::from("git")];
    assert_eq!(detect_schema(&keys, &schemas), Some(&["git", "rev"][..]));
    assert_eq!(detect_schema(&[String::from("x")], &schemas), None);
}

#[test]
fn parents_between_a_table_and_its_prefix_are_added_once() {
    let mut found: Vec<String> = Vec::new();
    add_intermediate_parents("a.b.c.d", 1, &mut found);
    assert_eq!(found, vec![String::from("a.b.c")]);
    let mut found = vec![String::from("a.b")];
    add_intermediate_parents("a.b.c.d", 0, &mut found);
    assert_eq!(found, vec![String::from("a.b"), String::from("a.b.c")]);
}

#[test]
fn an_inline_table_without_comments_stays_on_one_line() {
    let a = InlineEntry { key: String::from("a"), text: String::from("a = 1"), leading: vec![], trailing: None };
    let b = InlineEntry { key: String::from("b"), text: String::from("b = 2"), leading: vec![], trailing: None };
    assert_eq!(build_inline_table_text(&[&a, &b]), "_x = { a = 1, b = 2 }\n");
    assert_eq!(build_inline_table_text(&[]), "_x = {  }\n");
}

#[test]
fn a_comment_opens_the_inline_table_over_lines() {
    let a = InlineEntry {
        key: String::from("a"),
        text: String::from("a = 1"),
        leading: vec![String::from("# lead")],
        trailing: None,
    };
    let b = InlineEntry {
        key: String::from("b"),
        text: String::from("b = 2"),
        leading: vec![],
        trailing: Some(String::from("# t")),
    };
    assert_eq!(build_inline_table_text(&[&a, &b]), "_x = {\n  # lead\n  a = 1,\n  b = 2 # t\n}\n");
}

/// A name whose quotes all close splits at its last dot outside them into a leaf that holds no such
/// dot and a parent that holds one fewer.
#[test]
fn a_split_name_counts_one_dot_fewer() {
    for name in ["tool.\"a.b\"", "a.b.c", "a.\"b.c\".d", "\"x.y\".z"] {
        let (parent, leaf) = split_table_name(name);
        assert_eq!(format!("{parent}.{leaf}"), name);
        assert_eq!(count_unquoted_dots(&leaf), 0, "{name}");
        assert_eq!(count_unquoted_dots(&parent) + 1, count_unquoted_dots(name), "{name}");
    }
    assert_eq!(split_table_name("tool.\"a.b\""), (String::from("tool"), String::from("\"a.b\"")));
    assert_eq!(split_table_name("a.b.c"), (String::from("a.b"), String::from("c")));
}
