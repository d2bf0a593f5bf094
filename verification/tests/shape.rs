//! Which tables fold into their parents.

use common::shape::Tables;

fn named(name: &str) -> Vec<String> {
    common::sections::parse_name(name)
}

/// The closest setting that names a table or one above it decides whether it folds, so a setting
/// on a child outranks one on its parent.
#[test]
fn the_closest_setting_says_whether_a_table_folds() {
    let held = Tables::new(
        "short",
        &[String::from("tool.a"), String::from("tool.b.c")],
        &[String::from("tool.a.keep")],
    );

    assert!(held.should_collapse(&named("tool.other")));
    assert!(!held.should_collapse(&named("tool.a")));
    assert!(!held.should_collapse(&named("tool.a.child")));
    assert!(held.should_collapse(&named("tool.a.keep")));
    assert!(!held.should_collapse(&named("tool.b.c")));
    assert!(held.should_collapse(&named("tool.b")));
}

/// A name TOML quotes is one segment, so a setting cannot cut one holding a dot in half.
#[test]
fn a_quoted_name_is_the_one_segment_the_file_wrote() {
    let held = Tables::new("long", &[], &[String::from("tool.\"a.b\"")]);

    assert!(held.should_collapse(&named("tool.\"a.b\"")));
    assert!(!held.should_collapse(&named("tool.a.b")));
    assert!(!held.should_collapse(&named("tool.a")));
}

#[test]
fn a_fold_wins_over_an_expansion_of_the_same_name() {
    let held = Tables::new("long", &[String::from("a")], &[String::from("a")]);
    assert!(held.should_collapse(&named("a")));
    assert!(!held.default_collapse);
    assert!(!Tables::new("long", &[], &[]).should_collapse(&named("x")));
    assert!(Tables::new("short", &[], &[]).should_collapse(&[]));
}
