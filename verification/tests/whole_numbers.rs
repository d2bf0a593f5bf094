//! How a whole number a setting writes is read.

use common::settings::{read_whole, Setting};

#[test]
fn a_whole_number_reads_in_every_radix_toml_writes() {
    assert_eq!(read_whole("1_000"), Some(1000));
    assert_eq!(read_whole("0x1F"), Some(31));
    assert_eq!(read_whole("-0o17"), Some(-15));
    assert_eq!(read_whole("+0b101"), Some(5));
    assert_eq!(read_whole("9223372036854775807"), Some(i64::MAX));
    assert_eq!(read_whole("-9223372036854775807"), Some(-i64::MAX));
    assert_eq!(read_whole("-9223372036854775808"), None);
}

#[test]
fn text_that_spells_no_whole_number_reads_as_none() {
    assert_eq!(read_whole("12a"), None);
    assert_eq!(read_whole(""), None);
    assert_eq!(read_whole("-"), None);
    assert_eq!(read_whole("0x"), None);
    assert_eq!(read_whole("9223372036854775808"), None);
    assert_eq!(read_whole("0b2"), None);
}

#[test]
fn a_second_sign_is_read_by_the_radix_reader() {
    assert_eq!(read_whole("--5"), Some(5));
    assert_eq!(read_whole("-+5"), Some(-5));
}

#[test]
fn a_setting_holds_the_form_it_was_written_in() {
    assert_eq!(Setting::Whole(3), Setting::Whole(3));
    assert_ne!(Setting::Truth(true), Setting::Table);
    assert_eq!(
        Setting::List(vec![Setting::Text(String::from("a"))]),
        Setting::List(vec![Setting::Text(String::from("a"))])
    );
}

/// A copy of a setting, nested lists included, is the setting it copies.
#[test]
fn a_copied_setting_is_the_same_setting() {
    let held = Setting::List(vec![
        Setting::Text(String::from("a")),
        Setting::List(vec![Setting::Whole(-2), Setting::Truth(false)]),
        Setting::Table,
    ]);
    assert_eq!(held.clone(), held);
}
