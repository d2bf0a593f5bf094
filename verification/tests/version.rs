use common::pep508::{Number, Version};

#[test]
fn test_display_unknown_pre_release_label() {
    let version = Version {
        epoch: None,
        release: ["1", "2", "3"].map(Number::read).to_vec(),
        pre: Some((String::from("unknown"), Some(Number::read("1")))),
        post: None,
        dev: None,
        local: None,
        has_wildcard: false,
    };
    assert_eq!(version.to_string(), "1.2.3unknown1");
}

#[test]
fn test_display_every_part_a_version_can_hold() {
    let version = Version {
        epoch: Some(Number::read("2")),
        release: ["1", "2", "3"].map(Number::read).to_vec(),
        pre: Some((String::from("xyz"), None)),
        post: Some((Some(String::from("post")), Some(Number::read("4")))),
        dev: Some((String::from("dev"), Some(Number::read("5")))),
        local: Some(String::from("a-b_c")),
        has_wildcard: true,
    };
    assert_eq!(version.to_string(), "2!1.2.3xyz0.post4.dev5+a.b.c.*");
}

#[test]
fn test_display_the_parts_that_carry_no_number() {
    let version = Version {
        epoch: None,
        release: vec![Number::read("1")],
        pre: None,
        post: Some((Some(String::from("post")), None)),
        dev: Some((String::from("dev"), None)),
        local: None,
        has_wildcard: false,
    };
    assert_eq!(version.to_string(), "1.post0.dev0");
}
