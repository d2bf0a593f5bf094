use common::pep508::{MarkerExpr, Requirement, Version, VersionOp};

fn version_error(raw: &str) -> Option<String> {
    Version::new(raw).err()
}

fn clause_error(raw: &str) -> Option<String> {
    VersionOp::new(raw).err()
}

fn requirement_error(raw: &str) -> Option<String> {
    Requirement::new(raw).err()
}

fn marker_error(raw: &str) -> Option<String> {
    MarkerExpr::new(raw).err()
}

/// A version that is none names the text that was read, trimmed and without its wildcard.
#[test]
fn a_version_error_names_the_text_read() {
    assert_eq!(version_error("1.0x").as_deref(), Some("Invalid version: 1.0x"));
    assert_eq!(version_error(" 1.x.* ").as_deref(), Some("Invalid version: 1.x"));
    assert_eq!(version_error("1.0"), None);
}

/// Each way a clause goes wrong is answered in its own words.
#[test]
fn a_clause_error_says_what_is_wrong() {
    for (raw, why) in [
        ("=>1", "Invalid operator: =>1"),
        (">= ", "The clause names no version: '>= '"),
        ("===1 0", "The version is written outside its own characters: '1 0'"),
        (">=abc", "Invalid version: abc"),
        (">=1.0.*", "`>=` names no version ending in `.*`"),
        ("==1.0a1.*", "`.*` follows the release numbers alone"),
        (">=1.0+local", "`>=` names no local version"),
        ("~=1", "`~=` names a version of at least two numbers"),
    ] {
        assert_eq!(clause_error(raw).as_deref(), Some(why), "{raw}");
    }
}

/// Each way a requirement goes wrong is answered in its own words, quoting what it read.
#[test]
fn a_requirement_error_says_what_is_wrong() {
    for (raw, why) in [
        ("pkg\n", "A requirement is written on one line"),
        ("pkg[extra>=1.0", "Unclosed extras bracket"),
        ("pkg[a,,b]", "Invalid extras: '[a,,b]'"),
        (" _pkg ", "Invalid name '_pkg'"),
        ("pkg>=1 @ http://x", "The requirement names a version and a URL: 'pkg>=1 @ http://x'"),
        ("pkg @ http://x y", "Unexpected text after the URL: 'http://x y'"),
        ("pkg @ ", "The direct reference names no URL"),
        ("pkg(>=1", "Unclosed parenthesis: '(>=1'"),
        ("pkg()", "The requirement names no version: '()'"),
        ("pkg>=1.0,&2.0", "Invalid version specifier '&2.0': Invalid operator: &2.0"),
        ("pkg>=1.0, ~=1", "Invalid version specifier ' ~=1': `~=` names a version of at least two numbers"),
        ("pkg>=1.0;", "Invalid marker: Expected a quoted value or a marker variable"),
        ("pkg; @@@invalid", "Invalid marker: Unexpected character: @"),
    ] {
        assert_eq!(requirement_error(raw).as_deref(), Some(why), "{raw:?}");
    }
}

/// Each way a marker goes wrong is answered in its own words.
#[test]
fn a_marker_error_says_what_is_wrong() {
    for (raw, why) in [
        ("os_name == 'a", "Unclosed string literal"),
        ("os_name == 'a' & x", "Unexpected character: &"),
        ("foo == 'a'", "`foo` is no marker variable, and a value is quoted"),
        ("os_name <> 'a'", "`<>` is no marker operator"),
        ("os_name not 'a'", "Expected 'in' after 'not'"),
        ("os_name 'a'", "Expected operator"),
        ("os_name == and", "Expected a quoted value or a marker variable"),
        ("(os_name == 'a'", "Expected ')'"),
        ("os_name == 'a' or (foo == 'b')", "`foo` is no marker variable, and a value is quoted"),
        ("os_name == 'a' and extra", "Expected operator"),
        ("os_name == 'a' os_name", "Unexpected trailing tokens"),
    ] {
        assert_eq!(marker_error(raw).as_deref(), Some(why), "{raw}");
    }
    let deep = format!("{}os_name == 'a'{}", "(".repeat(257), ")".repeat(257));
    assert_eq!(marker_error(&deep).as_deref(), Some("The marker groups more than 256 times"));
}

/// A name that is none is quoted back trimmed.
#[test]
fn a_name_error_quotes_the_name() {
    assert_eq!(
        Requirement::canonical_name_of(" a_b! ").err().as_deref(),
        Some("Invalid name 'a_b!'")
    );
}
