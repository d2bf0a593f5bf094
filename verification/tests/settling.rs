use common::pep508::{MarkerExpr, Requirement, Version, VersionOp};

fn formatted(start: &str, keep_full_version: bool) -> String {
    Requirement::new(start)
        .expect("a requirement")
        .normalize(keep_full_version)
        .to_string()
}

/// A marker written in its one form reads back as a marker written the same way.
#[test]
fn a_written_marker_reads_back_as_itself() {
    for (start, written) in [
        (
            r#"os_name == "a" or (python_version >= '3.8' and extra == "x")"#,
            "os_name=='a' or (python_version>='3.8' and extra=='x')",
        ),
        (r#"os_name == "it's""#, r#"os_name=="it's""#),
        (r#"'linux' not in sys_platform"#, "'linux' not in sys_platform"),
        (
            r#"((python_version<"3.9"))and extra=='a' and extra=="b""#,
            "((python_version<'3.9')) and extra=='a' and extra=='b'",
        ),
    ] {
        let once = MarkerExpr::new(start).expect("a marker").to_string();
        assert_eq!(once, written, "{start}");
        let twice = MarkerExpr::new(&once).expect("the written marker reads").to_string();
        assert_eq!(twice, once, "{start}");
    }
}

/// A version spelled in its one form reads back as a version spelled the same way.
#[test]
fn a_spelled_version_reads_back_as_itself() {
    for (start, spelled) in [
        ("1.0", "1.0"),
        ("v1.0.0-ALPHA", "1.0.0a0"),
        ("2!01.02rc3.post4.dev5+Ubuntu-1_x", "2!1.2rc3.post4.dev5+ubuntu.1.x"),
        ("1.0-7", "1.0.post7"),
        ("1.0.*", "1.0.*"),
        ("1.0preview2", "1.0rc2"),
    ] {
        let once = Version::new(start).expect("a version").to_string();
        assert_eq!(once, spelled, "{start}");
        let twice = Version::new(&once).expect("the spelling reads").to_string();
        assert_eq!(twice, once, "{start}");
    }
}

/// A clause written back reads as a clause written the same way.
#[test]
fn a_written_clause_reads_back_as_itself() {
    for (start, written) in [
        (">= 1.0.0", ">=1.0.0"),
        ("===foo-bar", "===foo-bar"),
        ("~=2.2.0", "~=2.2.0"),
        ("!=1.0.*", "!=1.0.*"),
    ] {
        let once = VersionOp::new(start).expect("a clause").to_string();
        assert_eq!(once, written, "{start}");
        let twice = VersionOp::new(&once).expect("the written clause reads").to_string();
        assert_eq!(twice, once, "{start}");
    }
}

/// Formatting a requirement that was formatted already changes nothing, with the closing zeros
/// dropped or kept.
#[test]
fn a_formatted_requirement_formats_to_itself() {
    for start in [
        r#"Requests [tests , security] >= 2.0.0, == 2.8.* ; (os_name=="a" or os_name=='b') and python_version > "3.8""#,
        "A.B_c[Z,y,x]~=1.0.0,!=1.5",
        "pkg @ https://example.com/a;b.whl ; extra == 'x'",
        "pkg@https://example.com/p.zip",
        "name===1.0-custom",
        "zope.interface (>=5.0.0, <6.0.0,)",
        "x[a]",
    ] {
        for keep_full_version in [false, true] {
            let once = formatted(start, keep_full_version);
            let twice = formatted(&once, keep_full_version);
            assert_eq!(twice, once, "{start} {keep_full_version}");
        }
    }
    assert_eq!(
        formatted("A.B_c[Z,y,x]~=1.0.0,!=1.5.0", false),
        "a-b-c[Z,x,y]~=1.0.0,!=1.5"
    );
    assert_eq!(
        formatted("pkg @ https://example.com/a;b.whl ; extra == 'x'", false),
        "pkg @ https://example.com/a;b.whl ; extra=='x'"
    );
}

/// The one requirement whose written form does not read back: a direct reference that opens on a
/// semicolon, which the written ` @ ` puts white space before, so the semicolon opens a marker.
#[test]
fn a_reference_opening_on_a_semicolon_does_not_read_back() {
    let once = formatted("a @;x", false);
    assert_eq!(once, "a @ ;x");
    assert!(Requirement::new(&once).is_err());
}
