use common::util::limit_blank_lines;

#[test]
fn test_limit_blank_lines_no_excess() {
    let input = "line1\nline2\n\nline3\n";
    let result = limit_blank_lines(input, 2);
    assert_eq!(result, input);
}

#[test]
fn test_limit_blank_lines_removes_excess() {
    let input = "line1\n\n\n\nline2\n";
    let expected = "line1\n\n\nline2\n";
    let result = limit_blank_lines(input, 2);
    assert_eq!(result, expected);
}

#[test]
fn test_limit_blank_lines_multiple_sections() {
    let input = "section1\n\n\n\nsection2\n\n\n\nsection3\n";
    let expected = "section1\n\n\nsection2\n\n\nsection3\n";
    let result = limit_blank_lines(input, 2);
    assert_eq!(result, expected);
}

#[test]
fn test_limit_blank_lines_preserves_trailing_newline() {
    let input = "line1\n\n\n\nline2\n";
    let result = limit_blank_lines(input, 1);
    assert!(result.ends_with('\n'));
}

#[test]
fn test_limit_blank_lines_no_trailing_newline() {
    let input = "line1\n\n\n\nline2";
    let result = limit_blank_lines(input, 1);
    assert!(!result.ends_with('\n'));
}

#[test]
fn test_limit_blank_lines_zero_max() {
    let input = "line1\n\n\nline2\n";
    let expected = "line1\nline2\n";
    let result = limit_blank_lines(input, 0);
    assert_eq!(result, expected);
}

/// Limiting blank lines in text that was limited already changes nothing.
#[test]
fn limiting_twice_limits_as_once() {
    for input in [
        "",
        "\n",
        "a\n\n \n",
        "a\n\n\n\nb  \n\n",
        "x\r\n\r\n\r\ny",
        "\n\n\n",
        "a\n\n ",
    ] {
        for max in 0..3 {
            let once = limit_blank_lines(input, max);
            assert_eq!(limit_blank_lines(&once, max), once, "{input:?} {max}");
        }
    }
    assert_eq!(limit_blank_lines("a\n\n ", 2), "a\n\n");
}
