//! How wide a value is written, and the room a fold has.

use common::layout::{one_line_written, Written};
use common::nesting::{is_below, Under, Width};

fn parts(w: Written) -> (usize, usize, bool) {
    (w.columns, w.last_line, w.broken)
}

#[test]
fn members_written_on_one_line_take_their_brackets_and_separators() {
    assert_eq!(parts(one_line_written(&[])), (2, 2, false));
    assert_eq!(parts(one_line_written(&[Written::of(1), Written::of(2)])), (9, 9, false));
    let broken = Written { columns: 5, last_line: 2, broken: true };
    assert_eq!(parts(one_line_written(&[broken])), (9, 4, true));
}

#[test]
fn a_run_written_after_another_adds_up() {
    let a = Written::of(3);
    let b = Written { columns: 4, last_line: 1, broken: true };
    assert_eq!(parts(a.followed_by(b)), (7, 1, true));
    assert_eq!(parts(b.followed_by(a)), (7, 4, true));
    assert_eq!(parts(Written::of(0).followed_by(a)), parts(a));
    assert_eq!(parts(Written::text("abc")), (3, 3, false));
    let text = Written::text("ab\ncde");
    assert_eq!((text.last_line, text.broken), (3, true));
}

#[test]
fn an_unbounded_width_reaches_every_column() {
    let w = Width::unbounded();
    assert_eq!((w.column, w.indent), (usize::MAX, 2));
}

#[test]
fn a_section_taken_out_moves_the_ones_after_it_up() {
    let mut under = Under { at: vec![1, 3, 5] };
    under.gone(3);
    assert_eq!(under.at, vec![1, 4]);
    under.gone(0);
    assert_eq!(under.at, vec![0, 3]);
}

#[test]
fn a_name_below_another_opens_with_it_and_goes_on() {
    let s = |v: &[&str]| v.iter().map(|x| x.to_string()).collect::<Vec<String>>();
    assert!(is_below(&s(&["a", "b", "c"]), &s(&["a", "b"])));
    assert!(!is_below(&s(&["a", "b"]), &s(&["a", "b"])));
    assert!(!is_below(&s(&["a", "x", "c"]), &s(&["a", "b"])));
    assert!(is_below(&s(&["a"]), &[]));
}
