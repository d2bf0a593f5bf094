use common::sections::sort_slots;

fn key(rank: usize, text: &str) -> (usize, String) {
    (rank, String::from(text))
}

/// The held slots are sorted among themselves by rank and then text; the rest stay where they
/// were.
#[test]
fn held_slots_sort_among_themselves() {
    let mut items = vec!["a", "x", "b", "y", "c"];
    sort_slots(&mut items, &[0, 2, 4], &[key(1, "c"), key(0, "z"), key(1, "a")]);
    assert_eq!(items, vec!["b", "x", "c", "y", "a"]);
}

/// Slots with the same key keep the order they were written in.
#[test]
fn equal_keys_keep_their_order() {
    let mut items = vec![1, 2, 3, 4];
    sort_slots(&mut items, &[0, 1, 2, 3], &[key(1, "k"), key(0, "k"), key(1, "k"), key(0, "k")]);
    assert_eq!(items, vec![2, 4, 1, 3]);
}

/// Text orders as strings do, code point by code point.
#[test]
fn text_orders_as_strings_do() {
    let mut items = vec!["é", "z", "Z", "ab", "a"];
    sort_slots(
        &mut items,
        &[0, 1, 2, 3, 4],
        &[key(0, "é"), key(0, "z"), key(0, "Z"), key(0, "ab"), key(0, "a")],
    );
    let mut expected = vec!["é", "z", "Z", "ab", "a"];
    expected.sort();
    assert_eq!(items, expected);
}

/// Nothing held, nothing moves.
#[test]
fn nothing_held_moves_nothing() {
    let mut items = vec!['q', 'p'];
    sort_slots(&mut items, &[], &[]);
    assert_eq!(items, vec!['q', 'p']);
}
