use common::blocks::{block_keys, block_order, BlockKey};

fn names(v: &[&str]) -> Vec<String> {
    v.iter().map(|s| s.to_string()).collect()
}

fn fields(k: &BlockKey) -> (usize, usize, usize, usize, String) {
    (k.placed, k.group, k.below, k.within, k.last.clone())
}

/// The order names the tables it places, a tool it does not name stays among the tools, a table
/// nobody's tool comes last, and a table leads the tables below it.
#[test]
fn blocks_go_where_the_order_puts_them() {
    let segments: Vec<Vec<String>> = vec![
        names(&["project"]),
        names(&["tool", "ruff"]),
        names(&["tool", "ruff", "lint"]),
        names(&["build-system"]),
        names(&["tool", "black"]),
        names(&["zzz"]),
        names(&["tool", "mypy"]),
    ];
    let bases = names(&["project", "tool.ruff", "tool.ruff", "build-system", "tool.black", "zzz", "tool.mypy"]);
    let leaves = names(&["", "", "lint", "", "", "", ""]);
    let ruff_order = Some(names(&["format", "lint"]));
    let key_orders = vec![None, ruff_order.clone(), ruff_order, None, None, None, None];
    let kept: Vec<Vec<String>> = vec![Vec::new(); 7];
    let order = ["build-system", "project", "tool.black", "tool.ruff"];
    let keys = block_keys(&segments, &bases, &leaves, &key_orders, &kept, &order, &["tool"]);
    let got: Vec<_> = keys.iter().map(fields).collect();
    assert_eq!(
        got,
        vec![
            (1, 0, 0, 0, String::new()),
            (3, 1, 0, 2, String::new()),
            (3, 1, 1, 1, String::from("lint")),
            (0, 2, 0, 0, String::new()),
            (2, 3, 0, 0, String::new()),
            (5, 4, 0, 0, String::new()),
            (4, 5, 0, 0, String::new()),
        ]
    );
    assert_eq!(block_order(&keys), vec![3, 0, 4, 1, 2, 6, 5]);
}

/// Below a table, the part of the name a kept name claims sorts in small letters, and blocks with
/// the same key keep the order they were written in.
#[test]
fn a_kept_name_holds_its_run_in_place() {
    let segments: Vec<Vec<String>> = vec![
        names(&["tool", "x", "Lint", "b"]),
        names(&["tool", "x", "Lint", "a"]),
        names(&["tool", "x", "Other"]),
    ];
    let bases = names(&["tool.x", "tool.x", "tool.x"]);
    let leaves = names(&["Lint.b", "Lint.a", "Other"]);
    let key_orders = vec![None, None, None];
    let kept = vec![names(&["Lint"]), names(&["Lint"]), names(&["Lint"])];
    let keys = block_keys(&segments, &bases, &leaves, &key_orders, &kept, &[], &["tool"]);
    let got: Vec<_> = keys.iter().map(|k| k.last.clone()).collect();
    assert_eq!(got, ["lint", "lint", "other"]);
    assert_eq!(keys[0].placed, 0);
    assert_eq!(block_order(&keys), vec![0, 1, 2]);
    let unkept = vec![Vec::new(), Vec::new(), Vec::new()];
    let keys = block_keys(&segments, &bases, &leaves, &key_orders, &unkept, &[], &["tool"]);
    assert_eq!(keys[0].last, "lint.b");
    assert_eq!(block_order(&keys), vec![1, 0, 2]);
}
