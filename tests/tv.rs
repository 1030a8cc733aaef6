use race::tree::{NodeId, Tree};
use race::tui::tv::TreeView;
use race::tui::Client;

use std::collections::HashMap;

/// The lines a mock node of `num_lines` lines shows: counting down.
fn mock_lines(num_lines: u32, name: &str) -> Vec<String> {
    (0..num_lines)
        .rev()
        .map(|k| format!("{}_line_{}", name, k))
        .collect()
}

fn make_tree(n: u32) -> (Tree<Vec<String>>, HashMap<String, NodeId>) {
    let mut t = Tree::new(mock_lines(n, "root"));

    let mut ids = HashMap::new();
    ids.insert("root".to_string(), 0);

    for (name, parent) in &vec![
        ("n1", "root"),
        ("n2", "root"),
        ("n3", "root"),
        ("n11", "n1"),
        ("n12", "n1"),
        ("n31", "n3"),
        ("n32", "n3"),
        ("n111", "n11"),
        ("n311", "n31"),
        ("n1111", "n111"),
        ("n3111", "n311"),
    ] {
        let parent = ids[&parent.to_string()];
        let id = t.insert(mock_lines(n, name), Some(parent));
        ids.insert(name.to_string(), id);
    }

    (t, ids)
}

fn check_iter(n: u32, expected_lines: &[&str], expected_names: &[&str]) {
    let (t, ids) = make_tree(n);
    let mut tv = TreeView::new(&t);

    let mut line_count = 0;
    for (idx, line) in tv.gen_lines().into_iter().enumerate() {
        line_count += 1;
        assert_eq!(line, expected_lines[idx]);
    }
    assert_eq!(line_count, expected_lines.len());
    for idx in 0..line_count {
        assert_eq!(tv.lookup()[idx], ids[expected_names[idx]]);
    }
}

const ONE_LINE: [&str; 12] = [
    "[+] root_line_0",
    "    ├── [+] n1_line_0",
    "    │       ├── [+] n11_line_0",
    "    │       │       └── [+] n111_line_0",
    "    │       │               └── [+] n1111_line_0",
    "    │       └── [+] n12_line_0",
    "    ├── [+] n2_line_0",
    "    └── [+] n3_line_0",
    "            ├── [+] n31_line_0",
    "            │       └── [+] n311_line_0",
    "            │               └── [+] n3111_line_0",
    "            └── [+] n32_line_0",
];

const ONE_LINE_IDS: [&str; 12] = [
    "root", "n1", "n11", "n111", "n1111", "n12", "n2", "n3", "n31", "n311", "n3111", "n32",
];

const TWO_LINES: [&str; 24] = [
    "[+] root_line_1",
    "    root_line_0",
    "    ├── [+] n1_line_1",
    "    │       n1_line_0",
    "    │       ├── [+] n11_line_1",
    "    │       │       n11_line_0",
    "    │       │       └── [+] n111_line_1",
    "    │       │               n111_line_0",
    "    │       │               └── [+] n1111_line_1",
    "    │       │                       n1111_line_0",
    "    │       └── [+] n12_line_1",
    "    │               n12_line_0",
    "    ├── [+] n2_line_1",
    "    │       n2_line_0",
    "    └── [+] n3_line_1",
    "            n3_line_0",
    "            ├── [+] n31_line_1",
    "            │       n31_line_0",
    "            │       └── [+] n311_line_1",
    "            │               n311_line_0",
    "            │               └── [+] n3111_line_1",
    "            │                       n3111_line_0",
    "            └── [+] n32_line_1",
    "                    n32_line_0",
];

const TWO_LINES_IDS: [&str; 24] = [
    "root", "root", "n1", "n1", "n11", "n11", "n111", "n111", "n1111", "n1111", "n12", "n12",
    "n2", "n2", "n3", "n3", "n31", "n31", "n311", "n311", "n3111", "n3111", "n32", "n32",
];

#[test]
fn tv_iter() {
    check_iter(1, &ONE_LINE, &ONE_LINE_IDS);
}

#[test]
fn tv_iter_2lines() {
    check_iter(2, &TWO_LINES, &TWO_LINES_IDS);
}

#[test]
fn tui_iter() {
    check_iter(1, &ONE_LINE, &ONE_LINE_IDS);
}

#[test]
fn tui_iter_2lines() {
    check_iter(2, &TWO_LINES, &TWO_LINES_IDS);
}
