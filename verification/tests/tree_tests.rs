use gravity_core::tree::{build_tree, toggle_node, FileNode, FsEntry};

fn path(parts: &[&str]) -> Vec<String> {
    parts.iter().map(|s| s.to_string()).collect()
}

fn entry(parts: &[&str], is_dir: bool) -> FsEntry {
    FsEntry { path: path(parts), is_dir }
}

fn child_names(node: &FileNode) -> Vec<String> {
    node.children.iter().map(|c| c.name.clone()).collect()
}

fn trees_identical(a: &FileNode, b: &FileNode) -> bool {
    a.name == b.name
        && a.path == b.path
        && a.is_dir == b.is_dir
        && a.is_expanded == b.is_expanded
        && a.children.len() == b.children.len()
        && a
            .children
            .iter()
            .zip(b.children.iter())
            .all(|(x, y)| trees_identical(x, y))
}

fn expansion_states(node: &FileNode, out: &mut Vec<(Vec<String>, bool)>) {
    out.push((node.path.clone(), node.is_expanded));
    for c in &node.children {
        expansion_states(c, out);
    }
}

fn sample_entries() -> Vec<FsEntry> {
    vec![
        entry(&[], true),
        entry(&["z.txt"], false),
        entry(&["dirB"], true),
        entry(&["dirA"], true),
        entry(&["dirA", "a.txt"], false),
        entry(&["dirB", "b.txt"], false),
    ]
}

#[test]
fn new_node_is_collapsed_and_named_after_last_component() {
    let n = FileNode::new(path(&["home", "user", "notes.txt"]), false);
    assert_eq!(n.name, "notes.txt");
    assert_eq!(n.path, path(&["home", "user", "notes.txt"]));
    assert!(!n.is_dir);
    assert!(!n.is_expanded);
    assert!(n.children.is_empty());
}

#[test]
fn root_node_has_empty_name() {
    let n = FileNode::new(path(&[]), true);
    assert_eq!(n.name, "");
    assert!(n.is_dir);
}

#[test]
fn sort_children_puts_directories_before_files_case_insensitively() {
    let mut parent = FileNode::new(path(&[]), true);
    parent.children.push(FileNode::new(path(&["zeta.txt"]), false));
    parent.children.push(FileNode::new(path(&["beta"]), true));
    parent.children.push(FileNode::new(path(&["Alpha.txt"]), false));
    parent.children.push(FileNode::new(path(&["Gamma"]), true));
    parent.sort_children();
    assert_eq!(child_names(&parent), vec!["beta", "Gamma", "Alpha.txt", "zeta.txt"]);
}

#[test]
fn sort_children_breaks_case_insensitive_ties_by_raw_code_points() {
    let mut parent = FileNode::new(path(&[]), true);
    parent.children.push(FileNode::new(path(&["aa.txt"]), false));
    parent.children.push(FileNode::new(path(&["AA.txt"]), false));
    parent.sort_children();
    assert_eq!(child_names(&parent), vec!["AA.txt", "aa.txt"]);
}

#[test]
fn top_level_order_is_dir_a_dir_b_then_z() {
    let root = build_tree(&path(&[]), sample_entries()).expect("root should be built");
    assert_eq!(child_names(&root), vec!["dirA", "dirB", "z.txt"]);
    assert!(root.children[0].is_dir);
    assert!(root.children[1].is_dir);
    assert!(!root.children[2].is_dir);
    assert_eq!(child_names(&root.children[0]), vec!["a.txt"]);
    assert_eq!(child_names(&root.children[1]), vec!["b.txt"]);
}

#[test]
fn build_without_root_entry_returns_nothing() {
    let entries = vec![entry(&["dirA"], true), entry(&["dirA", "a.txt"], false)];
    assert!(build_tree(&path(&[]), entries).is_none());
    assert!(build_tree(&path(&[]), Vec::new()).is_none());
}

#[test]
fn build_root_keeps_its_kind_and_path() {
    let root_path = path(&["srv", "data"]);
    let entries = vec![
        FsEntry { path: root_path.clone(), is_dir: true },
        entry(&["srv", "data", "log.txt"], false),
    ];
    let root = build_tree(&root_path, entries).expect("root should be built");
    assert_eq!(root.path, root_path);
    assert_eq!(root.name, "data");
    assert!(root.is_dir);
    assert_eq!(child_names(&root), vec!["log.txt"]);
}

#[test]
fn entries_whose_parent_was_not_enumerated_are_dropped() {
    let entries = vec![entry(&[], true), entry(&["gone", "b.txt"], false)];
    let root = build_tree(&path(&[]), entries).expect("root should be built");
    assert!(root.children.is_empty());
}

#[test]
fn build_is_deterministic_across_enumeration_orders() {
    let forward = build_tree(&path(&[]), sample_entries()).unwrap();
    let mut reversed_entries = sample_entries();
    reversed_entries.reverse();
    let reversed = build_tree(&path(&[]), reversed_entries).unwrap();
    assert!(trees_identical(&forward, &reversed));
    let again = build_tree(&path(&[]), sample_entries()).unwrap();
    assert!(trees_identical(&forward, &again));
}

#[test]
fn a_single_file_root_builds_to_a_leaf() {
    let root_path = path(&["srv", "notes.txt"]);
    let entries = vec![FsEntry { path: root_path.clone(), is_dir: false }];
    let root = build_tree(&root_path, entries).expect("the lone entry is the root");
    assert!(!root.is_dir);
    assert!(root.children.is_empty());
    assert_eq!(root.name, "notes.txt");
}

#[test]
fn toggle_reaches_the_root_itself() {
    let mut root = build_tree(&path(&[]), sample_entries()).unwrap();
    toggle_node(&mut root, &path(&[]));
    assert!(root.is_expanded);
    assert!(!root.children[0].is_expanded);
    toggle_node(&mut root, &path(&[]));
    assert!(!root.is_expanded);
}

#[test]
fn toggle_flips_exactly_the_matched_node() {
    let mut root = build_tree(&path(&[]), sample_entries()).unwrap();
    toggle_node(&mut root, &path(&["dirA"]));
    assert!(root.children[0].is_expanded);
    assert!(!root.children[1].is_expanded);
    assert!(!root.is_expanded);
    assert_eq!(child_names(&root), vec!["dirA", "dirB", "z.txt"]);
}

#[test]
fn double_toggle_restores_every_expansion_flag() {
    let mut root = build_tree(&path(&[]), sample_entries()).unwrap();
    toggle_node(&mut root, &path(&["dirB"]));
    let mut before = Vec::new();
    expansion_states(&root, &mut before);
    toggle_node(&mut root, &path(&["dirA"]));
    toggle_node(&mut root, &path(&["dirA"]));
    let mut after = Vec::new();
    expansion_states(&root, &mut after);
    assert_eq!(before, after);
}

#[test]
fn toggle_of_an_absent_path_changes_nothing() {
    let mut root = build_tree(&path(&[]), sample_entries()).unwrap();
    let snapshot = build_tree(&path(&[]), sample_entries()).unwrap();
    toggle_node(&mut root, &path(&["stale", "node.txt"]));
    assert!(trees_identical(&root, &snapshot));
}
