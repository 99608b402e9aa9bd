use dutree::tree::walk;
use dutree::tree::FsEntry;

fn file(name: &str, size: u64) -> FsEntry {
    FsEntry::File { name: name.to_string(), size }
}

fn dir(name: &str, entries: Vec<FsEntry>) -> FsEntry {
    FsEntry::Dir { name: name.to_string(), entries }
}

#[test]
fn nested_tree_aggregates_sizes_and_counts() {
    let root = dir(
        "root",
        vec![file("a", 10), file("b", 20), dir("sub", vec![file("c", 5)])],
    );
    let (node, totals) = walk(&root);
    let node = node.expect("a directory root builds a node");
    assert_eq!(node.name, "root");
    assert_eq!(node.size, 35);
    assert_eq!(node.children.len(), 1);
    assert_eq!(node.children[0].name, "sub");
    assert_eq!(node.children[0].size, 5);
    assert_eq!(node.children[0].children.len(), 0);
    assert_eq!(totals.file_count, 3);
    assert_eq!(totals.total_size, 35);
}

#[test]
fn empty_root_gives_zero_everything() {
    let root = dir("root", vec![]);
    let (node, totals) = walk(&root);
    let node = node.expect("a directory root builds a node");
    assert_eq!(node.size, 0);
    assert_eq!(node.children.len(), 0);
    assert_eq!(totals.file_count, 0);
    assert_eq!(totals.total_size, 0);
}

#[test]
fn a_file_root_contributes_totals_but_no_node() {
    let root = file("just-a-file", 42);
    let (node, totals) = walk(&root);
    assert!(node.is_none());
    assert_eq!(totals.file_count, 1);
    assert_eq!(totals.total_size, 42);
}

#[test]
fn other_entries_are_ignored() {
    let root = dir(
        "root",
        vec![
            file("a", 7),
            FsEntry::Other { name: "a-socket".to_string() },
            dir("sub", vec![FsEntry::Other { name: "a-link".to_string() }]),
        ],
    );
    let (node, totals) = walk(&root);
    let node = node.expect("a directory root builds a node");
    assert_eq!(node.size, 7);
    assert_eq!(node.children.len(), 1);
    assert_eq!(node.children[0].size, 0);
    assert_eq!(totals.file_count, 1);
    assert_eq!(totals.total_size, 7);
}

#[test]
fn children_keep_traversal_order() {
    let root = dir(
        "root",
        vec![
            dir("zebra", vec![]),
            file("x", 1),
            dir("apple", vec![]),
            dir("mango", vec![]),
        ],
    );
    let (node, _) = walk(&root);
    let node = node.unwrap();
    let names: Vec<&str> = node.children.iter().map(|c| c.name.as_str()).collect();
    assert_eq!(names, vec!["zebra", "apple", "mango"]);
}

#[test]
fn try_walk_agrees_with_walk_on_ordinary_trees() {
    let root = dir("root", vec![file("a", 10), dir("sub", vec![file("c", 5)])]);
    let (node, totals) = dutree::tree::try_walk(&root).expect("these totals fit");
    assert_eq!(node.unwrap().size, 15);
    assert_eq!(totals.total_size, 15);
    assert_eq!(totals.file_count, 2);
}

#[test]
fn try_walk_refuses_an_overflowing_tree() {
    let root = dir("root", vec![file("a", u64::MAX), file("b", 1)]);
    assert!(dutree::tree::try_walk(&root).is_none());
}
