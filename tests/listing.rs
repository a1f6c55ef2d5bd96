use portal::listing::dir_tree_lines;
use portal::proto::{DirTree, DirTreeItem};

fn leaf(name: &str) -> DirTreeItem {
    DirTreeItem { path: name.to_string(), children: vec![] }
}

#[test]
fn leaf_paths_in_tree_order() {
    let tree = DirTree {
        roots: vec![
            leaf("a.txt"),
            DirTreeItem {
                path: "sub".to_string(),
                children: vec![
                    leaf("keep.txt"),
                    DirTreeItem { path: "deep".to_string(), children: vec![leaf("x")] },
                ],
            },
        ],
    };
    assert_eq!(dir_tree_lines(&tree), vec!["a.txt", "sub/keep.txt", "sub/deep/x"]);
}

#[test]
fn empty_tree_has_no_lines() {
    assert!(dir_tree_lines(&DirTree { roots: vec![] }).is_empty());
}
