use portal::proto::DirTreeItem;
use portal::scan::{is_hidden_name, scan, FsEntry};

fn file(name: &str) -> FsEntry {
    FsEntry::File(name.to_string())
}

fn dir(name: &str, entries: Vec<FsEntry>) -> FsEntry {
    FsEntry::Dir(name.to_string(), entries)
}

#[test]
fn hidden_file_and_empty_dir_are_dropped() {
    let root = vec![file("a.txt"), file(".hidden"), dir("empty", vec![])];
    let items = scan(&root);
    assert_eq!(items.len(), 1);
    assert_eq!(items[0].path, "a.txt");
    assert!(items[0].children.is_empty());
}

#[test]
fn nested_hidden_file_is_dropped() {
    let root = vec![dir("sub", vec![file("keep.txt"), file(".skip")])];
    let items = scan(&root);
    assert_eq!(items.len(), 1);
    assert_eq!(items[0].path, "sub");
    assert_eq!(items[0].children.len(), 1);
    assert_eq!(items[0].children[0].path, "keep.txt");
    assert!(items[0].children[0].children.is_empty());
}

#[test]
fn directory_of_hidden_files_collapses() {
    let root = vec![dir("only_hidden", vec![file(".a"), file(".b")]), file("x")];
    let items = scan(&root);
    assert_eq!(items.len(), 1);
    assert_eq!(items[0].path, "x");
}

#[test]
fn hidden_directory_is_dropped() {
    let root = vec![dir(".git", vec![file("config")]), file("README")];
    let items = scan(&root);
    assert_eq!(items.len(), 1);
    assert_eq!(items[0].path, "README");
}

#[test]
fn deep_pruning_and_order() {
    let root = vec![
        file("z"),
        dir("a", vec![dir("b", vec![dir("c", vec![])]), dir("d", vec![file("e")])]),
        file("m"),
    ];
    let items = scan(&root);
    let names: Vec<&str> = items.iter().map(|i| i.path.as_str()).collect();
    assert_eq!(names, vec!["z", "a", "m"]);
    assert_eq!(items[1].children.len(), 1);
    assert_eq!(items[1].children[0].path, "d");
    assert_eq!(items[1].children[0].children[0].path, "e");
}

#[test]
fn empty_listing_scans_to_nothing() {
    assert!(scan(&vec![]).is_empty());
}

#[test]
fn hidden_names() {
    assert!(is_hidden_name(&".x".to_string()));
    assert!(is_hidden_name(&".".to_string()));
    assert!(!is_hidden_name(&"x.".to_string()));
    assert!(!is_hidden_name(&String::new()));
}

#[test]
fn is_dir_follows_children() {
    let leaf = DirTreeItem { path: "f".to_string(), children: vec![] };
    assert!(!leaf.is_dir());
    let node = DirTreeItem {
        path: "d".to_string(),
        children: vec![DirTreeItem { path: "f".to_string(), children: vec![] }],
    };
    assert!(node.is_dir());
}
