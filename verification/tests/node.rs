use magic_mount::error::Error;
use magic_mount::magic_mount::node::{DirEntryInfo, Node, NodeFileType};

fn file(name: &str, dir: &str) -> DirEntryInfo {
    DirEntryInfo {
        name: name.to_string(),
        path: format!("{dir}/{name}"),
        file_type: Some(NodeFileType::RegularFile),
        opaque_xattr: None,
        has_replace_file: false,
        listing: None,
    }
}

fn dir(name: &str, parent: &str, entries: Vec<DirEntryInfo>) -> DirEntryInfo {
    DirEntryInfo {
        name: name.to_string(),
        path: format!("{parent}/{name}"),
        file_type: Some(NodeFileType::Directory),
        opaque_xattr: None,
        has_replace_file: false,
        listing: Some(entries),
    }
}

fn names(n: &Node) -> Vec<String> {
    n.children.iter().map(|c| c.name.clone()).collect()
}

#[test]
fn new_root_is_an_empty_directory() {
    let r = Node::new_root("system");
    assert_eq!(r.name, "system");
    assert_eq!(r.file_type, NodeFileType::Directory);
    assert!(r.children.is_empty());
    assert!(r.source_path.is_none());
    assert!(!r.replace && !r.skip);
}

#[test]
fn module_files_are_collected() {
    let m = dir("system", "/m", vec![
        file("a", "/m/system"),
        dir("bin", "/m/system", vec![file("sh", "/m/system/bin")]),
    ]);
    let mut root = Node::new_root("system");
    assert!(root.collect_module_files(&m, None).unwrap());
    assert_eq!(names(&root), vec!["a".to_string(), "bin".to_string()]);
    assert_eq!(root.children[1].children[0].name, "sh");
    assert_eq!(root.children[1].children[0].source_path.as_deref(), Some("/m/system/bin/sh"));
}

#[test]
fn a_second_module_merges_into_existing_nodes() {
    let m1 = dir("system", "/m1", vec![dir("bin", "/m1/system", vec![file("sh", "/m1/system/bin")])]);
    let m2 = dir("system", "/m2", vec![
        dir("bin", "/m2/system", vec![file("ls", "/m2/system/bin"), file("sh", "/m2/system/bin")]),
    ]);
    let mut root = Node::new_root("system");
    root.collect_module_files(&m1, None).unwrap();
    root.collect_module_files(&m2, None).unwrap();
    assert_eq!(names(&root), vec!["bin".to_string()]);
    let bin = &root.children[0];
    assert_eq!(names(bin), vec!["sh".to_string(), "ls".to_string()]);
    assert_eq!(bin.children[0].source_path.as_deref(), Some("/m1/system/bin/sh"));
}

#[test]
fn empty_directories_give_no_file() {
    let m = dir("system", "/m", vec![dir("etc", "/m/system", vec![])]);
    let mut root = Node::new_root("system");
    assert!(!root.collect_module_files(&m, None).unwrap());
    assert_eq!(names(&root), vec!["etc".to_string()]);
}

#[test]
fn a_replaced_directory_gives_a_file() {
    let mut etc = dir("etc", "/m/system", vec![]);
    etc.opaque_xattr = Some(b"y".to_vec());
    let m = dir("system", "/m", vec![etc]);
    let mut root = Node::new_root("system");
    assert!(root.collect_module_files(&m, None).unwrap());
    assert!(root.children[0].replace);

    let mut etc = dir("etc", "/m/system", vec![]);
    etc.has_replace_file = true;
    let m = dir("system", "/m", vec![etc]);
    let mut root = Node::new_root("system");
    assert!(root.collect_module_files(&m, None).unwrap());

    let mut etc = dir("etc", "/m/system", vec![]);
    etc.opaque_xattr = Some(b"yes".to_vec());
    let m = dir("system", "/m", vec![etc]);
    let mut root = Node::new_root("system");
    assert!(!root.collect_module_files(&m, None).unwrap());
    assert!(!root.children[0].replace);
}

#[test]
fn unreadable_entries_are_left_out() {
    let mut broken = file("x", "/m/system");
    broken.file_type = None;
    let m = dir("system", "/m", vec![broken]);
    let mut root = Node::new_root("system");
    assert!(!root.collect_module_files(&m, None).unwrap());
    assert!(root.children.is_empty());
}

#[test]
fn unreadable_directories_are_refused() {
    let mut bin = dir("bin", "/m/system", vec![]);
    bin.listing = None;
    let m = dir("system", "/m", vec![file("a", "/m/system"), bin]);
    let mut root = Node::new_root("system");
    match root.collect_module_files(&m, None) {
        Err(Error::NotADirectory { path }) => assert_eq!(path, "/m/system/bin"),
        other => panic!("unexpected {other:?}"),
    }
    let mut unreadable = dir("system", "/m", vec![]);
    unreadable.listing = None;
    assert!(root.collect_module_files(&unreadable, None).is_err());
}

#[test]
fn listed_paths_are_skipped() {
    let m = dir("system", "/m", vec![file("a", "/m/system"), file("b", "/m/system")]);
    let mut root = Node::new_root("system");
    root.collect_module_files(&m, Some("/m/system/b\r\n/other")).unwrap();
    assert!(!root.children[0].skip);
    assert!(root.children[1].skip);
}

#[test]
fn tree_is_shown_with_indentation() {
    let m = dir("system", "/m", vec![dir("bin", "/m/system", vec![file("sh", "/m/system/bin")])]);
    let mut root = Node::new_root("system");
    root.collect_module_files(&m, None).unwrap();
    let text = root.debug_tree(0);
    assert_eq!(
        text,
        "system (Directory)\n  bin (Directory) [/m/system/bin]\n    sh (RegularFile) [/m/system/bin/sh]\n"
    );
    assert_eq!(NodeFileType::Whiteout.name(), "Whiteout");
    assert_eq!(NodeFileType::Symlink.name(), "Symlink");
}

#[test]
fn new_module_reads_the_entry() {
    let e = file("a", "/m");
    let n = Node::new_module("a", &e, Some("/m/a")).unwrap();
    assert_eq!(n.name, "a");
    assert_eq!(n.file_type, NodeFileType::RegularFile);
    assert!(n.skip);
    assert!(!n.replace);
}
