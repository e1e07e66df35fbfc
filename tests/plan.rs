use backup_copier::copy_handler::{CopyHandler, CopyOp, DEFAULT_MAX_IN_FLIGHT};
use backup_copier::folder_tree::{FolderTree, FolderTreeNode, FsNodeKind};
use backup_copier::paths::join_path;

fn file(name: &str, path: &str) -> FolderTreeNode {
    FolderTreeNode::new(FsNodeKind::File, name.to_string(), path.to_string())
}

fn sample_tree() -> FolderTree {
    let mut sub = FolderTreeNode::new(FsNodeKind::Dir, "sub".to_string(), "src/root/sub".to_string());
    sub.add_child(file("b.txt", "src/root/sub/b.txt"));
    sub.add_child(file("c.txt", "src/root/sub/c.txt"));
    let children = vec![Box::new(file("a.txt", "src/root/a.txt")), Box::new(sub)];
    FolderTree::new("src/root", children)
}

fn summary(ops: &[CopyOp]) -> Vec<(FsNodeKind, String, String, Option<usize>)> {
    ops.iter()
        .map(|o| (o.kind, o.source.clone(), o.dest.clone(), o.parent))
        .collect()
}

#[test]
fn nested_plan_of_sample_tree() {
    let tree = sample_tree();
    let ops = CopyHandler::plan_nested(&tree.root, "dest");
    assert_eq!(
        summary(&ops),
        vec![
            (FsNodeKind::Dir, "src/root".to_string(), "dest/root".to_string(), None),
            (FsNodeKind::File, "src/root/a.txt".to_string(), "dest/root/a.txt".to_string(), Some(0)),
            (FsNodeKind::Dir, "src/root/sub".to_string(), "dest/root/sub".to_string(), Some(0)),
            (FsNodeKind::File, "src/root/sub/b.txt".to_string(), "dest/root/sub/b.txt".to_string(), Some(2)),
            (FsNodeKind::File, "src/root/sub/c.txt".to_string(), "dest/root/sub/c.txt".to_string(), Some(2)),
        ]
    );
}

#[test]
fn nested_plan_of_empty_directory() {
    let tree = FolderTree::new("src/empty", vec![]);
    let ops = CopyHandler::plan_nested(&tree.root, "dest/");
    assert_eq!(
        summary(&ops),
        vec![(FsNodeKind::Dir, "src/empty".to_string(), "dest/empty".to_string(), None)]
    );
}

#[test]
fn nested_plan_descends_three_levels() {
    let mut c = FolderTreeNode::new(FsNodeKind::Dir, "c".to_string(), "s/a/b/c".to_string());
    c.add_child(file("f", "s/a/b/c/f"));
    let mut b = FolderTreeNode::new(FsNodeKind::Dir, "b".to_string(), "s/a/b".to_string());
    b.add_child(c);
    b.add_child(file("g", "s/a/b/g"));
    let mut a = FolderTreeNode::create_root("s/a");
    a.add_child(b);
    let ops = CopyHandler::plan_nested(&a, "d");
    let dests: Vec<String> = ops.iter().map(|o| o.dest.clone()).collect();
    assert_eq!(dests, vec!["d/a", "d/a/b", "d/a/b/c", "d/a/b/c/f", "d/a/b/g"]);
    let parents: Vec<Option<usize>> = ops.iter().map(|o| o.parent).collect();
    assert_eq!(parents, vec![None, Some(0), Some(1), Some(2), Some(1)]);
}

#[test]
fn flat_plan_copies_every_entry_as_a_file() {
    let tree = sample_tree();
    let ops = CopyHandler::plan_flat(&tree.root, "out");
    assert_eq!(
        summary(&ops),
        vec![
            (FsNodeKind::Dir, "src/root".to_string(), "out/root".to_string(), None),
            (FsNodeKind::File, "src/root/a.txt".to_string(), "out/root/a.txt".to_string(), Some(0)),
            (FsNodeKind::File, "src/root/sub".to_string(), "out/root/sub".to_string(), Some(0)),
        ]
    );
}

#[test]
fn create_root_takes_the_final_component() {
    let root = FolderTreeNode::create_root("./folders/tree_from");
    assert_eq!(root.name, "tree_from");
    assert_eq!(root.relative_path, "./folders/tree_from");
    assert_eq!(root.kind, FsNodeKind::Dir);
    assert_eq!(root.children.as_ref().map(|c| c.len()), Some(0));
    assert_eq!(FolderTreeNode::create_root("backups/photos/").name, "photos");
    assert_eq!(FolderTreeNode::create_root("/").name, "");
}

#[test]
fn new_node_has_children_only_for_directories() {
    let d = FolderTreeNode::new(FsNodeKind::Dir, "d".to_string(), "x/d".to_string());
    assert_eq!(d.children.as_ref().map(|c| c.len()), Some(0));
    let f = file("f", "x/f");
    assert!(f.children.is_none());
    let mut f2 = file("f2", "x/f2");
    f2.add_child(file("g", "x/g"));
    assert!(f2.children.is_none());
}

#[test]
fn join_inserts_one_separator() {
    assert_eq!(join_path("a", "b"), "a/b");
    assert_eq!(join_path("a/", "b"), "a/b");
    assert_eq!(join_path("", "b"), "b");
    assert_eq!(join_path("./folders/tree_to/", "root"), "./folders/tree_to/root");
}

#[test]
fn handler_limits() {
    assert_eq!(CopyHandler::new().max_in_flight, DEFAULT_MAX_IN_FLIGHT);
    assert!(CopyHandler::with_limit(0).is_none());
    assert_eq!(CopyHandler::with_limit(3).map(|h| h.max_in_flight), Some(3));
}
