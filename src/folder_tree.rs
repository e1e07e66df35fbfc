use vstd::prelude::*;

use crate::paths::{file_name, file_name_of};

verus! {

/// The kind of an entry of a directory tree.
#[derive(Debug, Clone, Copy, PartialEq, Eq, Structural)]
pub enum FsNodeKind {
    Dir,
    File,
}

/// One entry of a directory snapshot. A directory holds its entries in
/// `children` (in enumeration order); a file holds `None`.
#[derive(Debug)]
pub struct FolderTreeNode {
    pub kind: FsNodeKind,
    /// The path the entry is read from (a file) or enumerated from (a directory).
    pub relative_path: String,
    /// The entry's base name.
    pub name: String,
    pub children: Option<Vec<Box<FolderTreeNode>>>,
}

/// A snapshot of a source directory: one root node, of kind `Dir`.
#[derive(Debug)]
pub struct FolderTree {
    pub root: Box<FolderTreeNode>,
}

/// The entries of a node, empty for a node without a children list.
pub open spec fn kids(node: FolderTreeNode) -> Seq<Box<FolderTreeNode>> {
    match node.children {
        Some(c) => c@,
        None => Seq::empty(),
    }
}

impl FolderTreeNode {
    /// The node of the directory a snapshot starts from: named after the
    /// path's final component, with no entries yet.
    pub fn create_root(src_folder_path: &str) -> (r: Self)
        ensures
            r.kind == FsNodeKind::Dir,
            r.relative_path@ == src_folder_path@,
            r.name@ == file_name_of(src_folder_path@),
            r.children is Some,
            kids(r).len() == 0,
    {
        FolderTreeNode {
            kind: FsNodeKind::Dir,
            relative_path: String::from_str(src_folder_path),
            name: file_name(src_folder_path),
            children: Some(Vec::new()),
        }
    }

    /// A fresh entry: a directory starts with an empty list of entries, a
    /// file with none.
    pub fn new(kind: FsNodeKind, name: String, relative_path: String) -> (r: Self)
        ensures
            r.kind == kind,
            r.name == name,
            r.relative_path == relative_path,
            r.children is Some <==> kind == FsNodeKind::Dir,
            kids(r).len() == 0,
    {
        let children = match kind {
            FsNodeKind::Dir => Some(Vec::new()),
            FsNodeKind::File => None,
        };
        FolderTreeNode { kind, name, relative_path, children }
    }

    /// Appends an entry to a directory's list; a node without a list is
    /// left as it was.
    pub fn add_child(&mut self, child: FolderTreeNode)
        ensures
            final(self).kind == old(self).kind,
            final(self).name == old(self).name,
            final(self).relative_path == old(self).relative_path,
            final(self).children is Some <==> old(self).children is Some,
            old(self).children is Some ==> kids(*final(self)) == kids(*old(self)).push(
                Box::new(child),
            ),
            old(self).children is None ==> kids(*final(self)) == kids(*old(self)),
    {
        match &mut self.children {
            Some(c) => {
                c.push(Box::new(child));
            },
            None => {},
        }
    }
}

impl FolderTree {
    /// The snapshot of the directory at `src_folder_path`, whose entries,
    /// enumerated and indexed beforehand, are `children`.
    pub fn new(src_folder_path: &str, children: Vec<Box<FolderTreeNode>>) -> (r: Self)
        ensures
            r.root.kind == FsNodeKind::Dir,
            r.root.relative_path@ == src_folder_path@,
            r.root.name@ == file_name_of(src_folder_path@),
            r.root.children == Some(children),
    {
        let mut root_node = FolderTreeNode::create_root(src_folder_path);
        root_node.children = Some(children);
        FolderTree { root: Box::new(root_node) }
    }
}

} // verus!
