//! Message shapes shared by both ends of the portal protocol, and their
//! mathematical models.
use vstd::prelude::*;

verus! {

/// Model of one tree node: its name and its children, in order.
pub struct TreeNode {
    pub name: Seq<char>,
    pub children: Seq<TreeNode>,
}

/// One filesystem node in a listing. `path` holds the last path segment only;
/// an empty `children` marks a file.
pub struct DirTreeItem {
    pub path: String,
    pub children: Vec<DirTreeItem>,
}

/// Result of a listing request: the retained immediate children of the path.
pub struct DirTree {
    pub roots: Vec<DirTreeItem>,
}

pub struct ListDirRequest {
    pub path: String,
}

pub struct OpenFileRequest {
    pub path: String,
}

/// What is known of a file when it is opened.
pub struct FileMetadata {
    pub mime_type: String,
    pub size: u64,
}

/// The two kinds of frame in a file-content stream.
pub enum Content {
    Metadata(FileMetadata),
    Data(Vec<u8>),
}

/// One frame of a file-content stream; a frame without content carries nothing.
pub struct FileContent {
    pub content: Option<Content>,
}

/// The model of a listed item.
pub open spec fn node_of(item: DirTreeItem) -> TreeNode
    decreases item,
{
    TreeNode { name: item.path@, children: nodes_of(item.children@) }
}

/// The models of a sequence of listed items, in order.
pub open spec fn nodes_of(items: Seq<DirTreeItem>) -> Seq<TreeNode>
    decreases items,
{
    if items.len() == 0 {
        Seq::empty()
    } else {
        nodes_of(items.drop_last()).push(node_of(items.last()))
    }
}

impl DirTreeItem {
    /// An item is a directory exactly when it has children.
    pub fn is_dir(&self) -> (r: bool)
        ensures
            r == (self.children@.len() > 0),
    {
        !self.children.is_empty()
    }
}

} // verus!
