//! Directory scanning: turns a raw listing of a directory subtree into the
//! tree that is sent to callers, without hidden entries and without
//! directories that retain nothing.
use vstd::prelude::*;
use vstd::string::StrSliceExecFns;
use crate::proto::{DirTreeItem, TreeNode, node_of, nodes_of};

verus! {

/// One entry of a raw directory listing, in the order the filesystem gave it.
pub enum FsEntry {
    File(String),
    Dir(String, Vec<FsEntry>),
}

impl FsEntry {
    pub open spec fn name(self) -> Seq<char> {
        match self {
            FsEntry::File(name) => name@,
            FsEntry::Dir(name, _) => name@,
        }
    }
}

/// A name is hidden when it starts with a dot.
pub open spec fn is_hidden(name: Seq<char>) -> bool {
    name.len() > 0 && name[0] == '.'
}

/// The tree that a scan of `entries` yields: files that are not hidden become
/// leaves, directories that are not hidden become nodes over the scan of their
/// own entries, unless that scan is empty, and order is kept.
pub open spec fn scan_of(entries: Seq<FsEntry>) -> Seq<TreeNode>
    decreases entries,
{
    if entries.len() == 0 {
        Seq::empty()
    } else {
        let before = scan_of(entries.drop_last());
        match entries.last() {
            FsEntry::File(name) => {
                if is_hidden(name@) {
                    before
                } else {
                    before.push(TreeNode { name: name@, children: Seq::empty() })
                }
            },
            FsEntry::Dir(name, sub) => {
                let children = scan_of(sub@);
                if is_hidden(name@) || children.len() == 0 {
                    before
                } else {
                    before.push(TreeNode { name: name@, children })
                }
            },
        }
    }
}

/// The node that a retained entry becomes.
pub open spec fn retained_node(e: FsEntry, n: TreeNode) -> bool {
    &&& !is_hidden(e.name())
    &&& n.name == e.name()
    &&& match e {
        FsEntry::File(_) => n.children.len() == 0,
        FsEntry::Dir(_, sub) => n.children == scan_of(sub@) && n.children.len() > 0,
    }
}

/// Every node at any depth of `nodes` has a name that is not hidden.
pub open spec fn all_visible(nodes: Seq<TreeNode>) -> bool
    decreases nodes,
{
    forall|i: int| 0 <= i < nodes.len() ==> {
        &&& !is_hidden(#[trigger] nodes[i].name)
        &&& all_visible(nodes[i].children)
    }
}

/// A listing has one model per item.
pub proof fn lemma_nodes_of_len(items: Seq<DirTreeItem>)
    ensures
        nodes_of(items).len() == items.len(),
    decreases items.len(),
{
    if items.len() > 0 {
        lemma_nodes_of_len(items.drop_last());
    }
}

proof fn lemma_nodes_of_push(items: Seq<DirTreeItem>, item: DirTreeItem)
    ensures
        nodes_of(items.push(item)) == nodes_of(items).push(node_of(item)),
{
    assert(items.push(item).drop_last() =~= items);
}

/// Whether a name is hidden, that is, starts with a dot.
pub fn is_hidden_name(name: &String) -> (r: bool)
    ensures
        r == is_hidden(name@),
{
    let s = name.as_str();
    if s.is_empty() {
        false
    } else {
        s.get_char(0) == '.'
    }
}

/// Scans a raw listing: hidden entries are skipped, directories are scanned
/// recursively and dropped when nothing in them is retained.
pub fn scan(entries: &Vec<FsEntry>) -> (items: Vec<DirTreeItem>)
    ensures
        nodes_of(items@) == scan_of(entries@),
    decreases entries@,
{
    let mut items: Vec<DirTreeItem> = Vec::new();
    let mut i: usize = 0;
    while i < entries.len()
        invariant
            0 <= i <= entries.len(),
            nodes_of(items@) == scan_of(entries@.subrange(0, i as int)),
        decreases entries.len() - i,
    {
        let ghost before = items@;
        proof {
            assert(entries@.subrange(0, i + 1).drop_last() =~= entries@.subrange(0, i as int));
            assert(entries@.subrange(0, i + 1).last() == entries@[i as int]);
        }
        match &entries[i] {
            FsEntry::File(name) => {
                if !is_hidden_name(name) {
                    let item = DirTreeItem { path: name.clone(), children: Vec::new() };
                    proof {
                        lemma_nodes_of_push(items@, item);
                        assert(item.children@ =~= Seq::<DirTreeItem>::empty());
                    }
                    items.push(item);
                }
            },
            FsEntry::Dir(name, sub) => {
                if !is_hidden_name(name) {
                    proof {
                        assert(decreases_to!(entries@ => entries@[i as int]));
                    }
                    let children = scan(sub);
                    proof {
                        lemma_nodes_of_len(children@);
                    }
                    if children.len() > 0 {
                        let item = DirTreeItem { path: name.clone(), children };
                        proof {
                            lemma_nodes_of_push(items@, item);
                        }
                        items.push(item);
                    }
                }
            },
        }
        i += 1;
    }
    proof {
        assert(entries@.subrange(0, entries@.len() as int) =~= entries@);
    }
    items
}

/// No node at any depth of a scan has a name that starts with a dot.
pub proof fn lemma_scan_has_no_hidden(entries: Seq<FsEntry>)
    ensures
        all_visible(scan_of(entries)),
    decreases entries,
{
    if entries.len() > 0 {
        let before = scan_of(entries.drop_last());
        lemma_scan_has_no_hidden(entries.drop_last());
        if let FsEntry::Dir(_, sub) = entries.last() {
            assert(decreases_to!(entries => entries.last()));
            lemma_scan_has_no_hidden(sub@);
        }
        let out = scan_of(entries);
        assert forall|i: int| 0 <= i < out.len() implies {
            &&& !is_hidden(#[trigger] out[i].name)
            &&& all_visible(out[i].children)
        } by {
            if i < before.len() {
                assert(out[i] == before[i]);
                assert(!is_hidden(before[i].name));
            } else {
                assert(all_visible(Seq::<TreeNode>::empty()));
            }
        }
    }
}

/// Every node that a scan yields stands for a retained entry of the listing:
/// a file that is not hidden becomes a leaf, and a directory appears only with
/// the non-empty scan of its own entries as children, so a directory that
/// retains nothing never appears. Applied to those entries in turn, this holds
/// at every depth.
pub proof fn lemma_scan_prunes(entries: Seq<FsEntry>)
    ensures
        forall|i: int|
            0 <= i < scan_of(entries).len() ==> exists|j: int|
                0 <= j < entries.len() && retained_node(entries[j], #[trigger] scan_of(entries)[i]),
    decreases entries,
{
    if entries.len() > 0 {
        let pre = entries.drop_last();
        let before = scan_of(pre);
        let out = scan_of(entries);
        lemma_scan_prunes(pre);
        assert forall|i: int| 0 <= i < out.len() implies exists|j: int|
            0 <= j < entries.len() && retained_node(entries[j], #[trigger] out[i]) by {
            if i < before.len() {
                assert(out[i] == before[i]);
                let j = choose|j: int| 0 <= j < pre.len() && retained_node(pre[j], before[i]);
                assert(entries[j] == pre[j]);
            } else {
                let j = entries.len() - 1;
                assert(retained_node(entries[j], out[i]));
            }
        }
    }
}

} // verus!
