//! Flat listing of a directory tree: one path per leaf, relative to the
//! listed directory, with `/` between segments.
use vstd::prelude::*;
use vstd::string::StringExecFns;
use crate::proto::{DirTree, DirTreeItem};

verus! {

/// The paths of the leaves under `item`, each prefixed with `parent`, in
/// tree order.
pub open spec fn item_lines(item: DirTreeItem, parent: Seq<char>) -> Seq<Seq<char>>
    decreases item,
{
    if item.children@.len() == 0 {
        seq![parent + item.path@]
    } else {
        items_lines(item.children@, parent + item.path@ + "/"@)
    }
}

/// The leaf paths of each of `items` in turn.
pub open spec fn items_lines(items: Seq<DirTreeItem>, parent: Seq<char>) -> Seq<Seq<char>>
    decreases items,
{
    if items.len() == 0 {
        Seq::empty()
    } else {
        items_lines(items.drop_last(), parent) + item_lines(items.last(), parent)
    }
}

pub open spec fn views(lines: Seq<String>) -> Seq<Seq<char>> {
    lines.map_values(|s: String| s@)
}

/// Appends to `out` the leaf paths under `item`, each prefixed with `parent`.
pub fn tree_item_lines(item: &DirTreeItem, parent: &String, out: &mut Vec<String>)
    ensures
        views(final(out)@) == views(old(out)@) + item_lines(*item, parent@),
    decreases item,
{
    let mut prefix = parent.clone();
    prefix.append(item.path.as_str());
    if item.children.len() == 0 {
        let ghost before = out@;
        out.push(prefix);
        proof {
            assert(views(out@) =~= views(before) + seq![parent@ + item.path@]);
        }
        return;
    }
    prefix.append("/");
    let ghost start = views(out@);
    let mut j: usize = 0;
    while j < item.children.len()
        invariant
            j <= item.children@.len(),
            views(out@) == start + items_lines(item.children@.take(j as int), prefix@),
        decreases item.children@.len() - j,
    {
        proof {
            assert(decreases_to!(item.children@ => item.children@[j as int]));
            assert(item.children@.take(j + 1).drop_last() =~= item.children@.take(j as int));
        }
        let ghost mid = views(out@);
        tree_item_lines(&item.children[j], &prefix, out);
        proof {
            assert(start + items_lines(item.children@.take(j as int), prefix@) + item_lines(
                item.children@[j as int],
                prefix@,
            ) =~= start + items_lines(item.children@.take(j + 1), prefix@));
        }
        j += 1;
    }
    proof {
        assert(item.children@.take(j as int) =~= item.children@);
    }
}

/// The leaf paths of a listing, in tree order.
pub fn dir_tree_lines(tree: &DirTree) -> (lines: Vec<String>)
    ensures
        views(lines@) == items_lines(tree.roots@, Seq::empty()),
{
    let mut lines: Vec<String> = Vec::new();
    let root = String::new();
    let mut j: usize = 0;
    while j < tree.roots.len()
        invariant
            j <= tree.roots@.len(),
            root@ == Seq::<char>::empty(),
            views(lines@) == items_lines(tree.roots@.take(j as int), Seq::empty()),
        decreases tree.roots@.len() - j,
    {
        proof {
            assert(tree.roots@.take(j + 1).drop_last() =~= tree.roots@.take(j as int));
        }
        tree_item_lines(&tree.roots[j], &root, &mut lines);
        j += 1;
    }
    proof {
        assert(tree.roots@.take(j as int) =~= tree.roots@);
    }
    lines
}

} // verus!
