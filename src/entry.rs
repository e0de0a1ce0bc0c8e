use vstd::prelude::*;
use core::cmp::Ordering;
use crate::path::{EntryPath, path_cmp, flip, compare_paths, lemma_path_cmp_props, lemma_path_cmp_trans};

verus! {

/// One file or directory of the scanned tree.
///
/// `selected` is the export flag of a file; directories hold no flag of their
/// own that anything reads: their state is derived from the files below them.
#[derive(Debug)]
pub struct FileEntry {
    pub path: EntryPath,
    pub is_dir: bool,
    pub children: Vec<FileEntry>,
    pub selected: bool,
}

/// What a `FileEntry` stands for, with its children as a sequence.
pub ghost struct Node {
    pub path: Seq<Seq<char>>,
    pub is_dir: bool,
    pub children: Seq<Node>,
    pub selected: bool,
}

pub open spec fn entry_view(e: FileEntry) -> Node
    decreases e,
{
    Node {
        path: e.path@,
        is_dir: e.is_dir,
        children: Seq::new(
            e.children@.len(),
            |i: int|
                if 0 <= i < e.children@.len() {
                    entry_view(e.children@[i])
                } else {
                    arbitrary()
                },
        ),
        selected: e.selected,
    }
}

impl View for FileEntry {
    type V = Node;

    open spec fn view(&self) -> Node {
        entry_view(*self)
    }
}

/// The views of a list of entries.
pub open spec fn list_view(s: Seq<FileEntry>) -> Seq<Node> {
    Seq::new(s.len(), |i: int| s[i]@)
}

pub proof fn lemma_children_view(e: FileEntry)
    ensures
        e@.children == list_view(e.children@),
{
    assert(e@.children =~= list_view(e.children@));
}

/// Directories come before files; within each group paths are in order.
pub open spec fn entry_cmp(a: Node, b: Node) -> Ordering {
    if a.is_dir && !b.is_dir {
        Ordering::Less
    } else if !a.is_dir && b.is_dir {
        Ordering::Greater
    } else {
        path_cmp(a.path, b.path)
    }
}

pub proof fn lemma_entry_cmp_props(a: Node, b: Node)
    ensures
        entry_cmp(a, b) == Ordering::Equal <==> (a.is_dir == b.is_dir && a.path == b.path),
        entry_cmp(b, a) == flip(entry_cmp(a, b)),
{
    lemma_path_cmp_props(a.path, b.path);
}

pub proof fn lemma_entry_cmp_trans(a: Node, b: Node, c: Node)
    requires
        entry_cmp(a, b) == Ordering::Less,
        entry_cmp(b, c) == Ordering::Less,
    ensures
        entry_cmp(a, c) == Ordering::Less,
{
    if a.is_dir == b.is_dir && b.is_dir == c.is_dir {
        lemma_path_cmp_trans(a.path, b.path, c.path);
    }
}

/// Orders two entries: directories first, then by path.
pub fn compare_entries(a: &FileEntry, b: &FileEntry) -> (r: Ordering)
    ensures
        r == entry_cmp(a@, b@),
{
    if a.is_dir && !b.is_dir {
        Ordering::Less
    } else if !a.is_dir && b.is_dir {
        Ordering::Greater
    } else {
        compare_paths(&a.path, &b.path)
    }
}

/// Every entry is ordered strictly before the ones that follow it.
pub open spec fn sorted(list: Seq<Node>) -> bool {
    forall|i: int, j: int| 0 <= i < j < list.len() ==> entry_cmp(list[i], list[j]) == Ordering::Less
}

/// No two entries of the list have the same path.
pub open spec fn unique_paths(list: Seq<Node>) -> bool {
    forall|i: int, j: int|
        0 <= i < list.len() && 0 <= j < list.len() && i != j ==> list[i].path != list[j].path
}

/// `n` sits directly inside the directory `dir`, and so does, recursively,
/// each of its children inside `n`; every list of children is sorted and has
/// unique paths, and a file has no children.
pub open spec fn wf_node(n: Node, dir: Seq<Seq<char>>) -> bool
    decreases n,
{
    &&& n.path.len() == dir.len() + 1
    &&& n.path.drop_last() == dir
    &&& (!n.is_dir ==> n.children.len() == 0)
    &&& sorted(n.children)
    &&& unique_paths(n.children)
    &&& forall|i: int| 0 <= i < n.children.len() ==> wf_node(#[trigger] n.children[i], n.path)
}

/// The entries of the directory `dir` form a well-formed sorted list.
pub open spec fn wf_list(list: Seq<Node>, dir: Seq<Seq<char>>) -> bool {
    &&& sorted(list)
    &&& unique_paths(list)
    &&& forall|i: int| 0 <= i < list.len() ==> wf_node(#[trigger] list[i], dir)
}

/// A well-formed top-level list: the entries directly below the scan root.
pub open spec fn wf_tree(list: Seq<Node>) -> bool {
    wf_list(list, Seq::empty())
}

} // verus!
