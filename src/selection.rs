use vstd::prelude::*;
use crate::path::{EntryPath, paths_equal};
use crate::entry::{FileEntry, Node, list_view, lemma_children_view};

verus! {

// ---------------------------------------------------------------------------
// What the operations mean

/// Every entry of the subtree of `n`, `n` included, gets the flag `v`.
pub open spec fn set_all(n: Node, v: bool) -> Node
    decreases n,
{
    Node {
        selected: v,
        children: Seq::new(
            n.children.len(),
            |i: int| if 0 <= i < n.children.len() { set_all(n.children[i], v) } else { arbitrary() },
        ),
        ..n
    }
}

/// Each entry with path `p` below `n` (or `n` itself) gets `v` throughout its
/// subtree.
pub open spec fn toggle_at(n: Node, p: Seq<Seq<char>>, v: bool) -> Node
    decreases n,
{
    if n.path == p {
        set_all(n, v)
    } else {
        Node {
            children: Seq::new(
                n.children.len(),
                |i: int|
                    if 0 <= i < n.children.len() {
                        toggle_at(n.children[i], p, v)
                    } else {
                        arbitrary()
                    },
            ),
            ..n
        }
    }
}

pub open spec fn toggle_list(list: Seq<Node>, p: Seq<Seq<char>>, v: bool) -> Seq<Node> {
    Seq::new(list.len(), |i: int| toggle_at(list[i], p, v))
}

/// Some file of the subtree of `n` (`n` itself, if it is a file) has the flag
/// `v`.
pub open spec fn node_has(n: Node, v: bool) -> bool
    decreases n,
{
    if !n.is_dir {
        n.selected == v
    } else {
        exists|i: int| 0 <= i < n.children.len() && node_has(#[trigger] n.children[i], v)
    }
}

/// Some file of the subtrees of the list has the flag `v`.
pub open spec fn list_has(list: Seq<Node>, v: bool) -> bool {
    exists|i: int| 0 <= i < list.len() && node_has(#[trigger] list[i], v)
}

/// A selected file, or a directory all of whose files are selected (an empty
/// directory included).
pub open spec fn fully_selected(n: Node) -> bool {
    !node_has(n, false)
}

/// A directory with both a selected and an unselected file below it.
pub open spec fn partially_selected(n: Node) -> bool {
    n.is_dir && node_has(n, true) && node_has(n, false)
}

/// The paths of the selected files of the subtree of `n`, in depth-first
/// order.
pub open spec fn collect_node(n: Node) -> Seq<Seq<Seq<char>>>
    decreases n, 1nat,
{
    (if !n.is_dir && n.selected {
        seq![n.path]
    } else {
        Seq::empty()
    }) + collect_list(n.children)
}

pub open spec fn collect_list(list: Seq<Node>) -> Seq<Seq<Seq<char>>>
    decreases list, 0nat,
{
    if list.len() == 0 {
        Seq::empty()
    } else {
        collect_list(list.drop_last()) + collect_node(list.last())
    }
}

/// Each file of the subtree of `n` is selected exactly when its path is in
/// `saved`; directories keep their flag.
pub open spec fn apply_at(n: Node, saved: Seq<Seq<Seq<char>>>) -> Node
    decreases n,
{
    if !n.is_dir {
        Node { selected: saved.contains(n.path), ..n }
    } else {
        Node {
            children: Seq::new(
                n.children.len(),
                |i: int|
                    if 0 <= i < n.children.len() {
                        apply_at(n.children[i], saved)
                    } else {
                        arbitrary()
                    },
            ),
            ..n
        }
    }
}

pub open spec fn apply_list(list: Seq<Node>, saved: Seq<Seq<Seq<char>>>) -> Seq<Node> {
    Seq::new(list.len(), |i: int| apply_at(list[i], saved))
}

/// The first entry with path `p` in a depth-first walk of `n`.
pub open spec fn find_node(n: Node, p: Seq<Seq<char>>) -> Option<Node>
    decreases n, 1nat,
{
    if n.path == p {
        Some(n)
    } else {
        find_list(n.children, p)
    }
}

pub open spec fn find_list(list: Seq<Node>, p: Seq<Seq<char>>) -> Option<Node>
    decreases list, 0nat,
{
    if list.len() == 0 {
        None
    } else {
        match find_list(list.drop_last(), p) {
            Some(x) => Some(x),
            None => find_node(list.last(), p),
        }
    }
}

/// The views of a list of paths.
pub open spec fn paths_view(s: Seq<EntryPath>) -> Seq<Seq<Seq<char>>> {
    Seq::new(s.len(), |i: int| s[i]@)
}

// ---------------------------------------------------------------------------
// Executable operations

impl EntryPath {
    /// A copy of the path.
    pub fn duplicate(&self) -> (r: EntryPath)
        ensures
            r@ == self@,
    {
        let mut segments: Vec<String> = Vec::new();
        let mut i: usize = 0;
        while i < self.segments.len()
            invariant
                i <= self@.len(),
                segments@.len() == i,
                forall|k: int| 0 <= k < i ==> (#[trigger] segments@[k])@ == self@[k],
            decreases self@.len() - i,
        {
            segments.push(self.segments[i].clone());
            i = i + 1;
        }
        let r = EntryPath { segments };
        assert(r@ =~= self@);
        r
    }
}

/// Sets `selected` on `file` and on every entry below it.
pub fn toggle_selection(file: &mut FileEntry, selected: bool)
    ensures
        final(file)@ == set_all(old(file)@, selected),
    decreases old(file)@,
{
    let ghost n0 = file@;
    proof {
        lemma_children_view(*file);
    }
    file.selected = selected;
    let len = file.children.len();
    let mut i: usize = 0;
    while i < len
        invariant
            len == n0.children.len(),
            n0 == old(file)@,
            file.children@.len() == len,
            file.path@ == n0.path,
            file.is_dir == n0.is_dir,
            file.selected == selected,
            i <= len,
            forall|j: int| 0 <= j < i ==> (#[trigger] file.children@[j])@ == set_all(n0.children[j], selected),
            forall|j: int| i <= j < len ==> (#[trigger] file.children@[j])@ == n0.children[j],
        decreases len - i,
    {
        proof {
            assert(decreases_to!(n0 => n0.children[i as int]));
            assert(decreases_to!(n0 => file.children@[i as int]@));
        }
        toggle_selection(&mut file.children[i], selected);
        i = i + 1;
    }
    proof {
        lemma_children_view(*file);
        assert(file@.children =~= set_all(n0, selected).children);
        assert(file@ =~= set_all(n0, selected));
    }
}

/// Gives `selected` to the subtree of every entry of `e` (`e` included) whose
/// path is `path`.
fn toggle_entry(e: &mut FileEntry, path: &EntryPath, selected: bool)
    ensures
        final(e)@ == toggle_at(old(e)@, path@, selected),
    decreases old(e)@,
{
    if paths_equal(&e.path, path) {
        toggle_selection(e, selected);
        return;
    }
    let ghost n0 = e@;
    proof {
        lemma_children_view(*e);
    }
    let len = e.children.len();
    let mut i: usize = 0;
    while i < len
        invariant
            len == n0.children.len(),
            n0 == old(e)@,
            n0.path != path@,
            e.children@.len() == len,
            e.path@ == n0.path,
            e.is_dir == n0.is_dir,
            e.selected == n0.selected,
            i <= len,
            forall|j: int| 0 <= j < i ==> (#[trigger] e.children@[j])@ == toggle_at(n0.children[j], path@, selected),
            forall|j: int| i <= j < len ==> (#[trigger] e.children@[j])@ == n0.children[j],
        decreases len - i,
    {
        proof {
            assert(decreases_to!(n0 => n0.children[i as int]));
            assert(decreases_to!(n0 => e.children@[i as int]@));
        }
        toggle_entry(&mut e.children[i], path, selected);
        i = i + 1;
    }
    proof {
        lemma_children_view(*e);
        assert(e@.children =~= toggle_at(n0, path@, selected).children);
        assert(e@ =~= toggle_at(n0, path@, selected));
    }
}

/// Gives `selected` to the subtree of every entry whose path is `path`.
pub fn toggle_path(files: &mut Vec<FileEntry>, path: &EntryPath, selected: bool)
    ensures
        list_view(final(files)@) == toggle_list(list_view(old(files)@), path@, selected),
{
    let ghost s = list_view(files@);
    let len = files.len();
    let mut i: usize = 0;
    while i < len
        invariant
            len == s.len(),
            s == list_view(old(files)@),
            files@.len() == len,
            i <= len,
            forall|j: int| 0 <= j < i ==> (#[trigger] files@[j])@ == toggle_at(s[j], path@, selected),
            forall|j: int| i <= j < len ==> (#[trigger] files@[j])@ == s[j],
        decreases len - i,
    {
        toggle_entry(&mut files[i], path, selected);
        i = i + 1;
    }
    assert(list_view(files@) =~= toggle_list(s, path@, selected));
}

/// Whether some file of the subtree of `e` has the flag `v`.
fn has_flag(e: &FileEntry, v: bool) -> (r: bool)
    ensures
        r == node_has(e@, v),
    decreases e@,
{
    if !e.is_dir {
        return e.selected == v;
    }
    proof {
        lemma_children_view(*e);
    }
    let mut i: usize = 0;
    while i < e.children.len()
        invariant
            e.is_dir,
            i <= e.children@.len(),
            e@.children == list_view(e.children@),
            forall|j: int| 0 <= j < i ==> !node_has(#[trigger] e@.children[j], v),
        decreases e.children@.len() - i,
    {
        proof {
            assert(decreases_to!(e@ => e@.children[i as int]));
        }
        if has_flag(&e.children[i], v) {
            assert(node_has(e@.children[i as int], v));
            return true;
        }
        i = i + 1;
    }
    false
}

/// Whether some file in the subtrees of `files` has the flag `v`.
fn any_flag(files: &Vec<FileEntry>, v: bool) -> (r: bool)
    ensures
        r == list_has(list_view(files@), v),
{
    let ghost s = list_view(files@);
    let mut i: usize = 0;
    while i < files.len()
        invariant
            s == list_view(files@),
            i <= files@.len(),
            forall|j: int| 0 <= j < i ==> !node_has(#[trigger] s[j], v),
        decreases files@.len() - i,
    {
        if has_flag(&files[i], v) {
            assert(node_has(s[i as int], v));
            return true;
        }
        i = i + 1;
    }
    false
}

/// Where `selected` holds a value, gives it to the subtree of every entry
/// whose path is `path`; then tells whether any file of the tree is selected.
pub fn update_selection_recursive(files: &mut Vec<FileEntry>, path: &EntryPath, selected: Option<bool>) -> (r: bool)
    ensures
        list_view(final(files)@) == match selected {
            Some(v) => toggle_list(list_view(old(files)@), path@, v),
            None => list_view(old(files)@),
        },
        r == list_has(list_view(final(files)@), true),
{
    if let Some(v) = selected {
        toggle_path(files, path, v);
    }
    any_flag(files, true)
}

/// Whether some file below `file` (or `file` itself, if it is a file) is
/// selected, and whether some such file is not.
pub fn check_selection(file: &FileEntry) -> (r: (bool, bool))
    ensures
        r == (node_has(file@, true), node_has(file@, false)),
{
    (has_flag(file, true), has_flag(file, false))
}

/// Whether `file` is a directory with both selected and unselected files
/// below it.
pub fn contains_mixed_selection(file: &FileEntry) -> (r: bool)
    ensures
        r == partially_selected(file@),
{
    let (has_checked, has_unchecked) = check_selection(file);
    has_checked && has_unchecked
}

/// Whether `file` is a directory with both selected and unselected files
/// below it.
pub fn has_selected_and_not_selected(file: &FileEntry) -> (r: bool)
    ensures
        r == partially_selected(file@),
{
    contains_mixed_selection(file)
}

/// Whether `file` is a selected file, or a directory all of whose files are
/// selected.
pub fn is_fully_selected(file: &FileEntry) -> (r: bool)
    ensures
        r == fully_selected(file@),
{
    !has_flag(file, false)
}

/// Appends the paths of the selected files below `e` (and of `e`, if it is
/// a selected file) to `out`.
fn collect_into(e: &FileEntry, out: &mut Vec<EntryPath>)
    ensures
        paths_view(final(out)@) == paths_view(old(out)@) + collect_node(e@),
    decreases e@,
{
    let ghost o0 = paths_view(out@);
    proof {
        lemma_children_view(*e);
    }
    if !e.is_dir && e.selected {
        out.push(e.path.duplicate());
        assert(paths_view(out@) =~= o0 + seq![e@.path]);
    } else {
        assert(paths_view(out@) =~= o0 + Seq::empty());
    }
    let ghost own = paths_view(out@);
    let ghost cs = e@.children;
    let mut i: usize = 0;
    assert(cs.take(0) =~= Seq::<Node>::empty());
    while i < e.children.len()
        invariant
            cs == list_view(e.children@),
            cs == e@.children,
            i <= cs.len(),
            paths_view(out@) == own + collect_list(cs.take(i as int)),
        decreases cs.len() - i,
    {
        proof {
            assert(decreases_to!(e@ => e@.children[i as int]));
        }
        collect_into(&e.children[i], out);
        assert(cs.take(i + 1).drop_last() =~= cs.take(i as int));
        assert(own + collect_list(cs.take(i as int)) + collect_node(cs[i as int]) =~= own + collect_list(cs.take(i + 1)));
        i = i + 1;
    }
    assert(cs.take(i as int) =~= cs);
    let ghost x = if !e@.is_dir && e@.selected { seq![e@.path] } else { Seq::<Seq<Seq<char>>>::empty() };
    assert(own =~= o0 + x);
    assert(paths_view(out@) =~= o0 + collect_node(e@));
}

/// The paths of all selected files, in depth-first order.
pub fn collect_selected_paths(files: &Vec<FileEntry>) -> (r: Vec<EntryPath>)
    ensures
        paths_view(r@) == collect_list(list_view(files@)),
{
    let ghost s = list_view(files@);
    let mut out: Vec<EntryPath> = Vec::new();
    let mut i: usize = 0;
    assert(s.take(0) =~= Seq::<Node>::empty());
    assert(paths_view(out@) =~= Seq::empty());
    while i < files.len()
        invariant
            s == list_view(files@),
            i <= s.len(),
            paths_view(out@) == collect_list(s.take(i as int)),
        decreases s.len() - i,
    {
        collect_into(&files[i], &mut out);
        assert(s.take(i + 1).drop_last() =~= s.take(i as int));
        i = i + 1;
    }
    assert(s.take(i as int) =~= s);
    out
}

/// Whether `path` is one of `paths`.
fn contains_path(paths: &Vec<EntryPath>, path: &EntryPath) -> (r: bool)
    ensures
        r == paths_view(paths@).contains(path@),
{
    let ghost s = paths_view(paths@);
    let mut i: usize = 0;
    while i < paths.len()
        invariant
            s == paths_view(paths@),
            i <= s.len(),
            forall|j: int| 0 <= j < i ==> s[j] != path@,
        decreases s.len() - i,
    {
        if paths_equal(&paths[i], path) {
            assert(s[i as int] == path@);
            return true;
        }
        i = i + 1;
    }
    false
}

/// Selects exactly the files of the subtree of `e` whose paths are in `saved`.
fn apply_entry(e: &mut FileEntry, saved: &Vec<EntryPath>)
    ensures
        final(e)@ == apply_at(old(e)@, paths_view(saved@)),
    decreases old(e)@,
{
    let ghost n0 = e@;
    proof {
        lemma_children_view(*e);
    }
    if !e.is_dir {
        e.selected = contains_path(saved, &e.path);
        proof {
            lemma_children_view(*e);
            assert(e@ =~= apply_at(n0, paths_view(saved@)));
        }
        return;
    }
    let len = e.children.len();
    let mut i: usize = 0;
    while i < len
        invariant
            len == n0.children.len(),
            n0 == old(e)@,
            n0.is_dir,
            e.children@.len() == len,
            e.path@ == n0.path,
            e.is_dir == n0.is_dir,
            e.selected == n0.selected,
            i <= len,
            forall|j: int| 0 <= j < i ==> (#[trigger] e.children@[j])@ == apply_at(n0.children[j], paths_view(saved@)),
            forall|j: int| i <= j < len ==> (#[trigger] e.children@[j])@ == n0.children[j],
        decreases len - i,
    {
        proof {
            assert(decreases_to!(n0 => n0.children[i as int]));
            assert(decreases_to!(n0 => e.children@[i as int]@));
        }
        apply_entry(&mut e.children[i], saved);
        i = i + 1;
    }
    proof {
        lemma_children_view(*e);
        assert(e@.children =~= apply_at(n0, paths_view(saved@)).children);
        assert(e@ =~= apply_at(n0, paths_view(saved@)));
    }
}

/// Restores a saved selection: every file whose path is in `selected_paths`
/// is selected, every other file is not; directories are left as they are.
pub fn apply_saved_state(files: &mut Vec<FileEntry>, selected_paths: &Vec<EntryPath>)
    ensures
        list_view(final(files)@) == apply_list(list_view(old(files)@), paths_view(selected_paths@)),
{
    let ghost s = list_view(files@);
    let len = files.len();
    let mut i: usize = 0;
    while i < len
        invariant
            len == s.len(),
            s == list_view(old(files)@),
            files@.len() == len,
            i <= len,
            forall|j: int| 0 <= j < i ==> (#[trigger] files@[j])@ == apply_at(s[j], paths_view(selected_paths@)),
            forall|j: int| i <= j < len ==> (#[trigger] files@[j])@ == s[j],
        decreases len - i,
    {
        apply_entry(&mut files[i], selected_paths);
        i = i + 1;
    }
    assert(list_view(files@) =~= apply_list(s, paths_view(selected_paths@)));
}

proof fn lemma_find_prefix(s: Seq<Node>, p: Seq<Seq<char>>, k: int)
    requires
        0 <= k <= s.len(),
        find_list(s.take(k), p) is Some,
    ensures
        find_list(s, p) == find_list(s.take(k), p),
    decreases s.len(),
{
    if k == s.len() {
        assert(s.take(k) =~= s);
    } else {
        assert(s.drop_last().take(k) =~= s.take(k));
        lemma_find_prefix(s.drop_last(), p, k);
    }
}

/// The first entry with path `path` in a depth-first walk of `e`.
fn find_in<'a>(e: &'a FileEntry, path: &EntryPath) -> (r: Option<&'a FileEntry>)
    ensures
        match r {
            Some(x) => find_node(e@, path@) == Some(x@),
            None => find_node(e@, path@) is None,
        },
    decreases e@,
{
    if paths_equal(&e.path, path) {
        return Some(e);
    }
    proof {
        lemma_children_view(*e);
    }
    let ghost cs = e@.children;
    let mut i: usize = 0;
    assert(cs.take(0) =~= Seq::<Node>::empty());
    while i < e.children.len()
        invariant
            cs == list_view(e.children@),
            cs == e@.children,
            e@.path != path@,
            i <= cs.len(),
            find_list(cs.take(i as int), path@) is None,
        decreases cs.len() - i,
    {
        proof {
            assert(decreases_to!(e@ => e@.children[i as int]));
        }
        let r = find_in(&e.children[i], path);
        assert(cs.take(i + 1).drop_last() =~= cs.take(i as int));
        if r.is_some() {
            proof {
                assert(cs.take(i + 1).last() == e.children@[i as int]@);
                assert(find_list(cs.take(i + 1), path@) == find_node(cs[i as int], path@));
                lemma_find_prefix(cs, path@, i + 1);
                assert(e@.path != path@);
                assert(find_node(e@, path@) == find_list(cs, path@));
            }
            return r;
        }
        i = i + 1;
    }
    assert(cs.take(i as int) =~= cs);
    None
}

/// The first entry with path `path` in a depth-first walk of the tree.
pub fn lookup<'a>(files: &'a Vec<FileEntry>, path: &EntryPath) -> (r: Option<&'a FileEntry>)
    ensures
        match r {
            Some(x) => find_list(list_view(files@), path@) == Some(x@),
            None => find_list(list_view(files@), path@) is None,
        },
{
    let ghost s = list_view(files@);
    let mut i: usize = 0;
    assert(s.take(0) =~= Seq::<Node>::empty());
    while i < files.len()
        invariant
            s == list_view(files@),
            i <= s.len(),
            find_list(s.take(i as int), path@) is None,
        decreases s.len() - i,
    {
        let r = find_in(&files[i], path);
        assert(s.take(i + 1).drop_last() =~= s.take(i as int));
        if r.is_some() {
            proof {
                assert(s.take(i + 1).last() == files@[i as int]@);
                lemma_find_prefix(s, path@, i + 1);
            }
            return r;
        }
        i = i + 1;
    }
    assert(s.take(i as int) =~= s);
    None
}

/// Whether the first entry with path `p` is a file.
pub open spec fn is_leaf_at(list: Seq<Node>, p: Seq<Seq<char>>) -> bool {
    find_list(list, p) matches Some(n) && !n.is_dir
}

/// Sets the flag of the file at `path` to `value`; does nothing, and returns
/// false, where `path` is not the path of a file of the tree.
pub fn toggle_leaf(files: &mut Vec<FileEntry>, path: &EntryPath, value: bool) -> (r: bool)
    ensures
        r == is_leaf_at(list_view(old(files)@), path@),
        list_view(final(files)@) == if r {
            toggle_list(list_view(old(files)@), path@, value)
        } else {
            list_view(old(files)@)
        },
{
    let is_leaf = match lookup(files, path) {
        Some(e) => !e.is_dir,
        None => false,
    };
    if is_leaf {
        toggle_path(files, path, value);
    }
    is_leaf
}

} // verus!
