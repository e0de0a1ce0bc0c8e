use vstd::prelude::*;
use core::cmp::Ordering;
use crate::path::{EntryPath, paths_equal, is_parent_path, prefix_matches, is_parent};
use crate::entry::{
    FileEntry, Node, list_view, lemma_children_view, entry_cmp, compare_entries,
    lemma_entry_cmp_props, lemma_entry_cmp_trans, sorted, unique_paths, wf_node, wf_list, wf_tree,
};

verus! {

/// Some entry of the list has the path `p`.
pub open spec fn has_path(list: Seq<Node>, p: Seq<Seq<char>>) -> bool {
    exists|i: int| 0 <= i < list.len() && list[i].path == p
}

/// The index of the entry with path `p`, or -1 when there is none.
pub open spec fn index_of(list: Seq<Node>, p: Seq<Seq<char>>) -> int {
    if has_path(list, p) {
        choose|i: int| 0 <= i < list.len() && list[i].path == p
    } else {
        -1
    }
}

/// How many leading entries of the list are ordered before `n`.
pub open spec fn sorted_pos(list: Seq<Node>, n: Node) -> int
    decreases list.len(),
{
    if list.len() == 0 {
        0
    } else if entry_cmp(list[0], n) == Ordering::Less {
        1 + sorted_pos(list.drop_first(), n)
    } else {
        0
    }
}

/// The list with `n` added as a child where the order puts it, unless an entry
/// with the same path is already there (then the list is left as it is).
pub open spec fn add_child(list: Seq<Node>, n: Node) -> Seq<Node> {
    if has_path(list, n.path) {
        list
    } else {
        list.insert(sorted_pos(list, n), n)
    }
}

pub open spec fn with_children(n: Node, c: Seq<Node>) -> Node {
    Node { children: c, ..n }
}

/// Adds `n` to the children of the directory whose path is `target`, reached
/// from `list` (the entries of `dir`) one segment at a time; `None` where no
/// such directory is found.
pub open spec fn insert_under(
    list: Seq<Node>,
    dir: Seq<Seq<char>>,
    target: Seq<Seq<char>>,
    n: Node,
) -> Option<Seq<Node>>
    decreases target.len() - dir.len(),
{
    if target.len() <= dir.len() {
        Some(add_child(list, n))
    } else {
        let p = target.take(dir.len() + 1int);
        let i = index_of(list, p);
        if i < 0 || !list[i].is_dir {
            None
        } else {
            match insert_under(list[i].children, p, target, n) {
                Some(c) => Some(list.update(i, with_children(list[i], c))),
                None => None,
            }
        }
    }
}

/// `n` with its subtree put in shape: a file loses any children; a
/// directory keeps, in order and without repeated paths, those children that
/// lie directly inside it (the first of equal paths wins), each put in shape.
pub open spec fn normalized(n: Node) -> Node
    decreases n, 1nat,
{
    Node {
        children: if n.is_dir {
            gathered(n.children, n.path)
        } else {
            Seq::empty()
        },
        ..n
    }
}

pub open spec fn gathered(cs: Seq<Node>, dir: Seq<Seq<char>>) -> Seq<Node>
    decreases cs, 0nat,
{
    if cs.len() == 0 {
        Seq::empty()
    } else {
        let acc = gathered(cs.drop_last(), dir);
        let c = cs.last();
        if c.path.len() == dir.len() + 1 && c.path.drop_last() == dir {
            add_child(acc, normalized(c))
        } else {
            acc
        }
    }
}

/// The top-level list after inserting `n` below its parent directory (at the
/// top level where its path has one segment); unchanged where the parent is
/// not in the tree or `n` is already there.
pub open spec fn inserted(list: Seq<Node>, n: Node) -> Seq<Node> {
    if n.path.len() == 0 {
        list
    } else {
        match insert_under(list, Seq::empty(), n.path.drop_last(), normalized(n)) {
            Some(l) => l,
            None => list,
        }
    }
}

/// Whether inserting `n` finds its place (its parent is in the tree).
pub open spec fn insert_found(list: Seq<Node>, n: Node) -> bool {
    n.path.len() > 0 && insert_under(list, Seq::empty(), n.path.drop_last(), normalized(n)) is Some
}

// ---------------------------------------------------------------------------
// Lemmas

pub proof fn lemma_index_of(list: Seq<Node>, p: Seq<Seq<char>>, i: int)
    requires
        unique_paths(list),
        0 <= i < list.len(),
        list[i].path == p,
    ensures
        index_of(list, p) == i,
{
}

pub proof fn lemma_sorted_pos(list: Seq<Node>, n: Node, k: int)
    requires
        0 <= k <= list.len(),
        forall|j: int| 0 <= j < k ==> entry_cmp(#[trigger] list[j], n) == Ordering::Less,
        k == list.len() || entry_cmp(list[k], n) != Ordering::Less,
    ensures
        sorted_pos(list, n) == k,
    decreases k,
{
    if k > 0 {
        let r = list.drop_first();
        assert forall|j: int| 0 <= j < k - 1 implies entry_cmp(#[trigger] r[j], n) == Ordering::Less by {
            assert(r[j] == list[j + 1]);
        }
        lemma_sorted_pos(r, n, k - 1);
    }
}

pub proof fn lemma_sorted_pos_bounds(list: Seq<Node>, n: Node)
    ensures
        0 <= sorted_pos(list, n) <= list.len(),
        forall|j: int| 0 <= j < sorted_pos(list, n) ==> entry_cmp(#[trigger] list[j], n) == Ordering::Less,
        sorted_pos(list, n) == list.len() || entry_cmp(list[sorted_pos(list, n)], n) != Ordering::Less,
    decreases list.len(),
{
    if list.len() > 0 && entry_cmp(list[0], n) == Ordering::Less {
        let r = list.drop_first();
        lemma_sorted_pos_bounds(r, n);
        assert forall|j: int| 0 <= j < sorted_pos(list, n) implies entry_cmp(#[trigger] list[j], n) == Ordering::Less by {
            if j > 0 {
                assert(list[j] == r[j - 1]);
            }
        }
    }
}

/// Adding a child that lies in `dir` keeps the list well formed.
pub proof fn lemma_add_child_wf(list: Seq<Node>, dir: Seq<Seq<char>>, n: Node)
    requires
        wf_list(list, dir),
        wf_node(n, dir),
    ensures
        wf_list(add_child(list, n), dir),
        has_path(add_child(list, n), n.path),
{
    if !has_path(list, n.path) {
        let k = sorted_pos(list, n);
        lemma_sorted_pos_bounds(list, n);
        let r = list.insert(k, n);
        assert(r[k] == n);
        assert forall|j: int| k <= j < list.len() implies entry_cmp(n, #[trigger] list[j]) == Ordering::Less by {
            lemma_entry_cmp_props(list[k], n);
            lemma_entry_cmp_props(list[j], n);
            if j > k {
                if entry_cmp(list[j], n) == Ordering::Less {
                    lemma_entry_cmp_trans(list[k], list[j], n);
                }
            }
        }
        assert forall|i: int, j: int| 0 <= i < j < r.len() implies entry_cmp(r[i], r[j]) == Ordering::Less by {
            if i < k && k < j {
                lemma_entry_cmp_trans(list[i], n, list[j - 1]);
            }
        }
        assert(r[k].path == n.path);
    }
}

pub proof fn lemma_with_children_wf(list: Seq<Node>, dir: Seq<Seq<char>>, i: int, c: Seq<Node>)
    requires
        wf_list(list, dir),
        0 <= i < list.len(),
        list[i].is_dir,
        wf_list(c, list[i].path),
    ensures
        wf_list(list.update(i, with_children(list[i], c)), dir),
{
    let r = list.update(i, with_children(list[i], c));
    assert(wf_node(r[i], dir));
    assert forall|a: int, b: int| 0 <= a < b < r.len() implies entry_cmp(r[a], r[b]) == Ordering::Less by {
        assert(entry_cmp(list[a], list[b]) == Ordering::Less);
    }
    assert forall|a: int, b: int| 0 <= a < r.len() && 0 <= b < r.len() && a != b implies r[a].path != r[b].path by {
        assert(list[a].path != list[b].path);
    }
}

pub proof fn lemma_insert_under_wf(list: Seq<Node>, dir: Seq<Seq<char>>, target: Seq<Seq<char>>, n: Node)
    requires
        wf_list(list, dir),
        dir.len() <= target.len(),
        target.take(dir.len() as int) == dir,
        wf_node(n, target),
    ensures
        insert_under(list, dir, target, n) matches Some(l) ==> wf_list(l, dir),
    decreases target.len() - dir.len(),
{
    if target.len() <= dir.len() {
        assert(target =~= dir);
        lemma_add_child_wf(list, dir, n);
    } else {
        let p = target.take(dir.len() + 1int);
        let i = index_of(list, p);
        if i >= 0 && list[i].is_dir {
            assert(list[i].path == p);
            assert(wf_node(list[i], dir));
            assert(p.take(dir.len() as int) =~= dir);
            assert(target.take(p.len() as int) =~= p);
            lemma_insert_under_wf(list[i].children, p, target, n);
            if let Some(c) = insert_under(list[i].children, p, target, n) {
                lemma_with_children_wf(list, dir, i, c);
            }
        }
    }
}

pub proof fn lemma_normalized_wf(n: Node, dir: Seq<Seq<char>>)
    requires
        n.path.len() == dir.len() + 1,
        n.path.drop_last() == dir,
    ensures
        wf_node(normalized(n), dir),
    decreases n, 1nat,
{
    if n.is_dir {
        lemma_gathered_wf(n.children, n.path);
    }
}

pub proof fn lemma_gathered_wf(cs: Seq<Node>, dir: Seq<Seq<char>>)
    ensures
        wf_list(gathered(cs, dir), dir),
    decreases cs, 0nat,
{
    if cs.len() > 0 {
        lemma_gathered_wf(cs.drop_last(), dir);
        let c = cs.last();
        if c.path.len() == dir.len() + 1 && c.path.drop_last() == dir {
            lemma_normalized_wf(c, dir);
            lemma_add_child_wf(gathered(cs.drop_last(), dir), dir, normalized(c));
        }
    }
}

// ---------------------------------------------------------------------------
// Executable insertion

/// The index where `n` goes in the sorted list.
fn sorted_position(list: &Vec<FileEntry>, n: &FileEntry) -> (k: usize)
    ensures
        k == sorted_pos(list_view(list@), n@),
        k <= list@.len(),
{
    let ghost s = list_view(list@);
    let mut k: usize = 0;
    while k < list.len()
        invariant
            s == list_view(list@),
            k <= list@.len(),
            forall|j: int| 0 <= j < k ==> entry_cmp(#[trigger] s[j], n@) == Ordering::Less,
        decreases list@.len() - k,
    {
        match compare_entries(&list[k], n) {
            Ordering::Less => {},
            _ => {
                proof {
                    lemma_sorted_pos(s, n@, k as int);
                }
                return k;
            },
        }
        k = k + 1;
    }
    proof {
        lemma_sorted_pos(s, n@, k as int);
    }
    k
}

/// The index of the entry whose path is the first `len` segments of
/// `target`, or the length of the list when there is none.
fn find_prefix(list: &Vec<FileEntry>, target: &EntryPath, len: usize) -> (i: usize)
    requires
        len <= target@.len(),
    ensures
        i <= list@.len(),
        i < list@.len() ==> list_view(list@)[i as int].path == target@.take(len as int),
        i == list@.len() ==> !has_path(list_view(list@), target@.take(len as int)),
{
    let ghost s = list_view(list@);
    let mut i: usize = 0;
    while i < list.len()
        invariant
            s == list_view(list@),
            len <= target@.len(),
            i <= list@.len(),
            forall|k: int| 0 <= k < i ==> (#[trigger] s[k]).path != target@.take(len as int),
        decreases list@.len() - i,
    {
        if prefix_matches(&list[i].path, target, len) {
            return i;
        }
        i = i + 1;
    }
    i
}

/// Adds `n` to a list of siblings: nothing happens where an entry with its
/// path is there already, else it goes where the order puts it.
fn add_child_exec(list: &mut Vec<FileEntry>, n: FileEntry)
    ensures
        list_view(final(list)@) == add_child(list_view(old(list)@), n@),
{
    let ghost s = list_view(list@);
    let mut i: usize = 0;
    while i < list.len()
        invariant
            s == list_view(list@),
            i <= list@.len(),
            forall|k: int| 0 <= k < i ==> (#[trigger] s[k]).path != n@.path,
        decreases list@.len() - i,
    {
        if paths_equal(&list[i].path, &n.path) {
            assert(s[i as int].path == n@.path);
            return;
        }
        i = i + 1;
    }
    let k = sorted_position(list, &n);
    let ghost nv = n@;
    list.insert(k, n);
    assert(list_view(list@) =~= s.insert(k as int, nv));
}

/// Puts `e` in shape, as `normalized` describes.
pub fn normalize(e: FileEntry) -> (r: FileEntry)
    ensures
        r@ == normalized(e@),
    decreases e@,
{
    let ghost e0 = e;
    proof {
        lemma_children_view(e0);
    }
    let FileEntry { path, is_dir, children, selected } = e;
    let out = if is_dir {
        gather(children, &path)
    } else {
        Vec::new()
    };
    let r = FileEntry { path, is_dir, children: out, selected };
    proof {
        lemma_children_view(r);
        if !is_dir {
            assert(list_view(out@) =~= Seq::<Node>::empty());
        }
    }
    r
}

/// The children `cs` of the directory `dir`, put in shape, as `gathered`
/// describes.
fn gather(cs: Vec<FileEntry>, dir: &EntryPath) -> (out: Vec<FileEntry>)
    ensures
        list_view(out@) == gathered(list_view(cs@), dir@),
    decreases list_view(cs@),
{
    let ghost c0 = cs;
    let ghost v = list_view(cs@);
    let mut out: Vec<FileEntry> = Vec::new();
    let mut rest = cs;
    let total = rest.len();
    let mut k: usize = 0;
    assert(v.take(0) =~= Seq::<Node>::empty());
    assert(rest@.skip(0) =~= rest@);
    while rest.len() > 0
        invariant
            rest@ == c0@.skip(k as int),
            k <= c0@.len(),
            c0@.len() == k + rest@.len(),
            c0@.len() == total,
            v == list_view(c0@),
            c0 == cs,
            list_view(out@) == gathered(v.take(k as int), dir@),
        decreases rest@.len(),
    {
        let c = rest.remove(0);
        assert(c == c0@[k as int]);
        assert(v.take(k + 1).drop_last() =~= v.take(k as int));
        assert(v.take(k + 1).last() == c@);
        proof {
            assert(decreases_to!(v => v[k as int]));
            assert(v[k as int] == c@);
            assert(decreases_to!(v => c@));
        }
        if is_parent(dir, &c.path) {
            let nc = normalize(c);
            add_child_exec(&mut out, nc);
        }
        assert(rest@ =~= c0@.skip(k + 1));
        k = k + 1;
    }
    assert(v.take(k as int) =~= v);
    out
}

/// Inserts `n`, already in shape, below the directory `target`, starting from
/// `list`, the entries of the first `level` segments of `target`.
fn insert_in(list: &mut Vec<FileEntry>, level: usize, target: &EntryPath, n: FileEntry) -> (found: bool)
    requires
        level <= target@.len(),
        wf_list(list_view(old(list)@), target@.take(level as int)),
    ensures
        match insert_under(list_view(old(list)@), target@.take(level as int), target@, n@) {
            Some(l) => found && list_view(final(list)@) == l,
            None => !found && list_view(final(list)@) == list_view(old(list)@),
        },
    decreases target@.len() - level,
{
    let ghost s = list_view(list@);
    let ghost dir = target@.take(level as int);
    if level >= target.segments.len() {
        add_child_exec(list, n);
        return true;
    }
    let i = find_prefix(list, target, level + 1);
    let ghost p = target@.take(level + 1);
    assert(p =~= target@.take(dir.len() + 1int));
    if i == list.len() {
        return false;
    }
    proof {
        lemma_index_of(s, p, i as int);
    }
    if !list[i].is_dir {
        return false;
    }
    let ghost old_entry = list@[i as int];
    proof {
        lemma_children_view(old_entry);
        assert(wf_node(s[i as int], dir));
    }
    let found = insert_in(&mut list[i].children, level + 1, target, n);
    proof {
        lemma_children_view(list@[i as int]);
        if found {
            assert(list_view(list@) =~= s.update(i as int, with_children(s[i as int], list_view(list@[i as int].children@))));
        } else {
            assert(list_view(list@) =~= s);
        }
    }
    found
}

/// Inserts `file_entry` into the tree `files` below `parent_path`, which must
/// be the path of its parent directory (the empty path for a top-level
/// entry): its subtree is first put in shape, and nothing changes where the
/// parent is not in the tree or an entry with the same path already is.
/// Returns whether the parent was found.
pub fn add_to_parent(files: &mut Vec<FileEntry>, parent_path: &EntryPath, file_entry: FileEntry) -> (r: bool)
    requires
        wf_tree(list_view(old(files)@)),
    ensures
        wf_tree(list_view(final(files)@)),
        r == (is_parent_path(parent_path@, file_entry@.path) && insert_found(list_view(old(files)@), file_entry@)),
        list_view(final(files)@) == if is_parent_path(parent_path@, file_entry@.path) {
            inserted(list_view(old(files)@), file_entry@)
        } else {
            list_view(old(files)@)
        },
{
    if !is_parent(parent_path, &file_entry.path) {
        return false;
    }
    let ghost n0 = file_entry@;
    let ghost s = list_view(files@);
    let n = normalize(file_entry);
    proof {
        lemma_normalized_wf(n0, parent_path@);
        assert(parent_path@.take(0) =~= Seq::<Seq<char>>::empty());
        assert(n0.path.drop_last() == parent_path@);
        lemma_insert_under_wf(s, Seq::empty(), parent_path@, n@);
    }
    insert_in(files, 0, parent_path, n)
}

// ---------------------------------------------------------------------------
// Laws of insertion

/// Inserting `n` into a well-formed tree gives a well-formed tree.
pub proof fn lemma_inserted_wf(list: Seq<Node>, n: Node)
    requires
        wf_tree(list),
    ensures
        wf_tree(inserted(list, n)),
{
    if n.path.len() > 0 {
        let target = n.path.drop_last();
        lemma_normalized_wf(n, target);
        assert(target.take(0) =~= Seq::<Seq<char>>::empty());
        lemma_insert_under_wf(list, Seq::empty(), target, normalized(n));
    }
}

/// The entries `ns` inserted one after the other, in order.
pub open spec fn inserted_all(list: Seq<Node>, ns: Seq<Node>) -> Seq<Node>
    decreases ns.len(),
{
    if ns.len() == 0 {
        list
    } else {
        inserted(inserted_all(list, ns.drop_last()), ns.last())
    }
}

/// After any sequence of inserts into a well-formed tree (the empty tree
/// included), every list of children has its directories before its files,
/// each group in increasing path order, no path twice, and each entry directly
/// inside its parent.
pub proof fn lemma_inserts_keep_order(list: Seq<Node>, ns: Seq<Node>)
    requires
        wf_tree(list),
    ensures
        wf_tree(inserted_all(list, ns)),
    decreases ns.len(),
{
    if ns.len() > 0 {
        lemma_inserts_keep_order(list, ns.drop_last());
        lemma_inserted_wf(inserted_all(list, ns.drop_last()), ns.last());
    }
}

proof fn lemma_insert_under_idempotent(
    list: Seq<Node>,
    dir: Seq<Seq<char>>,
    target: Seq<Seq<char>>,
    m: Node,
    l: Seq<Node>,
)
    requires
        wf_list(list, dir),
        dir.len() <= target.len(),
        target.take(dir.len() as int) == dir,
        wf_node(m, target),
        insert_under(list, dir, target, m) == Some(l),
    ensures
        insert_under(l, dir, target, m) == Some(l),
    decreases target.len() - dir.len(),
{
    if target.len() <= dir.len() {
        assert(target =~= dir);
        lemma_add_child_wf(list, dir, m);
    } else {
        let p = target.take(dir.len() + 1int);
        let i = index_of(list, p);
        assert(list[i].path == p);
        assert(wf_node(list[i], dir));
        assert(p.take(dir.len() as int) =~= dir);
        assert(target.take(p.len() as int) =~= p);
        let c = insert_under(list[i].children, p, target, m)->Some_0;
        lemma_insert_under_wf(list[i].children, p, target, m);
        lemma_insert_under_idempotent(list[i].children, p, target, m, c);
        lemma_with_children_wf(list, dir, i, c);
        lemma_index_of(l, p, i);
        assert(with_children(l[i], c) == l[i]);
        assert(l.update(i, l[i]) =~= l);
    }
}

/// Inserting the same entry twice leaves the tree as inserting it once.
pub proof fn lemma_insert_idempotent(list: Seq<Node>, n: Node)
    requires
        wf_tree(list),
    ensures
        inserted(inserted(list, n), n) == inserted(list, n),
{
    if n.path.len() > 0 {
        let target = n.path.drop_last();
        let m = normalized(n);
        lemma_normalized_wf(n, target);
        assert(target.take(0) =~= Seq::<Seq<char>>::empty());
        if let Some(l) = insert_under(list, Seq::empty(), target, m) {
            lemma_insert_under_idempotent(list, Seq::empty(), target, m, l);
        }
    }
}

/// A file with the given path, unselected.
pub open spec fn file_node(p: Seq<Seq<char>>) -> Node {
    Node { path: p, is_dir: false, children: Seq::empty(), selected: false }
}

/// A directory with the given path and children, unselected.
pub open spec fn dir_node(p: Seq<Seq<char>>, children: Seq<Node>) -> Node {
    Node { path: p, is_dir: true, children, selected: false }
}

/// A scan of a root that holds a directory `a` with a file `a/x` in it, and
/// a file `b`, streamed in post-order (the file `a/x`, then `a` with `a/x`
/// embedded, then `b`), builds the top level `[a, b]` with `a` holding just
/// `a/x`; the first `a/x`, arriving before its directory, is dropped.
pub proof fn lemma_post_order_scan(a: Seq<char>, x: Seq<char>, b: Seq<char>)
    requires
        a != b,
    ensures
        ({
            let ax = file_node(seq![a, x]);
            inserted_all(
                Seq::empty(),
                seq![ax, dir_node(seq![a], seq![ax]), file_node(seq![b])],
            ) == seq![dir_node(seq![a], seq![ax]), file_node(seq![b])]
        }),
{
    let ax = file_node(seq![a, x]);
    let da = dir_node(seq![a], seq![ax]);
    let fb = file_node(seq![b]);
    let ns = seq![ax, da, fb];
    let e = Seq::<Node>::empty();
    // The file `a/x` finds no directory `a` yet.
    assert(ns.drop_last().drop_last().drop_last() =~= Seq::<Node>::empty());
    assert(ns.drop_last().drop_last() =~= seq![ax]);
    assert(seq![ax].drop_last() =~= Seq::<Node>::empty());
    assert(ax.path.drop_last() =~= seq![a]);
    assert(seq![a].take(1) =~= seq![a]);
    assert(!has_path(e, seq![a]));
    assert(inserted(e, ax) == e);
    assert(inserted_all(e, Seq::<Node>::empty()) == e);
    assert(inserted_all(e, seq![ax].drop_last()) == e);
    assert(inserted_all(e, seq![ax]) == inserted(e, ax));
    assert(inserted_all(e, seq![ax]) == e);
    // The directory `a` arrives with `a/x` embedded.
    assert(ns.drop_last() =~= seq![ax, da]);
    assert(seq![ax, da].drop_last() =~= seq![ax]);
    assert(da.path.drop_last() =~= Seq::<Seq<char>>::empty());
    assert(seq![ax].last() == ax);
    assert(ax.path.len() == da.path.len() + 1 && ax.path.drop_last() == da.path);
    assert(normalized(ax) =~= ax);
    assert(!has_path(e, ax.path));
    assert(e.insert(0, ax) =~= seq![ax]);
    assert(gathered(seq![ax].drop_last(), da.path) =~= e);
    assert(gathered(seq![ax], da.path) =~= seq![ax]);
    assert(normalized(da) =~= da);
    assert(e.insert(0, da) =~= seq![da]);
    assert(inserted(e, da) == seq![da]);
    assert(inserted_all(e, seq![ax, da]) == seq![da]);
    // The file `b` goes after the directory.
    assert(fb.path.drop_last() =~= Seq::<Seq<char>>::empty());
    assert(normalized(fb) =~= fb);
    assert(seq![a] != seq![b]) by {
        assert(seq![a][0] != seq![b][0]);
    }
    assert(!has_path(seq![da], seq![b]));
    assert(seq![da].drop_first() =~= e);
    assert(seq![da][0] == da);
    assert(entry_cmp(da, fb) == Ordering::Less);
    assert(sorted_pos(e, fb) == 0);
    assert(sorted_pos(seq![da], fb) == 1);
    assert(seq![da].insert(1, fb) =~= seq![da, fb]);
    assert(inserted(seq![da], fb) == seq![da, fb]);
}

} // verus!
