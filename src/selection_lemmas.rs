use vstd::prelude::*;
use crate::entry::{Node, entry_cmp, wf_node, wf_list, wf_tree};
use crate::selection::{
    set_all, toggle_at, toggle_list, node_has, fully_selected, partially_selected, collect_node,
    collect_list, apply_at, apply_list, find_node, find_list, is_leaf_at,
};

verus! {

// ---------------------------------------------------------------------------
// Flags do not change the shape of the tree

/// `a` and `b` differ at most in their flags.
pub open spec fn same_shape(a: Node, b: Node) -> bool
    decreases a,
{
    &&& a.path == b.path
    &&& a.is_dir == b.is_dir
    &&& a.children.len() == b.children.len()
    &&& forall|i: int| 0 <= i < a.children.len() ==> same_shape(#[trigger] a.children[i], b.children[i])
}

pub open spec fn same_shape_list(a: Seq<Node>, b: Seq<Node>) -> bool {
    a.len() == b.len() && forall|i: int| 0 <= i < a.len() ==> same_shape(#[trigger] a[i], b[i])
}

pub proof fn lemma_same_shape_wf(a: Node, b: Node, dir: Seq<Seq<char>>)
    requires
        same_shape(a, b),
        wf_node(a, dir),
    ensures
        wf_node(b, dir),
    decreases a,
{
    assert forall|i: int, j: int| 0 <= i < j < b.children.len() implies entry_cmp(b.children[i], b.children[j])
        == core::cmp::Ordering::Less by {
        assert(same_shape(a.children[i], b.children[i]));
        assert(same_shape(a.children[j], b.children[j]));
        assert(entry_cmp(a.children[i], a.children[j]) == core::cmp::Ordering::Less);
    }
    assert forall|i: int, j: int|
        0 <= i < b.children.len() && 0 <= j < b.children.len() && i != j implies b.children[i].path
        != b.children[j].path by {
        assert(same_shape(a.children[i], b.children[i]));
        assert(same_shape(a.children[j], b.children[j]));
    }
    assert forall|i: int| 0 <= i < b.children.len() implies wf_node(#[trigger] b.children[i], b.path) by {
        assert(same_shape(a.children[i], b.children[i]));
        lemma_same_shape_wf(a.children[i], b.children[i], a.path);
    }
}

pub proof fn lemma_same_shape_list_wf(a: Seq<Node>, b: Seq<Node>, dir: Seq<Seq<char>>)
    requires
        same_shape_list(a, b),
        wf_list(a, dir),
    ensures
        wf_list(b, dir),
{
    assert forall|i: int, j: int| 0 <= i < j < b.len() implies entry_cmp(b[i], b[j]) == core::cmp::Ordering::Less by {
        assert(same_shape(a[i], b[i]));
        assert(same_shape(a[j], b[j]));
        assert(entry_cmp(a[i], a[j]) == core::cmp::Ordering::Less);
    }
    assert forall|i: int, j: int| 0 <= i < b.len() && 0 <= j < b.len() && i != j implies b[i].path != b[j].path by {
        assert(same_shape(a[i], b[i]));
        assert(same_shape(a[j], b[j]));
    }
    assert forall|i: int| 0 <= i < b.len() implies wf_node(#[trigger] b[i], dir) by {
        assert(same_shape(a[i], b[i]));
        lemma_same_shape_wf(a[i], b[i], dir);
    }
}

pub proof fn lemma_set_all_shape(n: Node, v: bool)
    ensures
        same_shape(n, set_all(n, v)),
    decreases n,
{
    assert forall|i: int| 0 <= i < n.children.len() implies same_shape(#[trigger] n.children[i], set_all(n, v).children[i]) by {
        lemma_set_all_shape(n.children[i], v);
    }
}

pub proof fn lemma_toggle_shape(n: Node, p: Seq<Seq<char>>, v: bool)
    ensures
        same_shape(n, toggle_at(n, p, v)),
    decreases n,
{
    if n.path == p {
        lemma_set_all_shape(n, v);
    } else {
        assert forall|i: int| 0 <= i < n.children.len() implies same_shape(#[trigger] n.children[i], toggle_at(n, p, v).children[i]) by {
            lemma_toggle_shape(n.children[i], p, v);
        }
    }
}

pub proof fn lemma_same_shape_refl(n: Node)
    ensures
        same_shape(n, n),
    decreases n,
{
    assert forall|i: int| 0 <= i < n.children.len() implies same_shape(#[trigger] n.children[i], n.children[i]) by {
        lemma_same_shape_refl(n.children[i]);
    }
}

pub proof fn lemma_apply_shape(n: Node, saved: Seq<Seq<Seq<char>>>)
    ensures
        same_shape(n, apply_at(n, saved)),
    decreases n,
{
    if !n.is_dir {
        lemma_same_shape_refl(n);
    } else {
        assert forall|i: int| 0 <= i < n.children.len() implies same_shape(#[trigger] n.children[i], apply_at(n, saved).children[i]) by {
            lemma_apply_shape(n.children[i], saved);
        }
    }
}

/// Toggling keeps a well-formed tree well formed.
pub proof fn lemma_toggle_wf(list: Seq<Node>, p: Seq<Seq<char>>, v: bool)
    requires
        wf_tree(list),
    ensures
        wf_tree(toggle_list(list, p, v)),
{
    assert forall|i: int| 0 <= i < list.len() implies same_shape(#[trigger] list[i], toggle_list(list, p, v)[i]) by {
        lemma_toggle_shape(list[i], p, v);
    }
    lemma_same_shape_list_wf(list, toggle_list(list, p, v), Seq::empty());
}

/// Restoring a selection keeps a well-formed tree well formed.
pub proof fn lemma_apply_wf(list: Seq<Node>, saved: Seq<Seq<Seq<char>>>)
    requires
        wf_tree(list),
    ensures
        wf_tree(apply_list(list, saved)),
{
    assert forall|i: int| 0 <= i < list.len() implies same_shape(#[trigger] list[i], apply_list(list, saved)[i]) by {
        lemma_apply_shape(list[i], saved);
    }
    lemma_same_shape_list_wf(list, apply_list(list, saved), Seq::empty());
}

// ---------------------------------------------------------------------------
// Sequences

pub proof fn lemma_concat_contains<A>(a: Seq<A>, b: Seq<A>, x: A)
    ensures
        (a + b).contains(x) <==> (a.contains(x) || b.contains(x)),
{
    if a.contains(x) {
        let k = choose|k: int| 0 <= k < a.len() && a[k] == x;
        assert((a + b)[k] == x);
    }
    if b.contains(x) {
        let k = choose|k: int| 0 <= k < b.len() && b[k] == x;
        assert((a + b)[a.len() + k] == x);
    }
    if (a + b).contains(x) {
        let k = choose|k: int| 0 <= k < (a + b).len() && (a + b)[k] == x;
        if k < a.len() {
            assert(a[k] == x);
        } else {
            assert(b[k - a.len()] == x);
        }
    }
}

pub proof fn lemma_concat_no_duplicates<A>(a: Seq<A>, b: Seq<A>)
    requires
        a.no_duplicates(),
        b.no_duplicates(),
        forall|i: int, j: int| 0 <= i < a.len() && 0 <= j < b.len() ==> a[i] != b[j],
    ensures
        (a + b).no_duplicates(),
{
    let c = a + b;
    assert forall|i: int, j: int| 0 <= i < c.len() && 0 <= j < c.len() && i != j implies c[i] != c[j] by {
        if i < a.len() && j >= a.len() {
            assert(c[j] == b[j - a.len()]);
        } else if i >= a.len() && j < a.len() {
            assert(c[i] == b[i - a.len()]);
        }
    }
}

// ---------------------------------------------------------------------------
// Setting a subtree

pub proof fn lemma_set_all_on(n: Node)
    ensures
        !node_has(set_all(n, true), false),
    decreases n,
{
    let t = set_all(n, true);
    assert forall|i: int| 0 <= i < t.children.len() implies !node_has(#[trigger] t.children[i], false) by {
        lemma_set_all_on(n.children[i]);
    }
}

proof fn lemma_find_toggled_on_node(n: Node, p: Seq<Seq<char>>)
    ensures
        find_node(toggle_at(n, p, true), p) matches Some(x) ==> !node_has(x, false),
    decreases n, 1nat,
{
    if n.path == p {
        lemma_set_all_on(n);
    } else {
        assert(toggle_at(n, p, true).children =~= toggle_list(n.children, p, true));
        lemma_find_toggled_on_list(n.children, p);
    }
}

proof fn lemma_find_toggled_on_list(list: Seq<Node>, p: Seq<Seq<char>>)
    ensures
        find_list(toggle_list(list, p, true), p) matches Some(x) ==> !node_has(x, false),
    decreases list, 0nat,
{
    if list.len() > 0 {
        assert(toggle_list(list, p, true).drop_last() =~= toggle_list(list.drop_last(), p, true));
        lemma_find_toggled_on_list(list.drop_last(), p);
        lemma_find_toggled_on_node(list.last(), p);
    }
}

/// After every entry with path `p` gets the flag `true` throughout its
/// subtree, the entry found at `p` is fully selected and not partially
/// selected.
pub proof fn lemma_toggle_on_selects_fully(list: Seq<Node>, p: Seq<Seq<char>>)
    ensures
        find_list(toggle_list(list, p, true), p) matches Some(n) ==> fully_selected(n) && !partially_selected(n),
{
    lemma_find_toggled_on_list(list, p);
}

proof fn lemma_collect_set_all_off_node(n: Node)
    ensures
        collect_node(set_all(n, false)) =~= Seq::<Seq<Seq<char>>>::empty(),
    decreases n, 1nat,
{
    let t = set_all(n, false);
    assert(t.children =~= Seq::new(n.children.len(), |i: int| set_all(n.children[i], false)));
    lemma_collect_set_all_off_list(n.children);
}

proof fn lemma_collect_set_all_off_list(cs: Seq<Node>)
    ensures
        collect_list(Seq::new(cs.len(), |i: int| set_all(cs[i], false))) =~= Seq::<Seq<Seq<char>>>::empty(),
    decreases cs, 0nat,
{
    if cs.len() > 0 {
        let t = Seq::new(cs.len(), |i: int| set_all(cs[i], false));
        assert(t.drop_last() =~= Seq::new(cs.drop_last().len(), |i: int| set_all(cs.drop_last()[i], false)));
        lemma_collect_set_all_off_list(cs.drop_last());
        lemma_collect_set_all_off_node(cs.last());
    }
}

proof fn lemma_toggle_off_node(n: Node, p: Seq<Seq<char>>)
    ensures
        !collect_node(toggle_at(n, p, false)).contains(p),
    decreases n, 1nat,
{
    if n.path == p {
        lemma_collect_set_all_off_node(n);
    } else {
        let t = toggle_at(n, p, false);
        assert(t.children =~= toggle_list(n.children, p, false));
        lemma_toggle_off_list(n.children, p);
        let own = if !t.is_dir && t.selected { seq![t.path] } else { Seq::<Seq<Seq<char>>>::empty() };
        lemma_concat_contains(own, collect_list(t.children), p);
        if own.contains(p) {
            assert(own[0] == p);
        }
    }
}

proof fn lemma_toggle_off_list(list: Seq<Node>, p: Seq<Seq<char>>)
    ensures
        !collect_list(toggle_list(list, p, false)).contains(p),
    decreases list, 0nat,
{
    if list.len() > 0 {
        let t = toggle_list(list, p, false);
        assert(t.drop_last() =~= toggle_list(list.drop_last(), p, false));
        lemma_toggle_off_list(list.drop_last(), p);
        lemma_toggle_off_node(list.last(), p);
        lemma_concat_contains(collect_list(t.drop_last()), collect_node(t.last()), p);
    }
}

proof fn lemma_toggle_on_node(n: Node, p: Seq<Seq<char>>)
    requires
        find_node(n, p) matches Some(x) && !x.is_dir,
    ensures
        collect_node(toggle_at(n, p, true)).contains(p),
    decreases n, 1nat,
{
    let t = toggle_at(n, p, true);
    let own = if !t.is_dir && t.selected { seq![t.path] } else { Seq::<Seq<Seq<char>>>::empty() };
    if n.path == p {
        assert(own[0] == p);
        lemma_concat_contains(own, collect_list(t.children), p);
    } else {
        assert(t.children =~= toggle_list(n.children, p, true));
        lemma_toggle_on_list(n.children, p);
        lemma_concat_contains(own, collect_list(t.children), p);
    }
}

proof fn lemma_toggle_on_list(list: Seq<Node>, p: Seq<Seq<char>>)
    requires
        is_leaf_at(list, p),
    ensures
        collect_list(toggle_list(list, p, true)).contains(p),
    decreases list, 0nat,
{
    let t = toggle_list(list, p, true);
    assert(t.drop_last() =~= toggle_list(list.drop_last(), p, true));
    if find_list(list.drop_last(), p) is Some {
        lemma_toggle_on_list(list.drop_last(), p);
    } else {
        lemma_toggle_on_node(list.last(), p);
    }
    lemma_concat_contains(collect_list(t.drop_last()), collect_node(t.last()), p);
}

// ---------------------------------------------------------------------------
// Collected paths of a well-formed tree

proof fn lemma_wf_drop_last(list: Seq<Node>, dir: Seq<Seq<char>>)
    requires
        wf_list(list, dir),
        list.len() > 0,
    ensures
        wf_list(list.drop_last(), dir),
{
    let d = list.drop_last();
    assert forall|i: int, j: int| 0 <= i < j < d.len() implies entry_cmp(d[i], d[j]) == core::cmp::Ordering::Less by {
        assert(entry_cmp(list[i], list[j]) == core::cmp::Ordering::Less);
    }
    assert forall|i: int| 0 <= i < d.len() implies wf_node(#[trigger] d[i], dir) by {
        assert(wf_node(list[i], dir));
    }
}

/// Each collected path of `n` starts with the path of `n`.
proof fn lemma_collect_prefix_node(n: Node, dir: Seq<Seq<char>>)
    requires
        wf_node(n, dir),
    ensures
        forall|k: int| 0 <= k < collect_node(n).len() ==> {
            let q = #[trigger] collect_node(n)[k];
            q.len() >= n.path.len() && q.take(n.path.len() as int) == n.path
        },
    decreases n, 1nat,
{
    let own = if !n.is_dir && n.selected { seq![n.path] } else { Seq::<Seq<Seq<char>>>::empty() };
    let rest = collect_list(n.children);
    assert(wf_list(n.children, n.path));
    lemma_collect_prefix_list(n.children, n.path);
    assert forall|k: int| 0 <= k < collect_node(n).len() implies {
        let q = #[trigger] collect_node(n)[k];
        q.len() >= n.path.len() && q.take(n.path.len() as int) == n.path
    } by {
        let q = collect_node(n)[k];
        if k < own.len() {
            assert(q == n.path);
            assert(q.take(n.path.len() as int) =~= n.path);
        } else {
            assert(q == rest[k - own.len()]);
            let j = choose|j: int| 0 <= j < n.children.len() && q.take(n.path.len() + 1int) == n.children[j].path;
            assert(wf_node(n.children[j], n.path));
            assert(q.take(n.path.len() as int) =~= q.take(n.path.len() + 1int).drop_last());
        }
    }
}

/// Each collected path of the list starts with the path of one of its entries.
proof fn lemma_collect_prefix_list(list: Seq<Node>, dir: Seq<Seq<char>>)
    requires
        wf_list(list, dir),
    ensures
        forall|k: int| 0 <= k < collect_list(list).len() ==> {
            let q = #[trigger] collect_list(list)[k];
            q.len() > dir.len() && exists|j: int| 0 <= j < list.len() && q.take(dir.len() + 1int) == list[j].path
        },
    decreases list, 0nat,
{
    if list.len() > 0 {
        let d = list.drop_last();
        let l = list.last();
        lemma_wf_drop_last(list, dir);
        lemma_collect_prefix_list(d, dir);
        assert(wf_node(list[list.len() - 1], dir));
        lemma_collect_prefix_node(l, dir);
        let a = collect_list(d);
        let b = collect_node(l);
        assert forall|k: int| 0 <= k < collect_list(list).len() implies {
            let q = #[trigger] collect_list(list)[k];
            q.len() > dir.len() && exists|j: int| 0 <= j < list.len() && q.take(dir.len() + 1int) == list[j].path
        } by {
            let q = collect_list(list)[k];
            if k < a.len() {
                assert(q == a[k]);
                let j = choose|j: int| 0 <= j < d.len() && q.take(dir.len() + 1int) == d[j].path;
                assert(list[j] == d[j]);
            } else {
                assert(q == b[k - a.len()]);
                assert(l.path.len() == dir.len() + 1);
                assert(q.take(dir.len() + 1int) == l.path);
                assert(list[list.len() - 1] == l);
            }
        }
    }
}

proof fn lemma_collect_no_duplicates_node(n: Node, dir: Seq<Seq<char>>)
    requires
        wf_node(n, dir),
    ensures
        collect_node(n).no_duplicates(),
    decreases n, 1nat,
{
    let own = if !n.is_dir && n.selected { seq![n.path] } else { Seq::<Seq<Seq<char>>>::empty() };
    let rest = collect_list(n.children);
    assert(wf_list(n.children, n.path));
    lemma_collect_no_duplicates_list(n.children, n.path);
    lemma_collect_prefix_list(n.children, n.path);
    assert forall|i: int, j: int| 0 <= i < own.len() && 0 <= j < rest.len() implies own[i] != rest[j] by {
        assert(rest[j].len() > n.path.len());
    }
    lemma_concat_no_duplicates(own, rest);
}

proof fn lemma_collect_no_duplicates_list(list: Seq<Node>, dir: Seq<Seq<char>>)
    requires
        wf_list(list, dir),
    ensures
        collect_list(list).no_duplicates(),
    decreases list, 0nat,
{
    if list.len() > 0 {
        let d = list.drop_last();
        let l = list.last();
        lemma_wf_drop_last(list, dir);
        lemma_collect_no_duplicates_list(d, dir);
        lemma_collect_prefix_list(d, dir);
        assert(wf_node(list[list.len() - 1], dir));
        lemma_collect_no_duplicates_node(l, dir);
        lemma_collect_prefix_node(l, dir);
        let a = collect_list(d);
        let b = collect_node(l);
        assert forall|i: int, j: int| 0 <= i < a.len() && 0 <= j < b.len() implies a[i] != b[j] by {
            let q = a[i];
            let k = choose|k: int| 0 <= k < d.len() && q.take(dir.len() + 1int) == d[k].path;
            assert(list[k] == d[k]);
            assert(list[list.len() - 1] == l);
            assert(b[j].take(dir.len() + 1int) == l.path);
            assert(list[k].path != list[list.len() - 1].path);
        }
        lemma_concat_no_duplicates(a, b);
    }
}

/// For a file at path `p` of a well-formed tree: once it is set, the
/// collected paths hold `p` exactly once; once it is cleared, not at all.
pub proof fn lemma_toggle_leaf_collect(list: Seq<Node>, p: Seq<Seq<char>>)
    requires
        wf_tree(list),
        is_leaf_at(list, p),
    ensures
        collect_list(toggle_list(list, p, true)).contains(p),
        collect_list(toggle_list(list, p, true)).no_duplicates(),
        !collect_list(toggle_list(list, p, false)).contains(p),
{
    lemma_toggle_on_list(list, p);
    lemma_toggle_wf(list, p, true);
    lemma_collect_no_duplicates_list(toggle_list(list, p, true), Seq::empty());
    lemma_toggle_off_list(list, p);
}

/// A path below the entry `list[i]` is collected from the list exactly when it
/// is collected from that entry.
proof fn lemma_collect_localize(list: Seq<Node>, dir: Seq<Seq<char>>, i: int, q: Seq<Seq<char>>)
    requires
        wf_list(list, dir),
        0 <= i < list.len(),
        q.len() >= list[i].path.len(),
        q.take(list[i].path.len() as int) == list[i].path,
    ensures
        collect_list(list).contains(q) <==> collect_node(list[i]).contains(q),
    decreases list.len(),
{
    let d = list.drop_last();
    let l = list.last();
    let a = collect_list(d);
    let b = collect_node(l);
    assert(wf_node(list[i], dir));
    assert(wf_node(list[list.len() - 1], dir));
    assert(list[list.len() - 1] == l);
    lemma_concat_contains(a, b, q);
    lemma_wf_drop_last(list, dir);
    lemma_collect_prefix_list(d, dir);
    lemma_collect_prefix_node(l, dir);
    if i == list.len() - 1 {
        if a.contains(q) {
            let k = choose|k: int| 0 <= k < a.len() && a[k] == q;
            let j = choose|j: int| 0 <= j < d.len() && a[k].take(dir.len() + 1int) == d[j].path;
            assert(list[j] == d[j]);
            assert(list[j].path != list[i].path);
        }
    } else {
        assert(d[i] == list[i]);
        lemma_collect_localize(d, dir, i, q);
        if b.contains(q) {
            let k = choose|k: int| 0 <= k < b.len() && b[k] == q;
            assert(b[k].take(dir.len() + 1int) == l.path);
            assert(list[i].path != l.path);
        }
    }
}

proof fn lemma_apply_noop_node(n: Node, dir: Seq<Seq<char>>, saved: Seq<Seq<Seq<char>>>)
    requires
        wf_node(n, dir),
        forall|q: Seq<Seq<char>>|
            q.len() >= n.path.len() && q.take(n.path.len() as int) == n.path ==> (#[trigger] saved.contains(q)
                <==> collect_node(n).contains(q)),
    ensures
        apply_at(n, saved) == n,
    decreases n, 1nat,
{
    let own = if !n.is_dir && n.selected { seq![n.path] } else { Seq::<Seq<Seq<char>>>::empty() };
    if !n.is_dir {
        assert(n.path.take(n.path.len() as int) =~= n.path);
        assert(collect_list(n.children) =~= Seq::<Seq<Seq<char>>>::empty());
        assert(collect_node(n) =~= own);
        if saved.contains(n.path) {
            assert(own.contains(n.path));
        }
        if n.selected {
            assert(own[0] == n.path);
        }
        assert(saved.contains(n.path) == n.selected);
    } else {
        assert(collect_node(n) =~= collect_list(n.children));
        assert(wf_list(n.children, n.path));
        assert forall|q: Seq<Seq<char>>|
            q.len() > n.path.len() && q.take(n.path.len() as int) == n.path implies (#[trigger] saved.contains(q)
                <==> collect_list(n.children).contains(q)) by {
        }
        lemma_apply_noop_list(n.children, n.path, saved);
        assert(apply_at(n, saved).children =~= n.children) by {
            assert forall|i: int| 0 <= i < n.children.len() implies apply_at(n, saved).children[i] == n.children[i] by {
                assert(apply_list(n.children, saved)[i] == apply_at(n.children[i], saved));
            }
        }
        assert(apply_at(n, saved) =~= n);
    }
}

proof fn lemma_apply_noop_list(list: Seq<Node>, dir: Seq<Seq<char>>, saved: Seq<Seq<Seq<char>>>)
    requires
        wf_list(list, dir),
        forall|q: Seq<Seq<char>>|
            q.len() > dir.len() && q.take(dir.len() as int) == dir ==> (#[trigger] saved.contains(q)
                <==> collect_list(list).contains(q)),
    ensures
        apply_list(list, saved) == list,
    decreases list, 0nat,
{
    assert forall|i: int| 0 <= i < list.len() implies apply_at(list[i], saved) == list[i] by {
        let n = list[i];
        assert(wf_node(n, dir));
        assert forall|q: Seq<Seq<char>>|
            q.len() >= n.path.len() && q.take(n.path.len() as int) == n.path implies (#[trigger] saved.contains(q)
                <==> collect_node(n).contains(q)) by {
            assert(q.take(dir.len() as int) =~= q.take(n.path.len() as int).take(dir.len() as int));
            assert(n.path.take(dir.len() as int) =~= n.path.drop_last());
            lemma_collect_localize(list, dir, i, q);
        }
        lemma_apply_noop_node(n, dir, saved);
    }
    assert(apply_list(list, saved) =~= list);
}

/// Restoring, in a well-formed tree, the selection collected from it changes
/// nothing.
pub proof fn lemma_restore_collected(list: Seq<Node>)
    requires
        wf_tree(list),
    ensures
        apply_list(list, collect_list(list)) == list,
{
    lemma_apply_noop_list(list, Seq::empty(), collect_list(list));
}

} // verus!
