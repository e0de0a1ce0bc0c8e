use vstd::prelude::*;
use vstd::utf8::{encode_utf8, encode_utf8_decode_utf8};
use core::cmp::Ordering;

verus! {

/// A path relative to the scan root, held as its segments (file and directory
/// names). The root itself is the empty path.
#[derive(Clone, Debug)]
pub struct EntryPath {
    pub segments: Vec<String>,
}

impl View for EntryPath {
    type V = Seq<Seq<char>>;

    open spec fn view(&self) -> Seq<Seq<char>> {
        self.segments@.map_values(|s: String| s@)
    }
}

/// Lexicographic comparison of two byte strings, as `[u8]` orders them.
pub open spec fn bytes_cmp(a: Seq<u8>, b: Seq<u8>) -> Ordering
    decreases a.len(),
{
    if a.len() == 0 {
        if b.len() == 0 { Ordering::Equal } else { Ordering::Less }
    } else if b.len() == 0 {
        Ordering::Greater
    } else if a[0] < b[0] {
        Ordering::Less
    } else if a[0] > b[0] {
        Ordering::Greater
    } else {
        bytes_cmp(a.drop_first(), b.drop_first())
    }
}

/// Two segments compare as their UTF-8 encodings do.
pub open spec fn segment_cmp(a: Seq<char>, b: Seq<char>) -> Ordering {
    bytes_cmp(encode_utf8(a), encode_utf8(b))
}

/// Paths compare segment by segment; a proper prefix comes first.
pub open spec fn path_cmp(a: Seq<Seq<char>>, b: Seq<Seq<char>>) -> Ordering
    decreases a.len(),
{
    if a.len() == 0 {
        if b.len() == 0 { Ordering::Equal } else { Ordering::Less }
    } else if b.len() == 0 {
        Ordering::Greater
    } else if segment_cmp(a[0], b[0]) != Ordering::Equal {
        segment_cmp(a[0], b[0])
    } else {
        path_cmp(a.drop_first(), b.drop_first())
    }
}

/// Flips an ordering, as `Ordering::reverse` does.
pub open spec fn flip(o: Ordering) -> Ordering {
    match o {
        Ordering::Less => Ordering::Greater,
        Ordering::Equal => Ordering::Equal,
        Ordering::Greater => Ordering::Less,
    }
}

pub proof fn lemma_bytes_cmp_props(a: Seq<u8>, b: Seq<u8>)
    ensures
        bytes_cmp(a, b) == Ordering::Equal <==> a == b,
        bytes_cmp(b, a) == flip(bytes_cmp(a, b)),
    decreases a.len(),
{
    if a.len() > 0 && b.len() > 0 && a[0] == b[0] {
        lemma_bytes_cmp_props(a.drop_first(), b.drop_first());
        if a.drop_first() == b.drop_first() {
            assert(a =~= b) by {
                assert forall|i: int| 0 < i < a.len() implies a[i] == b[i] by {
                    assert(a[i] == a.drop_first()[i - 1]);
                    assert(b[i] == b.drop_first()[i - 1]);
                }
            }
        }
    } else if a.len() == 0 && b.len() == 0 {
        assert(a =~= b);
    }
}

pub proof fn lemma_bytes_cmp_trans(a: Seq<u8>, b: Seq<u8>, c: Seq<u8>)
    requires
        bytes_cmp(a, b) == Ordering::Less,
        bytes_cmp(b, c) == Ordering::Less,
    ensures
        bytes_cmp(a, c) == Ordering::Less,
    decreases a.len(),
{
    if a.len() > 0 && b.len() > 0 && c.len() > 0 && a[0] == b[0] && b[0] == c[0] {
        lemma_bytes_cmp_trans(a.drop_first(), b.drop_first(), c.drop_first());
    }
}

pub proof fn lemma_segment_cmp_props(a: Seq<char>, b: Seq<char>)
    ensures
        segment_cmp(a, b) == Ordering::Equal <==> a == b,
        segment_cmp(b, a) == flip(segment_cmp(a, b)),
{
    lemma_bytes_cmp_props(encode_utf8(a), encode_utf8(b));
    if encode_utf8(a) == encode_utf8(b) {
        encode_utf8_decode_utf8(a);
        encode_utf8_decode_utf8(b);
    }
}

pub proof fn lemma_path_cmp_props(a: Seq<Seq<char>>, b: Seq<Seq<char>>)
    ensures
        path_cmp(a, b) == Ordering::Equal <==> a == b,
        path_cmp(b, a) == flip(path_cmp(a, b)),
    decreases a.len(),
{
    if a.len() > 0 && b.len() > 0 {
        lemma_segment_cmp_props(a[0], b[0]);
        if a[0] == b[0] {
            lemma_path_cmp_props(a.drop_first(), b.drop_first());
            if a.drop_first() == b.drop_first() {
                assert(a =~= b) by {
                    assert forall|i: int| 0 < i < a.len() implies a[i] == b[i] by {
                        assert(a[i] == a.drop_first()[i - 1]);
                        assert(b[i] == b.drop_first()[i - 1]);
                    }
                }
            }
        }
    } else if a.len() == 0 && b.len() == 0 {
        assert(a =~= b);
    }
}

pub proof fn lemma_path_cmp_trans(a: Seq<Seq<char>>, b: Seq<Seq<char>>, c: Seq<Seq<char>>)
    requires
        path_cmp(a, b) == Ordering::Less,
        path_cmp(b, c) == Ordering::Less,
    ensures
        path_cmp(a, c) == Ordering::Less,
    decreases a.len(),
{
    if a.len() > 0 && b.len() > 0 && c.len() > 0 {
        lemma_segment_cmp_props(a[0], b[0]);
        lemma_segment_cmp_props(b[0], c[0]);
        lemma_segment_cmp_props(a[0], c[0]);
        if a[0] == b[0] && b[0] == c[0] {
            lemma_path_cmp_trans(a.drop_first(), b.drop_first(), c.drop_first());
        } else if a[0] == b[0] {
        } else if b[0] == c[0] {
        } else {
            lemma_bytes_cmp_trans(encode_utf8(a[0]), encode_utf8(b[0]), encode_utf8(c[0]));
        }
    }
}

/// Compares two segments by their bytes.
pub fn compare_segments(a: &String, b: &String) -> (r: Ordering)
    ensures
        r == segment_cmp(a@, b@),
{
    let x = a.as_str().as_bytes();
    let y = b.as_str().as_bytes();
    let mut i: usize = 0;
    assert(x@.skip(0) =~= x@);
    assert(y@.skip(0) =~= y@);
    while i < x.len() && i < y.len()
        invariant
            x@ == encode_utf8(a@),
            y@ == encode_utf8(b@),
            i <= x@.len(),
            i <= y@.len(),
            bytes_cmp(x@, y@) == bytes_cmp(x@.skip(i as int), y@.skip(i as int)),
        decreases x@.len() - i,
    {
        if x[i] < y[i] {
            return Ordering::Less;
        }
        if x[i] > y[i] {
            return Ordering::Greater;
        }
        assert(x@.skip(i as int).drop_first() =~= x@.skip(i + 1));
        assert(y@.skip(i as int).drop_first() =~= y@.skip(i + 1));
        i = i + 1;
    }
    if i < y.len() {
        Ordering::Less
    } else if i < x.len() {
        Ordering::Greater
    } else {
        Ordering::Equal
    }
}

/// Compares two paths segment by segment.
pub fn compare_paths(a: &EntryPath, b: &EntryPath) -> (r: Ordering)
    ensures
        r == path_cmp(a@, b@),
{
    let mut i: usize = 0;
    assert(a@.skip(0) =~= a@);
    assert(b@.skip(0) =~= b@);
    while i < a.segments.len() && i < b.segments.len()
        invariant
            i <= a@.len(),
            i <= b@.len(),
            path_cmp(a@, b@) == path_cmp(a@.skip(i as int), b@.skip(i as int)),
        decreases a@.len() - i,
    {
        let o = compare_segments(&a.segments[i], &b.segments[i]);
        assert(a@.skip(i as int)[0] == a.segments@[i as int]@);
        assert(b@.skip(i as int)[0] == b.segments@[i as int]@);
        match o {
            Ordering::Equal => {},
            _ => {
                return o;
            },
        }
        assert(a@.skip(i as int).drop_first() =~= a@.skip(i + 1));
        assert(b@.skip(i as int).drop_first() =~= b@.skip(i + 1));
        i = i + 1;
    }
    if i < b.segments.len() {
        Ordering::Less
    } else if i < a.segments.len() {
        Ordering::Greater
    } else {
        Ordering::Equal
    }
}

/// Whether two paths have the same segments.
pub fn paths_equal(a: &EntryPath, b: &EntryPath) -> (r: bool)
    ensures
        r == (a@ == b@),
{
    if a.segments.len() != b.segments.len() {
        return false;
    }
    let mut i: usize = 0;
    while i < a.segments.len()
        invariant
            a@.len() == b@.len(),
            i <= a@.len(),
            forall|k: int| 0 <= k < i ==> a@[k] == b@[k],
        decreases a@.len() - i,
    {
        if !(a.segments[i] == b.segments[i]) {
            assert(a@[i as int] != b@[i as int]);
            return false;
        }
        i = i + 1;
    }
    assert(a@ =~= b@);
    true
}

/// `p` lies directly inside `parent`.
pub open spec fn is_parent_path(parent: Seq<Seq<char>>, p: Seq<Seq<char>>) -> bool {
    p.len() == parent.len() + 1 && p.drop_last() == parent
}

/// Whether `p` consists of the first `len` segments of `target`.
pub fn prefix_matches(p: &EntryPath, target: &EntryPath, len: usize) -> (r: bool)
    requires
        len <= target@.len(),
    ensures
        r == (p@ == target@.take(len as int)),
{
    if p.segments.len() != len {
        assert(p@.len() != target@.take(len as int).len());
        return false;
    }
    let mut i: usize = 0;
    while i < len
        invariant
            p@.len() == len,
            len <= target@.len(),
            i <= len,
            forall|k: int| 0 <= k < i ==> p@[k] == target@[k],
        decreases len - i,
    {
        if !(p.segments[i] == target.segments[i]) {
            assert(p@[i as int] != target@.take(len as int)[i as int]);
            return false;
        }
        i = i + 1;
    }
    assert(p@ =~= target@.take(len as int));
    true
}

/// Whether `p` lies directly inside `parent`.
pub fn is_parent(parent: &EntryPath, p: &EntryPath) -> (r: bool)
    ensures
        r == is_parent_path(parent@, p@),
{
    if p.segments.len() == 0 || p.segments.len() - 1 != parent.segments.len() {
        return false;
    }
    let r = prefix_matches(parent, p, parent.segments.len());
    assert(p@.drop_last() =~= p@.take(parent@.len() as int));
    r
}

/// The segments read so far from a `/`-separated text: those finished (never
/// empty) and the one being read.
pub open spec fn split_state(s: Seq<char>) -> (Seq<Seq<char>>, Seq<char>)
    decreases s.len(),
{
    if s.len() == 0 {
        (Seq::empty(), Seq::empty())
    } else {
        let (done, cur) = split_state(s.drop_last());
        if s.last() == '/' {
            (if cur.len() > 0 { done.push(cur) } else { done }, Seq::empty())
        } else {
            (done, cur.push(s.last()))
        }
    }
}

/// The segments of a `/`-separated text, empty ones left out.
pub open spec fn segments_of_text(s: Seq<char>) -> Seq<Seq<char>> {
    let (done, cur) = split_state(s);
    if cur.len() > 0 {
        done.push(cur)
    } else {
        done
    }
}

/// The segments joined by `/`.
pub open spec fn text_of_segments(p: Seq<Seq<char>>) -> Seq<char>
    decreases p.len(),
{
    if p.len() == 0 {
        Seq::empty()
    } else if p.len() == 1 {
        p[0]
    } else {
        text_of_segments(p.drop_last()) + seq!['/'] + p.last()
    }
}

pub open spec fn strings_view(s: Seq<String>) -> Seq<Seq<char>> {
    s.map_values(|x: String| x@)
}

impl EntryPath {
    /// The path of a `/`-separated text such as `a/x.txt`; empty segments
    /// (a leading, trailing or doubled `/`) are left out.
    pub fn parse(text: &str) -> (r: EntryPath)
        ensures
            r@ == segments_of_text(text@),
    {
        let n = text.unicode_len();
        let mut segments: Vec<String> = Vec::new();
        let mut start: usize = 0;
        let mut i: usize = 0;
        assert(text@.take(0) =~= Seq::<char>::empty());
        assert(strings_view(segments@) =~= Seq::<Seq<char>>::empty());
        assert(text@.subrange(0, 0) =~= Seq::<char>::empty());
        while i < n
            invariant
                n == text@.len(),
                start <= i <= n,
                split_state(text@.take(i as int)) == (strings_view(segments@), text@.subrange(start as int, i as int)),
            decreases n - i,
        {
            let c = text.get_char(i);
            assert(text@.take(i + 1).drop_last() =~= text@.take(i as int));
            assert(text@.take(i + 1).last() == c);
            if c == '/' {
                if start < i {
                    let seg = text.substring_char(start, i).to_owned();
                    let ghost before = segments@;
                    segments.push(seg);
                    assert(strings_view(segments@) =~= strings_view(before).push(seg@));
                }
                start = i + 1;
                assert(text@.subrange(start as int, i + 1) =~= Seq::<char>::empty());
            } else {
                assert(text@.subrange(start as int, i + 1) =~= text@.subrange(start as int, i as int).push(c));
            }
            i = i + 1;
        }
        assert(text@.take(n as int) =~= text@);
        if start < n {
            let seg = text.substring_char(start, n).to_owned();
            let ghost before = segments@;
            segments.push(seg);
            assert(strings_view(segments@) =~= strings_view(before).push(seg@));
        }
        EntryPath { segments }
    }

    /// The text of the path: its segments joined by `/`.
    pub fn to_text(&self) -> (r: String)
        ensures
            r@ == text_of_segments(self@),
    {
        let mut r = String::new();
        let mut i: usize = 0;
        proof {
            reveal_strlit("/");
        }
        assert(self@.take(0) =~= Seq::<Seq<char>>::empty());
        while i < self.segments.len()
            invariant
                i <= self@.len(),
                r@ == text_of_segments(self@.take(i as int)),
                "/"@ == seq!['/'],
            decreases self@.len() - i,
        {
            if i > 0 {
                r.append("/");
            }
            r.append(self.segments[i].as_str());
            assert(self@.take(i + 1).drop_last() =~= self@.take(i as int));
            assert(self@.take(i + 1).last() == self.segments@[i as int]@);
            proof {
                if i == 0 {
                    assert(self@.take(1)[0] == self.segments@[0]@);
                }
            }
            i = i + 1;
        }
        assert(self@.take(i as int) =~= self@);
        r
    }

    /// The path of the directory that holds this one; `None` for the root.
    pub fn parent(&self) -> (r: Option<EntryPath>)
        ensures
            match r {
                Some(p) => self@.len() > 0 && p@ == self@.drop_last(),
                None => self@.len() == 0,
            },
    {
        if self.segments.len() == 0 {
            return None;
        }
        let last = self.segments.len() - 1;
        let mut segments: Vec<String> = Vec::new();
        let mut i: usize = 0;
        while i < last
            invariant
                last == self@.len() - 1,
                i <= last,
                segments@.len() == i,
                forall|k: int| 0 <= k < i ==> (#[trigger] segments@[k])@ == self@[k],
            decreases last - i,
        {
            segments.push(self.segments[i].clone());
            i = i + 1;
        }
        let p = EntryPath { segments };
        assert(p@ =~= self@.drop_last());
        Some(p)
    }
}

/// Some segment of the path is `.git`.
pub open spec fn in_git_dir(p: Seq<Seq<char>>) -> bool {
    exists|i: int| 0 <= i < p.len() && p[i] == ".git"@
}

/// Whether the entry at `path` belongs to version-control metadata (some
/// segment is `.git`), which a scan leaves out whatever the ignore files say.
pub fn is_excluded(path: &EntryPath) -> (r: bool)
    ensures
        r == in_git_dir(path@),
{
    let git = ".git".to_owned();
    let mut i: usize = 0;
    while i < path.segments.len()
        invariant
            git@ == ".git"@,
            i <= path@.len(),
            forall|k: int| 0 <= k < i ==> path@[k] != ".git"@,
        decreases path@.len() - i,
    {
        if path.segments[i] == git {
            assert(path@[i as int] == ".git"@);
            return true;
        }
        i = i + 1;
    }
    false
}

} // verus!
