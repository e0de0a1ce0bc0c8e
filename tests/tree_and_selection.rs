use ai_content::app::FileTreeApp;
use ai_content::entry::{compare_entries, FileEntry};
use ai_content::path::{compare_paths, EntryPath};
use ai_content::selection::{
    apply_saved_state, check_selection, collect_selected_paths, is_fully_selected, lookup, toggle_leaf,
    toggle_path, toggle_selection, update_selection_recursive,
};
use ai_content::tree::{add_to_parent, normalize};
use std::cmp::Ordering;

fn path(text: &str) -> EntryPath {
    EntryPath::parse(text)
}

fn file(text: &str) -> FileEntry {
    FileEntry { path: path(text), is_dir: false, children: vec![], selected: false }
}

fn dir(text: &str, children: Vec<FileEntry>) -> FileEntry {
    FileEntry { path: path(text), is_dir: true, children, selected: false }
}

/// One line per entry, depth first: path, kind and flag.
fn dump(files: &[FileEntry]) -> Vec<String> {
    let mut out = Vec::new();
    for f in files {
        out.push(format!("{} {} {}", f.path.to_text(), if f.is_dir { "d" } else { "f" }, f.selected));
        out.extend(dump(&f.children));
    }
    out
}

fn insert(files: &mut Vec<FileEntry>, entry: FileEntry) -> bool {
    let parent = entry.path.parent().unwrap();
    add_to_parent(files, &parent, entry)
}

fn sample() -> Vec<FileEntry> {
    let mut files = Vec::new();
    insert(&mut files, dir("src", vec![file("src/main.rs"), file("src/lib.rs")]));
    insert(&mut files, file("README.md"));
    insert(&mut files, dir("docs", vec![]));
    insert(&mut files, file("docs/guide.md"));
    files
}

fn selected(files: &Vec<FileEntry>) -> Vec<String> {
    collect_selected_paths(files).iter().map(|p| p.to_text()).collect()
}

#[test]
fn parse_drops_empty_segments() {
    let p = path("/a//b/");
    assert_eq!(p.segments, vec!["a".to_string(), "b".to_string()]);
    assert_eq!(p.to_text(), "a/b");
    assert!(path("").segments.is_empty());
}

#[test]
fn parent_of_paths() {
    assert_eq!(path("a/b/c").parent().unwrap().to_text(), "a/b");
    assert!(path("a").parent().unwrap().segments.is_empty());
    assert!(path("").parent().is_none());
}

#[test]
fn paths_compare_by_segments() {
    assert_eq!(compare_paths(&path("a/b"), &path("a.b")), Ordering::Less);
    assert_eq!(compare_paths(&path("a"), &path("a/x")), Ordering::Less);
    assert_eq!(compare_paths(&path("b"), &path("a/x")), Ordering::Greater);
    assert_eq!(compare_paths(&path("a/x"), &path("a/x")), Ordering::Equal);
    assert_eq!(compare_paths(&path("B"), &path("a")), Ordering::Less);
}

#[test]
fn directories_order_before_files() {
    assert_eq!(compare_entries(&dir("z", vec![]), &file("a")), Ordering::Less);
    assert_eq!(compare_entries(&file("a"), &dir("z", vec![])), Ordering::Greater);
    assert_eq!(compare_entries(&file("a"), &file("b")), Ordering::Less);
    assert_eq!(FileTreeApp::compare_entries(&dir("b", vec![]), &dir("a", vec![])), Ordering::Greater);
}

#[test]
fn inserts_keep_every_list_sorted() {
    let files = sample();
    assert_eq!(
        dump(&files),
        vec![
            "docs d false",
            "docs/guide.md f false",
            "src d false",
            "src/lib.rs f false",
            "src/main.rs f false",
            "README.md f false",
        ]
    );
}

#[test]
fn inserting_twice_is_inserting_once() {
    let mut once = sample();
    insert(&mut once, dir("tests", vec![file("tests/t.rs")]));
    let mut twice = sample();
    insert(&mut twice, dir("tests", vec![file("tests/t.rs")]));
    insert(&mut twice, dir("tests", vec![file("tests/t.rs")]));
    assert_eq!(dump(&once), dump(&twice));
}

#[test]
fn first_write_wins() {
    let mut files = Vec::new();
    let mut first = file("a.txt");
    first.selected = true;
    insert(&mut files, first);
    insert(&mut files, file("a.txt"));
    assert_eq!(dump(&files), vec!["a.txt f true"]);
}

#[test]
fn orphan_is_dropped_and_wrong_parent_refused() {
    let mut files = sample();
    let before = dump(&files);
    assert!(!insert(&mut files, file("missing/x.txt")));
    assert!(!add_to_parent(&mut files, &path("docs"), file("src/other.rs")));
    assert!(!insert(&mut files, file("README.md/inner")));
    assert_eq!(dump(&files), before);
}

#[test]
fn normalize_sorts_dedups_and_drops_strays() {
    let e = dir("d", vec![file("d/b"), file("d/a"), file("d/b"), file("elsewhere/c"), dir("d/sub", vec![])]);
    let n = normalize(e);
    assert_eq!(dump(&[n]), vec!["d d false", "d/sub d false", "d/a f false", "d/b f false"]);
    let mut leaf = file("f");
    leaf.children.push(file("f/x"));
    assert!(normalize(leaf).children.is_empty());
}

#[test]
fn toggle_leaf_then_collect() {
    let mut files = sample();
    assert!(toggle_leaf(&mut files, &path("src/lib.rs"), true));
    assert_eq!(selected(&files), vec!["src/lib.rs"]);
    assert!(toggle_leaf(&mut files, &path("src/lib.rs"), false));
    assert!(selected(&files).is_empty());
}

#[test]
fn toggle_leaf_refuses_directories_and_unknown_paths() {
    let mut files = sample();
    assert!(!toggle_leaf(&mut files, &path("src"), true));
    assert!(!toggle_leaf(&mut files, &path("nope.txt"), true));
    assert!(selected(&files).is_empty());
}

#[test]
fn toggle_subtree_makes_directory_fully_selected() {
    let mut files = sample();
    toggle_path(&mut files, &path("src"), true);
    let src = lookup(&files, &path("src")).unwrap();
    assert!(is_fully_selected(src));
    assert!(!FileTreeApp::contains_mixed_selection(src));
    assert_eq!(check_selection(src), (true, false));
    assert_eq!(selected(&files), vec!["src/lib.rs", "src/main.rs"]);
}

#[test]
fn empty_directory_is_fully_selected() {
    let empty = dir("e", vec![]);
    assert!(is_fully_selected(&empty));
    assert!(!FileTreeApp::contains_mixed_selection(&empty));
    assert_eq!(FileTreeApp::check_selection(&empty), (false, false));
}

#[test]
fn toggle_selection_cascades() {
    let mut d = dir("d", vec![file("d/a"), dir("d/s", vec![file("d/s/b")])]);
    toggle_selection(&mut d, true);
    assert_eq!(dump(std::slice::from_ref(&d)), vec!["d d true", "d/a f true", "d/s d true", "d/s/b f true"]);
    FileTreeApp::toggle_selection(&mut d, false);
    assert!(dump(std::slice::from_ref(&d)).iter().all(|l| l.ends_with("false")));
}

#[test]
fn update_selection_reports_any_selected() {
    let mut files = sample();
    assert!(!update_selection_recursive(&mut files, &path("docs"), None));
    assert!(update_selection_recursive(&mut files, &path("docs"), Some(true)));
    assert_eq!(selected(&files), vec!["docs/guide.md"]);
    assert!(!update_selection_recursive(&mut files, &path("docs/guide.md"), Some(false)));
}

#[test]
fn restoring_collected_selection_changes_nothing() {
    let mut files = sample();
    toggle_path(&mut files, &path("src/main.rs"), true);
    toggle_path(&mut files, &path("README.md"), true);
    let before = dump(&files);
    let saved = collect_selected_paths(&files);
    apply_saved_state(&mut files, &saved);
    assert_eq!(dump(&files), before);
    let again = FileTreeApp::collect_selected_paths(&files);
    FileTreeApp::apply_saved_state(&mut files, &again);
    assert_eq!(dump(&files), before);
}

#[test]
fn apply_saved_state_clears_unlisted_files() {
    let mut files = sample();
    toggle_path(&mut files, &path("README.md"), true);
    apply_saved_state(&mut files, &vec![path("docs/guide.md")]);
    assert_eq!(selected(&files), vec!["docs/guide.md"]);
}

#[test]
fn method_add_to_parent_inserts() {
    let mut files = Vec::new();
    assert!(FileTreeApp::add_to_parent(&mut files, &path(""), file("x")));
    assert_eq!(dump(&files), vec!["x f false"]);
}
