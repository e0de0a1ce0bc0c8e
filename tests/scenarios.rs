use ai_content::app::FileTreeApp;
use ai_content::entry::FileEntry;
use ai_content::path::EntryPath;
use ai_content::selection::{collect_selected_paths, has_selected_and_not_selected, is_fully_selected, lookup};

fn path(text: &str) -> EntryPath {
    EntryPath::parse(text)
}

fn file(text: &str) -> FileEntry {
    FileEntry { path: path(text), is_dir: false, children: vec![], selected: false }
}

fn dir(text: &str, children: Vec<FileEntry>) -> FileEntry {
    FileEntry { path: path(text), is_dir: true, children, selected: false }
}

fn names(files: &[FileEntry]) -> Vec<String> {
    files.iter().map(|f| f.path.to_text()).collect()
}

fn selected_texts(app: &FileTreeApp) -> Vec<String> {
    collect_selected_paths(&app.files).iter().map(|p| p.to_text()).collect()
}

/// Post-order stream of a walk of: a/ (dir), a/x.txt, b.txt.
fn scanned() -> FileTreeApp {
    let mut app = FileTreeApp::new("/root".to_string());
    let g = app.start_scan();
    app.receive(g, file("a/x.txt"));
    app.receive(g, dir("a", vec![file("a/x.txt")]));
    app.receive(g, file("b.txt"));
    app
}

#[test]
fn scenario_full_scan_orders_top_level() {
    let app = scanned();
    assert_eq!(names(&app.files), vec!["a", "b.txt"]);
    assert_eq!(names(&app.files[0].children), vec!["a/x.txt"]);
}

#[test]
fn scenario_toggle_directory_selects_its_files() {
    let mut app = scanned();
    app.toggle(&path("a"), true);
    assert_eq!(selected_texts(&app), vec!["a/x.txt"]);
    let a = lookup(&app.files, &path("a")).unwrap();
    assert!(is_fully_selected(a));
}

#[test]
fn scenario_mixed_directory_is_partial() {
    let mut app = scanned();
    app.toggle(&path("a/x.txt"), true);
    let g = app.generation;
    assert!(app.receive(g, file("a/y.txt")));
    let a = lookup(&app.files, &path("a")).unwrap();
    assert!(has_selected_and_not_selected(a));
    assert!(FileTreeApp::contains_mixed_selection(a));
    assert!(!is_fully_selected(a));
}

#[test]
fn scenario_restore_ignores_missing_paths() {
    let mut app = scanned();
    let read = app.restore_selection("[\"a/x.txt\", \"z/missing.txt\"]");
    assert!(read);
    assert_eq!(selected_texts(&app), vec!["a/x.txt"]);
    let b = lookup(&app.files, &path("b.txt")).unwrap();
    assert!(!b.selected);
}

#[test]
fn scenario_embedded_and_streamed_child_kept_once() {
    let mut app = FileTreeApp::new("/root".to_string());
    let g = app.start_scan();
    assert!(app.receive(g, dir("a", vec![file("a/x.txt")])));
    assert!(app.receive(g, file("a/x.txt")));
    assert_eq!(app.files.len(), 1);
    assert_eq!(names(&app.files[0].children), vec!["a/x.txt"]);
}

#[test]
fn stale_generation_is_dropped() {
    let mut app = FileTreeApp::new("/root".to_string());
    let old = app.start_scan();
    let now = app.start_scan();
    assert_ne!(old, now);
    assert!(!app.receive(old, file("b.txt")));
    assert!(app.files.is_empty());
    assert!(app.receive(now, file("b.txt")));
    assert_eq!(names(&app.files), vec!["b.txt"]);
}

#[test]
fn unreadable_saved_text_clears_selection() {
    let mut app = scanned();
    app.toggle(&path("b.txt"), true);
    assert!(!app.restore_selection("not json"));
    assert!(selected_texts(&app).is_empty());
}

#[test]
fn save_config_lists_selected_files() {
    let mut app = scanned();
    app.toggle(&path("a"), true);
    app.toggle(&path("b.txt"), true);
    assert_eq!(app.save_config(), "[\"a/x.txt\",\"b.txt\"]");
}

#[test]
fn saved_selection_round_trips() {
    let mut app = scanned();
    app.toggle(&path("a/x.txt"), true);
    let text = app.save_config();
    let mut fresh = scanned();
    assert!(fresh.restore_selection(&text));
    assert_eq!(selected_texts(&fresh), vec!["a/x.txt"]);
}
