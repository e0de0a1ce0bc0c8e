use ai_content::app::FileTreeApp;
use ai_content::export::file_extension;
use ai_content::path::is_excluded;
use ai_content::config::{
    hex_string, paths_from_texts, selected_path_texts,
    calculate_selected_files_size, get_code_block_language, get_config_file_path, get_supported_extensions,
    hash_current_dir, load_config, save_config, ConfigError,
};
use ai_content::entry::FileEntry;
use ai_content::path::EntryPath;

#[test]
fn languages_by_extension() {
    let m = get_supported_extensions();
    assert_eq!(m.entries.len(), 8);
    assert_eq!(get_code_block_language(&m, "rs"), "rust");
    assert_eq!(get_code_block_language(&m, "js"), "javascript");
    assert_eq!(get_code_block_language(&m, "md"), "markdown");
    assert_eq!(get_code_block_language(&m, "py"), "");
    assert_eq!(get_code_block_language(&m, ""), "");
}

#[test]
fn hash_of_directory_text() {
    assert_eq!(hash_current_dir(""), "e3b0c44298fc1c149afbf4c8996fb92427ae41e4649b934ca495991b7852b855");
    assert_eq!(
        hash_current_dir("/home/user/project"),
        "9dad1e4e08b0b11cbcd860257e8bdfa6b8e5f01790e10a6a0b1f4870c13e686b"
    );
}

#[test]
fn config_file_path_names_the_digest() {
    assert_eq!(
        get_config_file_path("/home/user/project"),
        "/tmp/.ai_content.9dad1e4e08b0b11cbcd860257e8bdfa6b8e5f01790e10a6a0b1f4870c13e686b.json"
    );
}

#[test]
fn load_config_reads_paths() {
    let paths = load_config("[\"a/x.txt\", \"b.txt\", \"\"]").unwrap();
    let texts: Vec<String> = paths.iter().map(|p| p.to_text()).collect();
    assert_eq!(texts, vec!["a/x.txt", "b.txt", ""]);
    assert_eq!(paths[0].segments, vec!["a".to_string(), "x.txt".to_string()]);
}

#[test]
fn load_config_refuses_other_text() {
    assert_eq!(load_config("{\"a\": 1}").err(), Some(ConfigError::Parse));
    assert_eq!(load_config("").err(), Some(ConfigError::Parse));
    assert_eq!(load_config("[1, 2]").err(), Some(ConfigError::Parse));
}

#[test]
fn save_config_of_empty_tree() {
    let files: Vec<FileEntry> = Vec::new();
    assert_eq!(save_config(&files), "[]");
}

#[test]
fn save_config_escapes_text() {
    let files = vec![FileEntry {
        path: EntryPath::parse("say \"hi\".txt"),
        is_dir: false,
        children: vec![],
        selected: true,
    }];
    assert_eq!(save_config(&files), "[\"say \\\"hi\\\".txt\"]");
}

#[test]
fn sizes_add_up() {
    assert_eq!(calculate_selected_files_size(&vec![Some(100), None, Some(924)]), Some(1024));
    assert_eq!(calculate_selected_files_size(&vec![]), Some(0));
    assert_eq!(calculate_selected_files_size(&vec![Some(u64::MAX), Some(0)]), Some(u64::MAX));
}

#[test]
fn method_sums_sizes() {
    let app = FileTreeApp::new("/root".to_string());
    assert_eq!(app.calculate_selected_files_size(&vec![Some(2048), Some(1)]), Some(2049));
    assert_eq!(app.calculate_selected_files_size(&vec![Some(u64::MAX), Some(u64::MAX)]), None);
}

#[test]
fn sizes_that_overflow() {
    assert_eq!(calculate_selected_files_size(&vec![Some(u64::MAX), Some(1)]), None);
    assert_eq!(calculate_selected_files_size(&vec![Some(u64::MAX - 1), None, Some(1), Some(1)]), None);
}

#[test]
fn version_control_entries_are_excluded() {
    assert!(is_excluded(&EntryPath::parse(".git")));
    assert!(is_excluded(&EntryPath::parse("sub/.git/HEAD")));
    assert!(!is_excluded(&EntryPath::parse(".gitignore")));
    assert!(!is_excluded(&EntryPath::parse("src/git/main.rs")));
}

#[test]
fn extensions_of_names() {
    assert_eq!(file_extension("main.rs"), "rs");
    assert_eq!(file_extension("archive.tar.gz"), "gz");
    assert_eq!(file_extension(".bashrc"), "");
    assert_eq!(file_extension("Makefile"), "");
    assert_eq!(file_extension("trailing."), "");
    assert_eq!(file_extension(""), "");
}

#[test]
fn export_text_fences_each_file() {
    let app = FileTreeApp::new("/root".to_string());
    let files = vec![
        (EntryPath::parse("src/main.rs"), "fn main() {}".to_string()),
        (EntryPath::parse("notes.txt"), "hello".to_string()),
    ];
    assert_eq!(
        app.generate_text(&files),
        "===== Start: ./src/main.rs =====\n```rust\nfn main() {}\n```\n===== End: ./src/main.rs =====\n\n\
         ===== Start: ./notes.txt =====\n```\nhello\n```\n===== End: ./notes.txt =====\n\n"
    );
    assert_eq!(app.generate_text(&vec![]), "");
}

#[test]
fn hex_of_bytes() {
    assert_eq!(hex_string(&[0x00, 0x0f, 0xab, 0xff]), "000fabff");
    assert_eq!(hex_string(&[]), "");
}

#[test]
fn texts_of_selected_paths() {
    let files = vec![
        FileEntry { path: EntryPath::parse("d"), is_dir: true, children: vec![FileEntry {
            path: EntryPath::parse("d/x.rs"),
            is_dir: false,
            children: vec![],
            selected: true,
        }], selected: true },
        FileEntry { path: EntryPath::parse("y.rs"), is_dir: false, children: vec![], selected: false },
    ];
    assert_eq!(selected_path_texts(&files), vec!["d/x.rs".to_string()]);
}

#[test]
fn paths_of_texts() {
    let paths = paths_from_texts(&vec!["a/b".to_string(), "/c/".to_string()]);
    assert_eq!(paths[0].segments, vec!["a".to_string(), "b".to_string()]);
    assert_eq!(paths[1].segments, vec!["c".to_string()]);
}
