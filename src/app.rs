use vstd::prelude::*;
use core::cmp::Ordering;
use crate::path::{EntryPath, is_parent_path};
use crate::entry::{FileEntry, list_view, entry_cmp, wf_tree};
use crate::tree::{inserted, insert_found, add_to_parent};
use crate::selection::{
    toggle_list, apply_list, collect_list, set_all, paths_view, node_has, partially_selected,
};
use crate::selection_lemmas::{lemma_toggle_wf, lemma_apply_wf};
use crate::config::{
    LanguageMap, get_supported_extensions, builtin_languages, json_of_strings, strings_of_json,
    texts_of_paths, paths_of_texts, load_config, total_size,
};

verus! {

/// The tree of one scan root, its selection, and the scan it is filled from.
pub struct FileTreeApp {
    pub files: Vec<FileEntry>,
    pub base_dir: String,
    pub supported_extensions: LanguageMap,
    /// The scan whose entries are accepted; entries of any other are stale.
    pub generation: u64,
}

impl FileTreeApp {
    /// The tree is well formed.
    pub open spec fn wf(&self) -> bool {
        wf_tree(list_view(self.files@))
    }

    /// An empty tree for the scan root `base_dir`, with the built-in
    /// language tags, before any scan.
    pub fn new(base_dir: String) -> (r: Self)
        ensures
            r.wf(),
            r.files@.len() == 0,
            r.base_dir@ == base_dir@,
            r.generation == 0,
            r.supported_extensions@ == builtin_languages(),
            r.supported_extensions.wf(),
    {
        let r = FileTreeApp {
            files: Vec::new(),
            base_dir,
            supported_extensions: get_supported_extensions(),
            generation: 0,
        };
        assert(list_view(r.files@) =~= Seq::empty());
        r
    }

    /// Starts a new scan: the tree is emptied and the generation moves on, so
    /// that entries of an earlier scan are no longer accepted. Returns the new
    /// generation.
    pub fn start_scan(&mut self) -> (g: u64)
        ensures
            final(self).wf(),
            final(self).files@.len() == 0,
            g == final(self).generation,
            g == (old(self).generation + 1) % 0x1_0000_0000_0000_0000,
            g != old(self).generation,
            final(self).base_dir == old(self).base_dir,
            final(self).supported_extensions == old(self).supported_extensions,
    {
        self.files = Vec::new();
        assert(list_view(self.files@) =~= Seq::empty());
        self.generation = self.generation.wrapping_add(1);
        self.generation
    }

    /// Takes in one entry of the scan `generation`: where that is the current
    /// scan, the entry is inserted below its parent directory; an entry of
    /// another scan, or with the empty path, is dropped. Returns whether the
    /// entry found its place.
    pub fn receive(&mut self, generation: u64, entry: FileEntry) -> (r: bool)
        requires
            old(self).wf(),
        ensures
            final(self).wf(),
            final(self).generation == old(self).generation,
            final(self).base_dir == old(self).base_dir,
            final(self).supported_extensions == old(self).supported_extensions,
            r == (generation == old(self).generation && insert_found(list_view(old(self).files@), entry@)),
            list_view(final(self).files@) == if generation == old(self).generation {
                inserted(list_view(old(self).files@), entry@)
            } else {
                list_view(old(self).files@)
            },
    {
        if generation != self.generation {
            return false;
        }
        match entry.path.parent() {
            Some(parent) => add_to_parent(&mut self.files, &parent, entry),
            None => false,
        }
    }

    /// Applies a toggle from the user: every entry with path `path` gets
    /// `value` throughout its subtree.
    pub fn toggle(&mut self, path: &EntryPath, value: bool)
        requires
            old(self).wf(),
        ensures
            final(self).wf(),
            final(self).generation == old(self).generation,
            final(self).base_dir == old(self).base_dir,
            final(self).supported_extensions == old(self).supported_extensions,
            list_view(final(self).files@) == toggle_list(list_view(old(self).files@), path@, value),
    {
        crate::selection::toggle_path(&mut self.files, path, value);
        proof {
            lemma_toggle_wf(list_view(old(self).files@), path@, value);
        }
    }

    /// Restores the selection kept in the text `saved`; where the text cannot
    /// be read, nothing was saved and no file stays selected. Returns whether
    /// the text was read.
    pub fn restore_selection(&mut self, saved: &str) -> (r: bool)
        requires
            old(self).wf(),
        ensures
            final(self).wf(),
            final(self).generation == old(self).generation,
            final(self).base_dir == old(self).base_dir,
            final(self).supported_extensions == old(self).supported_extensions,
            r == (strings_of_json(saved@) is Some),
            list_view(final(self).files@) == apply_list(
                list_view(old(self).files@),
                match strings_of_json(saved@) {
                    Some(ts) => paths_of_texts(ts),
                    None => Seq::empty(),
                },
            ),
    {
        let (paths, r) = match load_config(saved) {
            Ok(v) => (v, true),
            Err(_) => (Vec::new(), false),
        };
        proof {
            if !r {
                assert(paths_view(paths@) =~= Seq::empty());
            }
        }
        crate::selection::apply_saved_state(&mut self.files, &paths);
        proof {
            lemma_apply_wf(list_view(old(self).files@), paths_view(paths@));
        }
        r
    }

    /// The text that keeps the current selection (see
    /// [`crate::config::save_config`]).
    pub fn save_config(&self) -> (r: String)
        ensures
            r@ == json_of_strings(texts_of_paths(collect_list(list_view(self.files@)))),
    {
        crate::config::save_config(&self.files)
    }

    /// The total size in bytes of the selected files, from `sizes`, the size
    /// of each file that `collect_selected_paths` lists, in that order (`None`
    /// for one that could not be read); `None` where the total does not fit in
    /// a `u64`.
    pub fn calculate_selected_files_size(&self, sizes: &Vec<Option<u64>>) -> (r: Option<u64>)
        ensures
            match r {
                Some(t) => t == total_size(sizes@),
                None => total_size(sizes@) > u64::MAX,
            },
    {
        crate::config::calculate_selected_files_size(sizes)
    }

    /// Inserts `file_entry` below `parent_path` (see [`crate::tree::add_to_parent`]).
    pub fn add_to_parent(files: &mut Vec<FileEntry>, parent_path: &EntryPath, file_entry: FileEntry) -> (r: bool)
        requires
            wf_tree(list_view(old(files)@)),
        ensures
            wf_tree(list_view(final(files)@)),
            r == (is_parent_path(parent_path@, file_entry@.path) && insert_found(list_view(old(files)@), file_entry@)),
            list_view(final(files)@) == if is_parent_path(parent_path@, file_entry@.path) {
                inserted(list_view(old(files)@), file_entry@)
            } else {
                list_view(old(files)@)
            },
    {
        add_to_parent(files, parent_path, file_entry)
    }

    /// Orders two entries: directories first, then by path.
    pub fn compare_entries(a: &FileEntry, b: &FileEntry) -> (r: Ordering)
        ensures
            r == entry_cmp(a@, b@),
    {
        crate::entry::compare_entries(a, b)
    }

    /// Sets `selected` on `file` and on every entry below it.
    pub fn toggle_selection(file: &mut FileEntry, selected: bool)
        ensures
            final(file)@ == set_all(old(file)@, selected),
    {
        crate::selection::toggle_selection(file, selected)
    }

    /// The paths of all selected files, in depth-first order.
    pub fn collect_selected_paths(files: &Vec<FileEntry>) -> (r: Vec<EntryPath>)
        ensures
            paths_view(r@) == collect_list(list_view(files@)),
    {
        crate::selection::collect_selected_paths(files)
    }

    /// Selects exactly the files whose paths are in `selected_paths`.
    pub fn apply_saved_state(files: &mut Vec<FileEntry>, selected_paths: &Vec<EntryPath>)
        ensures
            list_view(final(files)@) == apply_list(list_view(old(files)@), paths_view(selected_paths@)),
    {
        crate::selection::apply_saved_state(files, selected_paths)
    }

    /// Whether `file` is a directory with both selected and unselected files
    /// below it.
    pub fn contains_mixed_selection(file: &FileEntry) -> (r: bool)
        ensures
            r == partially_selected(file@),
    {
        crate::selection::contains_mixed_selection(file)
    }

    /// Whether some file below `file` (or `file` itself) is selected, and
    /// whether some such file is not.
    pub fn check_selection(file: &FileEntry) -> (r: (bool, bool))
        ensures
            r == (node_has(file@, true), node_has(file@, false)),
    {
        crate::selection::check_selection(file)
    }
}

} // verus!
