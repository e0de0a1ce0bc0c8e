//! The tree of a scanned directory and its file selection: paths and their
//! order (`path`), entries (`entry`), insertion as entries stream in from a
//! scan (`tree`), selection with derived directory state (`selection`, with
//! its laws in `selection_lemmas`), where the selection is kept (`config`),
//! the state of one scan root (`app`) and the exported text (`export`).

pub mod path;
pub mod entry;
pub mod tree;
pub mod selection;
pub mod selection_lemmas;
pub mod config;
pub mod app;
pub mod export;
