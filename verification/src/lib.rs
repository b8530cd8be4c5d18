//! A side-by-side diff viewer's core: line tables, alignment of old and new
//! file contents, word-level change spans, the directory tree model, the
//! folded display of a diff and the application's state machine.

pub mod changes;
pub mod strs;
pub mod status;
pub mod paths;
pub mod lines;
pub mod similarity;
pub mod align;
pub mod inline;
pub mod text;
pub mod tree;
pub mod highlight;
pub mod config;
pub mod state;
pub mod keys;
pub mod task;
pub mod app;
pub mod update;
pub mod walker;
pub mod layout;
pub mod results;
pub mod search;
