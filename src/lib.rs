//! Core logic of a modal text editor: a line-indexed text buffer with undo
//! history, a shell-like command grammar, and the bookkeeping of a
//! language-server client.

pub mod text;
pub mod position;
pub mod undo;
pub mod buffer;
pub mod word_database;
pub mod command;
pub mod builtins;
pub mod lsp;
pub mod editor_utils;
pub mod platform;
pub mod editor;
