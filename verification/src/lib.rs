//! Verified core of `mdp`, a previewer that turns a directory of markdown files into a book.

pub mod chapter;
pub mod chapter_laws;
pub mod commands;
pub mod config;
pub mod data_uri;
pub mod json;
pub mod link;
pub mod list_laws;
pub mod named;
pub mod number;
pub mod order;
pub mod os_path;
pub mod preset;
pub mod summary;
pub mod text;
pub mod theme;
pub mod title;
pub mod toml_text;
pub mod tree_laws;
pub mod utf8;
pub mod walk;
pub mod walk_laws;
