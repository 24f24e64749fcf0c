//! Discovers the source files of a project and renders them into one
//! Markdown document: a table of contents, a directory tree and one fenced
//! block per file.
pub mod text;
pub mod markdown;
pub mod types;
pub mod tree;
pub mod collector;
pub mod cli;
