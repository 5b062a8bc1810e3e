//! Line-oriented comparison of texts, large files and file trees.

pub mod align;
pub mod file;
pub mod large_file;
pub mod line_index;
pub mod results;
pub mod tree;
pub mod types;
pub mod web;
