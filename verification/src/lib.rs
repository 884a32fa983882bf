//! A filter for unified-diff text that suppresses "noise" hunks: changed
//! blocks whose removed and added lines differ only by a fixed table of
//! mechanical substitutions plus whitespace and comment reflow.
//!
//! The pipeline is: raw text -> parsed tree (`parse`) -> filtered tree
//! (`filter`) -> re-serialized text (`render`).

pub mod filter;
pub mod lines;
pub mod parse;
pub mod render;
pub mod rules;
pub mod text;
pub mod tree;

pub use filter::process_changed_block;
pub use filter::process_file_diffs;
pub use parse::parse_file_diffs;
pub use render::render_file_diffs;
pub use rules::apply_replacements;

pub use tree::Changed;
pub use tree::Chunk;
pub use tree::ChunkBlock;
pub use tree::DiffLine;
pub use tree::FileDiff;
pub use tree::ParseError;
