//! A configurable Markdown language-server library: document analysis,
//! formatting (tables, lists, reference links), link classification and the
//! editor-independent logic behind completion, navigation and diagnostics.

pub mod analysis;
pub mod cli;
pub mod clipboard;
pub mod config;
pub mod document;
pub mod edits;
pub mod encoding;
pub mod features;
pub mod fuzzy;
pub mod journal;
pub mod json;
pub mod lemmas;
pub mod mdast;
pub mod offsets;
pub mod rope;
pub mod lines;
pub mod links;
pub mod text;
pub mod uri;
