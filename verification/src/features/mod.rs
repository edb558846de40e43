//! One module per editor feature; each is a function of the document text,
//! its analysis and the configuration, independent of any transport.

pub mod tables;
pub mod lists;
pub mod formatting;
pub mod folding;
pub mod diagnostics;
pub mod navigation;
pub mod completion;
pub mod snippets;
pub mod symbols;
pub mod document_link;
pub mod hover;
