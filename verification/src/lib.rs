//! Extraction of readable chapter content from EPUB books.
//!
//! The pipeline flattens a table-of-contents tree into resource records,
//! classifies each record as a candidate chapter or ignorable front/end
//! matter with configurable regular-expression ignore lists, collapses
//! records that point at the same document through different in-page
//! anchors, and reduces each candidate's XHTML markup to an ordered list
//! of text spans with an optional leading header.

pub mod book;
pub mod cat;
pub mod chapter;
pub mod error;
pub mod extract;
pub mod find;
pub mod patterns;
pub mod meta;
pub mod text;
pub mod xml;
