//! Failures of the extraction pipeline.  Each failure carries the path or
//! label of the resource it is attributed to, so a caller can report which
//! part of a book went wrong.

use vstd::prelude::*;

verus! {

/// What can go wrong while extracting chapters from a book.
#[derive(Debug, Clone)]
pub enum Error {
    /// A configured ignore pattern does not compile as a regular
    /// expression.  Carries the compiler's message.
    RegexError(String),
    /// A candidate chapter's bytes could not be fetched from the container.
    Resource { path: String, label: String },
    /// A document's markup could not be tokenized or decoded.
    Markup { doc: String, label: String, detail: String },
    /// Classification and deduplication left no candidate chapters.
    NoChapters,
}

} // verus!
