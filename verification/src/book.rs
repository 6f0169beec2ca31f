//! A whole extracted book in the early flat representation: chapters plus
//! the book-level metadata table.

use vstd::prelude::*;

use crate::meta::MetaVar;

verus! {

/// A chapter keyed by the resource it was read from.
#[derive(Debug, Clone)]
pub struct Chapter {
    pub res: String,
    pub header: String,
    pub spans: Vec<String>,
}

impl Default for Chapter {
    fn default() -> (r: Self)
        ensures
            r.res@ == Seq::<char>::empty(),
            r.header@ == Seq::<char>::empty(),
            r.spans@ == Seq::<String>::empty(),
    {
        Self { res: String::new(), header: String::new(), spans: Vec::new() }
    }
}

impl Chapter {
    /// The same chapter, re-keyed to the resource `res`.
    pub fn with_res(self, res: &str) -> (r: Self)
        ensures
            r.res@ == res@,
            r.header == self.header,
            r.spans == self.spans,
    {
        Self { res: res.to_owned(), ..self }
    }
}

/// Chapters and metadata of one book.
#[derive(Debug)]
pub struct Book {
    pub chapters: Vec<Chapter>,
    pub meta: Vec<(String, MetaVar)>,
}

} // verus!
