//! Settings for batch discovery of ebook files, and the path predicate the
//! walker uses to skip hidden directories.  The walk itself touches the
//! filesystem and lives with the callers of this library.

use vstd::prelude::*;

use crate::text::{after_last, after_last_str};

verus! {

/// Configuration for walking a directory tree in search of ebook files.
#[derive(Debug, Clone)]
pub struct EbookFinderConfig {
    /// Descend recursively into subdirectories.
    pub is_recursive: bool,
    /// Ignore hidden files.
    pub ignore_hidden: bool,
}

impl Default for EbookFinderConfig {
    /// By default the walk descends recursively and skips hidden entries.
    fn default() -> (r: Self)
        ensures
            r.is_recursive,
            r.ignore_hidden,
    {
        Self { is_recursive: true, ignore_hidden: true }
    }
}

/// The final path segment of `path` names a hidden entry: it starts with a
/// dot.
pub open spec fn is_hidden_spec(path: Seq<char>) -> bool {
    let name = after_last(path, '/');
    name.len() > 0 && name[0] == '.'
}

/// Check if a directory is hidden.
pub fn is_hidden_dir(path: &String) -> (b: bool)
    ensures
        b == is_hidden_spec(path@),
{
    let name = after_last_str(path.as_str(), '/');
    if name.unicode_len() == 0 {
        false
    } else {
        name.as_str().get_char(0) == '.'
    }
}

} // verus!
