//! The boundary to the `regex` crate.  Compiled regular expressions are
//! opaque here: contracts speak of the pattern a value was compiled from and
//! of an uninterpreted matching relation between pattern and haystack, both
//! pinned to the crate's behaviour by the two wrappers below.

use vstd::prelude::*;

use regex::Regex;

verus! {

#[verifier::external_type_specification]
#[verifier::external_body]
pub struct ExRegex(Regex);

/// The pattern string a compiled regular expression was built from: what
/// `Regex::as_str` would hand back.
pub uninterp spec fn regex_pattern_of(re: Regex) -> Seq<char>;

/// Whether the regular expression denoted by `pattern` matches somewhere in
/// `text`.  Matching depends only on the two strings, so the relation is a
/// function of them.
pub uninterp spec fn regex_match_of(pattern: Seq<char>, text: Seq<char>) -> bool;

/// Whether `pattern` is a well-formed regular expression that the compiler
/// accepts.  Compilation with the default configuration depends on the
/// pattern alone, so acceptance is a function of it.
pub uninterp spec fn regex_compiles(pattern: Seq<char>) -> bool;

/// Relies on `regex::Regex::new`: whether a pattern compiles is decided by
/// the pattern alone, and a successfully compiled regex is the one denoted
/// by the pattern handed in, which `Regex::as_str` preserves verbatim.  A
/// malformed pattern is reported with the compiler's message.
#[verifier::external_body]
pub(crate) fn regex_new(pattern: &str) -> (r: Result<Regex, String>)
    ensures
        r is Ok <==> regex_compiles(pattern@),
        r matches Ok(re) ==> regex_pattern_of(re) == pattern@,
{
    match Regex::new(pattern) {
        Ok(re) => Ok(re),
        Err(e) => Err(e.to_string()),
    }
}

/// Relies on `regex::Regex::is_match`: whether a match exists anywhere in
/// the haystack is a function of the compiled pattern and the haystack
/// alone.
#[verifier::external_body]
pub(crate) fn regex_is_match(re: &Regex, text: &str) -> (b: bool)
    ensures
        b == regex_match_of(regex_pattern_of(*re), text@),
{
    re.is_match(text)
}

} // verus!
