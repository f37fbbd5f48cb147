//! The boundary to the `regex` crate: the types it hands out, and the calls
//! whose results the scanner builds on. Nothing in this file is proved; each
//! contract restates what the crate documents.

use vstd::prelude::*;
use crate::span::{Span, span_in_text};

verus! {

/// A compiled pattern of the `regex` crate, carried as an opaque value.
#[verifier::external_type_specification]
#[verifier::external_body]
pub struct ExRegex(regex::Regex);

/// The error with which the `regex` crate rejects a pattern.
#[verifier::external_type_specification]
#[verifier::external_body]
pub struct ExError(regex::Error);

/// Whether `regex::Regex::new` accepts `pattern`.
pub uninterp spec fn pattern_compiles(pattern: Seq<char>) -> bool;

/// The pattern text that `regex::Regex::as_str` gives for `re`.
pub uninterp spec fn regex_source(re: regex::Regex) -> Seq<char>;

/// The spans of the matches that `regex::Regex::find_iter` yields for `re`
/// over `text`, in the order in which it yields them.
pub uninterp spec fn regex_spans(re: regex::Regex, text: Seq<char>) -> Seq<Span>;

/// Calls `regex::Regex::new`. It succeeds exactly on the patterns that
/// [`pattern_compiles`] names, and the regex that it returns keeps the
/// pattern text it was compiled from.
#[verifier::external_body]
pub(crate) fn compile(pattern: &str) -> (compiled: Result<regex::Regex, regex::Error>)
    ensures
        compiled is Ok <==> pattern_compiles(pattern@),
        compiled matches Ok(re) ==> regex_source(re) == pattern@,
{
    regex::Regex::new(pattern)
}

/// Calls `regex::Regex::find_iter` and keeps the byte offsets of each match.
/// The matches are those that [`regex_spans`] names. Each has its start at or
/// before its end, lies within `text`, and begins and ends on a character
/// boundary of `text`.
#[verifier::external_body]
pub(crate) fn find_spans(re: &regex::Regex, text: &str) -> (spans: Vec<Span>)
    ensures
        spans@ == regex_spans(*re, text@),
        forall|k: int| 0 <= k < spans@.len() ==> span_in_text(#[trigger] spans@[k], text@),
{
    re.find_iter(text).map(|m| Span { start: m.start(), end: m.end() }).collect()
}

/// Calls the `Display` impl of `regex::Error` for the message of `err`.
#[verifier::external_body]
pub(crate) fn describe(err: &regex::Error) -> (message: String) {
    err.to_string()
}

} // verus!
