//! Matching a text against a regular expression.

use vstd::prelude::*;

verus! {

/// What a search for `pattern` in `text` captures: `None` where `pattern` is
/// no regular expression or matches nowhere in `text`; else one entry for
/// each capture group of the leftmost match, the whole match first and the
/// groups after it in the order of their opening parentheses. An entry is the
/// text that its group matched, or `None` for a group that took no part.
pub uninterp spec fn regex_captures(pattern: Seq<char>, text: Seq<char>) -> Option<
    Seq<Option<Seq<char>>>,
>;

/// Compiles `pattern` with `regex::Regex::new`, searches `text` with
/// `Regex::captures` and copies out what `Captures::iter` yields. The result
/// is a function of the two texts and is known here by its name only: what a
/// given pattern captures in a given text is not stated.
#[verifier::external_body]
pub(crate) fn captures(pattern: &str, text: &str) -> (groups: Option<Vec<Option<String>>>)
    ensures
        groups.deep_view() == regex_captures(pattern@, text@),
{
    match regex::Regex::new(pattern) {
        Ok(re) => re.captures(text).map(
            |found| found.iter().map(|group| group.map(|m| m.as_str().to_owned())).collect(),
        ),
        Err(_) => None,
    }
}

} // verus!
