//! Regular expressions, matched by the regex crate.

use vstd::prelude::*;

verus! {

/// What the regex crate finds of `pattern` in `text`: the successive matches
/// that do not overlap, each as the text it matched; `None` where the crate
/// does not take `pattern` for a regular expression.
pub uninterp spec fn regex_find_all(pattern: Seq<char>, text: Seq<char>) -> Option<Seq<Seq<char>>>;

/// Compiles `pattern` with `Regex::new` and collects what `Regex::find_iter`
/// yields on `text`.
///
/// The contract gives the outcome its name and claims no more: what comes
/// back is `regex_find_all` of the two texts.
#[verifier::external_body]
pub(crate) fn find_all(pattern: &str, text: &str) -> (r: Option<Vec<String>>)
    ensures
        r is Some == regex_find_all(pattern@, text@) is Some,
        r matches Some(found) ==> Some(found.deep_view()) == regex_find_all(pattern@, text@),
{
    match regex::Regex::new(pattern) {
        Ok(re) => Some(re.find_iter(text).map(|m| m.as_str().to_string()).collect()),
        Err(_) => None,
    }
}

/// Whether the regex crate finds `pattern` somewhere in `text`; `None` where
/// the crate does not take `pattern` for a regular expression.
pub uninterp spec fn regex_is_match(pattern: Seq<char>, text: Seq<char>) -> Option<bool>;

/// Compiles `pattern` with `Regex::new` and asks `Regex::is_match` of
/// `text`.
///
/// The contract gives the outcome its name and claims no more: what comes
/// back is `regex_is_match` of the two texts.
#[verifier::external_body]
pub(crate) fn is_match(pattern: &str, text: &str) -> (r: Option<bool>)
    ensures
        r == regex_is_match(pattern@, text@),
{
    match regex::Regex::new(pattern) {
        Ok(re) => Some(re.is_match(text)),
        Err(_) => None,
    }
}

/// The groups that the regex crate captures where it first finds `pattern`
/// in `text`: the text of each group, the whole match first, `None` for a
/// group that took no part. The inner `None` stands for no match, the outer
/// for a pattern that the crate does not take for a regular expression.
pub uninterp spec fn regex_captures(pattern: Seq<char>, text: Seq<char>) -> Option<
    Option<Seq<Option<Seq<char>>>>,
>;

/// Compiles `pattern` with `Regex::new`, asks `Regex::captures` of `text`
/// and copies the text of each group.
///
/// The contract gives the outcome its name and claims no more: what comes
/// back is `regex_captures` of the two texts.
#[verifier::external_body]
pub(crate) fn captures(pattern: &str, text: &str) -> (r: Option<Option<Vec<Option<String>>>>)
    ensures
        r.deep_view() == regex_captures(pattern@, text@),
{
    match regex::Regex::new(pattern) {
        Ok(re) => Some(
            re.captures(text).map(
                |groups| groups.iter().map(|g| g.map(|m| m.as_str().to_string())).collect(),
            ),
        ),
        Err(_) => None,
    }
}

} // verus!
