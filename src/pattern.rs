//! Regular-expression matching, done by the `regex` crate. What a pattern
//! matches is named here, not restated: the contracts below say how a match
//! sits in the text and that the same pattern and text give the same result.
use vstd::prelude::*;

verus! {

#[verifier::external_type_specification]
#[verifier::external_body]
pub struct ExRegexError(regex::Error);

/// Whether the `regex` crate compiles `pattern` (with its default limits).
pub uninterp spec fn regex_accepts(pattern: Seq<char>) -> bool;

/// The leftmost-first match of `pattern` in `text`, as the text before the
/// match, the matched text, and the text after it.
pub uninterp spec fn leftmost_match(pattern: Seq<char>, text: Seq<char>) -> Option<
    (Seq<char>, Seq<char>, Seq<char>),
>;

/// `text` with every non-overlapping match of `pattern` removed.
pub uninterp spec fn matches_removed(pattern: Seq<char>, text: Seq<char>) -> Seq<char>;

/// Relies on `regex::Regex::new`: whether it succeeds depends on the pattern
/// alone.
#[verifier::external_body]
pub(crate) fn check_pattern(pattern: &str) -> (r: Result<(), regex::Error>)
    ensures
        r is Ok <==> regex_accepts(pattern@),
{
    regex::Regex::new(pattern).map(|_| ())
}

/// Relies on the `Display` text of `regex::Error`, to report why a pattern
/// was refused.
#[verifier::external_body]
pub(crate) fn regex_error_text(e: &regex::Error) -> (r: String) {
    e.to_string()
}

/// Relies on `regex::Regex::find` (on the pattern compiled by
/// `regex::Regex::new`): the match is a span of the text, cut out of it at
/// the byte offsets `Match::start` and `Match::end`.
#[verifier::external_body]
pub(crate) fn find_first(pattern: &str, text: &str) -> (r: Option<(String, String, String)>)
    requires
        regex_accepts(pattern@),
    ensures
        match r {
            Some((before, found, after)) => {
                &&& leftmost_match(pattern@, text@) == Some((before@, found@, after@))
                &&& before@ + found@ + after@ == text@
            },
            None => leftmost_match(pattern@, text@) is None,
        },
{
    let re = regex::Regex::new(pattern).unwrap();
    re.find(text).map(
        |m| (text[..m.start()].to_string(), m.as_str().to_string(), text[m.end()..].to_string()),
    )
}

/// Relies on `regex::Regex::replace_all` with an empty replacement (on the
/// pattern compiled by `regex::Regex::new`): the result depends on the
/// pattern and the text alone. `replacen` keeps the text between the matches
/// and drops the matches, so the result is never longer; where nothing
/// matches (`find` gives nothing) the text comes back unchanged, and where
/// the first match (the one `find` gives) is not empty the text shrinks.
#[verifier::external_body]
pub(crate) fn remove_matches(pattern: &str, text: &str) -> (r: String)
    requires
        regex_accepts(pattern@),
    ensures
        r@ == matches_removed(pattern@, text@),
        r@.len() <= text@.len(),
        match leftmost_match(pattern@, text@) {
            Some((_, found, _)) => found.len() > 0 ==> r@.len() < text@.len(),
            None => r@ == text@,
        },
{
    let re = regex::Regex::new(pattern).unwrap();
    re.replace_all(text, "").to_string()
}

} // verus!
