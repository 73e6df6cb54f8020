//! Regular expressions, as the `regex` crate matches them.

use vstd::prelude::*;

verus! {

/// The error with which `regex` refuses a pattern.
#[verifier::external_type_specification]
#[verifier::external_body]
pub struct ExRegexError(regex::Error);

/// Whether `Regex::new` accepts `pattern`.
pub uninterp spec fn pattern_compiles(pattern: Seq<char>) -> bool;

/// What the first capture group of `pattern` holds at the leftmost
/// match of `pattern` in `text`; `None` where `pattern` does not match
/// or the group takes no part in the match.
pub uninterp spec fn first_group(pattern: Seq<char>, text: Seq<char>) -> Option<Seq<char>>;

/// `text` with each match of `pattern` replaced by `replacement`, as
/// `Regex::replace_all` with a string as the replacement does it.
pub uninterp spec fn replaced_all(pattern: Seq<char>, text: Seq<char>, replacement: Seq<char>) -> Seq<
    char,
>;

/// The text that an optional string holds.
pub open spec fn text_of(found: Option<String>) -> Option<Seq<char>> {
    match found {
        Some(text) => Some(text@),
        None => None,
    }
}

/// `Regex::new`, then `Regex::captures` and `Captures::get(1)`.
///
/// Claimed of them: whether a pattern compiles, and what its first
/// group holds at the leftmost match, depend on the pattern and the
/// text alone. The result is the error of `Regex::new` where the
/// pattern does not compile, and else the text of the first group, if
/// the pattern matches and the group takes part.
#[verifier::external_body]
pub(crate) fn capture_first_group(pattern: &str, text: &str) -> (found: Result<
    Option<String>,
    regex::Error,
>)
    ensures
        found is Ok <==> pattern_compiles(pattern@),
        found matches Ok(group) ==> text_of(group) == first_group(pattern@, text@),
{
    let compiled = regex::Regex::new(pattern)?;
    Ok(compiled.captures(text).and_then(|groups| groups.get(1)).map(|group| group.as_str().to_string()))
}

/// `Regex::new`, then `Regex::replace_all`.
///
/// Claimed of them: whether a pattern compiles, and the text after the
/// replacement, depend on the pattern, the text and the replacement
/// alone. The result is the error of `Regex::new` where the pattern
/// does not compile, and else the text after the replacement.
#[verifier::external_body]
pub(crate) fn replace_each_match(pattern: &str, text: &str, replacement: &str) -> (replaced: Result<
    String,
    regex::Error,
>)
    ensures
        replaced is Ok <==> pattern_compiles(pattern@),
        replaced matches Ok(after) ==> after@ == replaced_all(pattern@, text@, replacement@),
{
    let compiled = regex::Regex::new(pattern)?;
    Ok(compiled.replace_all(text, replacement).into_owned())
}

} // verus!
