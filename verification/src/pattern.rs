//! Regular expressions, as the `regex` crate compiles and runs them. What a
//! search returns is not restated here: each result has a name, a function of
//! the pattern and of the text searched.
use vstd::prelude::*;

verus! {

/// `regex::Regex`, a compiled expression: carried through, never looked
/// into.
#[verifier::external_type_specification]
#[verifier::external_body]
pub struct ExRegex(regex::Regex);

/// `regex::Error`, what `Regex::new` returns for a pattern that it does not
/// accept.
#[verifier::external_type_specification]
#[verifier::external_body]
pub struct ExRegexError(regex::Error);

/// The pattern that a compiled expression was made from.
pub uninterp spec fn pattern_of(re: &regex::Regex) -> Seq<char>;

/// Whether a pattern is one that the `regex` crate accepts.
pub uninterp spec fn pattern_compiles(pattern: Seq<char>) -> bool;

/// Whether the pattern matches anywhere in the text.
pub uninterp spec fn pattern_matches(pattern: Seq<char>, text: Seq<char>) -> bool;

/// What the first capture group holds in the leftmost match of the pattern
/// in the text; `None` where nothing matches or the group took no part.
pub uninterp spec fn first_capture(pattern: Seq<char>, text: Seq<char>) -> Option<Seq<char>>;

/// The text with the leftmost match of the pattern replaced.
pub uninterp spec fn first_replaced(
    pattern: Seq<char>,
    text: Seq<char>,
    replacement: Seq<char>,
) -> Seq<char>;

/// `Regex::new`: compiles the pattern. Whether that succeeds depends on the
/// pattern alone, and the compiled expression remembers the pattern it was
/// given (`Regex::as_str`).
#[verifier::external_body]
pub(crate) fn compile(pattern: &str) -> (r: Result<regex::Regex, regex::Error>)
    ensures
        r is Ok <==> pattern_compiles(pattern@),
        r matches Ok(re) ==> pattern_of(&re) == pattern@,
{
    regex::Regex::new(pattern)
}

/// `Regex::is_match`: true if and only if the expression matches somewhere
/// in the text.
#[verifier::external_body]
pub(crate) fn is_match(re: &regex::Regex, text: &str) -> (r: bool)
    ensures
        r == pattern_matches(pattern_of(re), text@),
{
    re.is_match(text)
}

/// `Regex::captures` followed by `Captures::get(1)`: the text of the first
/// group in the leftmost match.
#[verifier::external_body]
pub(crate) fn capture_first(re: &regex::Regex, text: &str) -> (r: Option<String>)
    ensures
        r is Some <==> first_capture(pattern_of(re), text@) is Some,
        r matches Some(s) ==> s@ == first_capture(pattern_of(re), text@).unwrap(),
{
    re.captures(text).and_then(|caps| caps.get(1)).map(|m| m.as_str().to_owned())
}

/// `Regex::replace`: the text with the leftmost match replaced, or the text
/// itself where nothing matches.
#[verifier::external_body]
pub(crate) fn replace_first(re: &regex::Regex, text: &str, replacement: &str) -> (r: String)
    ensures
        r@ == first_replaced(pattern_of(re), text@, replacement@),
{
    re.replace(text, replacement).into_owned()
}

} // verus!
