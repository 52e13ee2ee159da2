//! Regular expressions.
use vstd::prelude::*;
use vstd::utf8::*;

verus! {

#[verifier::external_type_specification]
#[verifier::external_body]
pub struct ExRegex(regex::Regex);

#[verifier::external_type_specification]
#[verifier::external_body]
pub struct ExRegexError(regex::Error);

/// The case-insensitive regular expression that a pattern stands for, `None` if
/// `RegexBuilder::build` refuses the pattern.
pub uninterp spec fn pattern_regex(pattern: Seq<char>) -> Option<regex::Regex>;

/// The matches of a regular expression in a text, from left to right, as byte ranges: what
/// `Regex::find_iter` yields.
pub uninterp spec fn regex_spans(re: regex::Regex, text: Seq<char>) -> Seq<(usize, usize)>;

/// Calls `RegexBuilder::new`, `case_insensitive(true)` and `build`, whose outcome is a
/// function of the pattern alone.
#[verifier::external_body]
pub(crate) fn compile_pattern(pattern: &str) -> (r: Result<regex::Regex, regex::Error>)
    ensures
        match r {
            Ok(re) => pattern_regex(pattern@) == Some(re),
            Err(_) => pattern_regex(pattern@) is None,
        },
{
    regex::RegexBuilder::new(pattern).case_insensitive(true).build()
}

/// Whether byte ranges lie within a text of `n` bytes, with no start behind an end.
pub open spec fn spans_within(spans: Seq<(usize, usize)>, n: nat) -> bool {
    forall|i: int|
        0 <= i < spans.len() ==> (#[trigger] spans[i]).0 <= spans[i].1 && spans[i].1 <= n
}

/// Calls `Regex::find_iter` and collects the ranges of the matches. They are a function of
/// the expression and the text, and lie within the text.
#[verifier::external_body]
pub(crate) fn find_spans(re: &regex::Regex, text: &str) -> (r: Vec<(usize, usize)>)
    ensures
        r@ == regex_spans(*re, text@),
        spans_within(r@, encode_utf8(text@).len()),
{
    re.find_iter(text).map(|m| (m.start(), m.end())).collect()
}

} // verus!
