//! Searching a text for a regular expression.

use vstd::prelude::*;

verus! {

/// Whether a pattern is a valid regular expression under the given flags.
pub uninterp spec fn regex_compiles(
    pattern: Seq<char>,
    case_insensitive: bool,
    multi_line: bool,
    dot_matches_new_line: bool,
) -> bool;

/// Whether a pattern matches somewhere in a text under the given flags; nothing
/// for a pattern that is not valid.
pub uninterp spec fn regex_search(
    pattern: Seq<char>,
    case_insensitive: bool,
    multi_line: bool,
    dot_matches_new_line: bool,
    text: Seq<char>,
) -> Option<bool>;

/// `regex::RegexBuilder::build` under three of the builder's flags. Whether it
/// succeeds depends on the pattern and the flags alone.
#[verifier::external_body]
fn compiles(
    pattern: &str,
    case_insensitive: bool,
    multi_line: bool,
    dot_matches_new_line: bool,
) -> (r: bool)
    ensures
        r == regex_compiles(pattern@, case_insensitive, multi_line, dot_matches_new_line),
{
    regex::RegexBuilder::new(pattern)
        .case_insensitive(case_insensitive)
        .multi_line(multi_line)
        .dot_matches_new_line(dot_matches_new_line)
        .build()
        .is_ok()
}

/// `regex::Regex::is_match` for the expression that a pattern and three of the
/// builder's flags give. The answer depends on these and the text alone, and is
/// there just when the pattern compiles.
#[verifier::external_body]
fn search(
    pattern: &str,
    case_insensitive: bool,
    multi_line: bool,
    dot_matches_new_line: bool,
    text: &str,
) -> (r: Option<bool>)
    ensures
        r == regex_search(pattern@, case_insensitive, multi_line, dot_matches_new_line, text@),
        r is Some <==> regex_compiles(pattern@, case_insensitive, multi_line, dot_matches_new_line),
{
    let built = regex::RegexBuilder::new(pattern)
        .case_insensitive(case_insensitive)
        .multi_line(multi_line)
        .dot_matches_new_line(dot_matches_new_line)
        .build();
    match built {
        Ok(regex) => Some(regex.is_match(text)),
        Err(_) => None,
    }
}

/// Whether a text is a valid indicator. Indicators ignore case, let `^` and `$`
/// match at every line and `.` match line breaks.
pub open spec fn valid_indicator(pattern: Seq<char>) -> bool {
    regex_compiles(pattern, true, true, true)
}

/// Whether an indicator matches somewhere in a text.
pub open spec fn indicates(pattern: Seq<char>, text: Seq<char>) -> bool {
    regex_search(pattern, true, true, true, text) == Some(true)
}

/// Whether a text is a valid indicator.
pub fn is_valid_indicator(pattern: &str) -> (r: bool)
    ensures
        r == valid_indicator(pattern@),
{
    compiles(pattern, true, true, true)
}

/// Whether an indicator matches somewhere in a text.
pub fn is_indicated(pattern: &str, text: &str) -> (r: bool)
    ensures
        r == indicates(pattern@, text@),
{
    match search(pattern, true, true, true, text) {
        Some(found) => found,
        None => false,
    }
}

/// Indicators are compiled and searched for alike: without regard to case, line
/// by line for `^` and `$`, and across line breaks for `.`.
pub proof fn law_indicators_are_lenient(pattern: Seq<char>, text: Seq<char>)
    ensures
        valid_indicator(pattern) == regex_compiles(pattern, true, true, true),
        indicates(pattern, text) == (regex_search(pattern, true, true, true, text) == Some(true)),
{
}

} // verus!
