//! The boundary to the `regex` crate. The search logic never looks inside a
//! compiled regex; it only needs that compilation succeeds exactly on the
//! patterns the crate accepts, and that matching is a fixed relation between
//! the compiled pattern and the text. Both facts are given names here and
//! assumed of the crate's entry points.
use vstd::prelude::*;

verus! {

#[verifier::external_type_specification]
#[verifier::external_body]
pub struct ExRegex(regex::Regex);

#[verifier::external_type_specification]
#[verifier::external_body]
pub struct ExRegexError(regex::Error);

/// Whether `regex::Regex::new` accepts this pattern. Compilation uses a fixed
/// default configuration, so acceptance depends on the pattern alone.
pub uninterp spec fn is_valid_regex(pattern: Seq<char>) -> bool;

/// Whether some part of `text` matches the regular expression `pattern`
/// (unanchored), as `regex::Regex::is_match` decides it.
pub uninterp spec fn regex_match(pattern: Seq<char>, text: Seq<char>) -> bool;

/// The pattern a compiled `regex::Regex` was built from.
pub uninterp spec fn compiled_pattern(re: regex::Regex) -> Seq<char>;

/// Relies on `regex::Regex::new`: deterministic in the pattern, `Ok` exactly
/// on the patterns the crate accepts, and the compiled value keeps the
/// pattern it was built from.
#[verifier::external_body]
pub(crate) fn regex_new(pattern: &str) -> (r: Result<regex::Regex, regex::Error>)
    ensures
        r is Ok <==> is_valid_regex(pattern@),
        r is Ok ==> compiled_pattern(r.unwrap()) == pattern@,
{
    regex::Regex::new(pattern)
}

/// Relies on `regex::Regex::is_match`: true if and only if there is a match
/// for the regex anywhere in the text, a function of the compiled pattern
/// and the text alone.
#[verifier::external_body]
pub(crate) fn regex_is_match(re: &regex::Regex, text: &str) -> (b: bool)
    ensures
        b == regex_match(compiled_pattern(*re), text@),
{
    re.is_match(text)
}

/// Relies on the `Display` impl of `regex::Error` for a readable message.
#[verifier::external_body]
pub(crate) fn regex_error_text(e: &regex::Error) -> String {
    format!("{}", e)
}

} // verus!
