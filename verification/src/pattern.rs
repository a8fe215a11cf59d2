use vstd::prelude::*;

verus! {

/// `regex::Regex`, a compiled regular expression.
#[verifier::external_type_specification]
#[verifier::external_body]
pub struct ExRegex(regex::Regex);

/// `regex::Error`, the error of `regex` on a pattern that it cannot compile.
#[verifier::external_type_specification]
#[verifier::external_body]
pub struct ExRegexError(regex::Error);

/// Whether `regex::Regex::new` accepts `pattern` as a regular expression.
pub uninterp spec fn pattern_compiles(pattern: Seq<char>) -> bool;

/// The texts in which the regular expression that `regex::Regex::new` makes of `pattern` has
/// a match.
pub uninterp spec fn pattern_texts(pattern: Seq<char>) -> Set<Seq<char>>;

/// The texts in which the compiled regular expression `regex` has a match: those on which
/// `regex::Regex::is_match` answers yes.
pub uninterp spec fn regex_texts(regex: regex::Regex) -> Set<Seq<char>>;

/// `regex::Regex::new`: it succeeds on the patterns that `pattern_compiles` names, and the
/// expression made has its matches in the texts that `pattern_texts` names for the pattern.
#[verifier::external_body]
pub(crate) fn compile(pattern: &str) -> (r: Result<regex::Regex, regex::Error>)
    ensures
        r is Ok == pattern_compiles(pattern@),
        r matches Ok(regex) ==> regex_texts(regex) == pattern_texts(pattern@),
{
    regex::Regex::new(pattern)
}

/// `regex::Regex::is_match`: whether the expression has a match anywhere in `text`.
#[verifier::external_body]
pub(crate) fn is_match(regex: &regex::Regex, text: &str) -> (r: bool)
    ensures
        r == regex_texts(*regex).contains(text@),
{
    regex.is_match(text)
}

} // verus!
