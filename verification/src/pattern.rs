//! Regular expressions.

use regex::Regex;
use vstd::prelude::*;
use vstd::string::*;

verus! {

/// `regex::Regex`: a compiled regular expression.
#[verifier::external_type_specification]
#[verifier::external_body]
pub struct ExRegex(regex::Regex);

/// The message of the error that `Regex::new` gives for a pattern; `None` for a
/// pattern that compiles.
pub uninterp spec fn regex_error(pattern: Seq<char>) -> Option<Seq<char>>;

/// What `Regex::is_match` returns on the regular expression that `Regex::new`
/// makes of a pattern.
pub uninterp spec fn regex_matches(pattern: Seq<char>, haystack: Seq<char>) -> bool;

/// What `Regex::is_match` returns on a compiled regular expression.
pub uninterp spec fn accepts(re: regex::Regex, haystack: Seq<char>) -> bool;

/// `Regex::new`: compiles the pattern, or says why it cannot. What the compiled
/// expression accepts is a function of the pattern.
#[verifier::external_body]
pub(crate) fn compile(pattern: &str) -> (r: Result<Regex, String>)
    ensures
        (match r {
            Ok(re) => regex_error(pattern@) is None && forall|t: Seq<char>| #[trigger]
                accepts(re, t) == regex_matches(pattern@, t),
            Err(e) => regex_error(pattern@) == Some(e@),
        }),
{
    Regex::new(pattern).map_err(|e| e.to_string())
}

/// `Regex::is_match`: whether the expression matches anywhere in the text.
#[verifier::external_body]
pub(crate) fn is_match(re: &Regex, haystack: &str) -> (r: bool)
    ensures
        r == accepts(*re, haystack@),
{
    re.is_match(haystack)
}

} // verus!
