use vstd::prelude::*;

verus! {

/// Whether the regex engine accepts a pattern.
pub uninterp spec fn regex_valid(pattern: Seq<char>) -> bool;

/// Whether a regular expression matches somewhere in a text.
pub uninterp spec fn regex_match(pattern: Seq<char>, text: Seq<char>) -> bool;

/// Relies on regex::Regex::new, which fails exactly on the patterns
/// the engine rejects, and on regex::Regex::is_match, whose result is
/// a pure function of the pattern and the haystack alone.
#[verifier::external_body]
pub(crate) fn regex_try_match(pattern: &str, text: &str) -> (r: Option<bool>)
    ensures
        r is Some <==> regex_valid(pattern@),
        r matches Some(b) ==> b == regex_match(pattern@, text@),
{
    match regex::Regex::new(pattern) {
        Ok(re) => Some(re.is_match(text)),
        Err(_) => None,
    }
}

/// Whether the regex engine accepts this pattern.
pub fn regex_pattern_valid(pattern: &str) -> (r: bool)
    ensures
        r == regex_valid(pattern@),
{
    let probe = regex_try_match(pattern, "");
    probe.is_some()
}

} // verus!
