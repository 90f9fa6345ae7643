//! Regular expressions, through the `regex` crate.
use vstd::prelude::*;

use regex::Regex;

use crate::toc::opt_str_view;

verus! {

#[verifier::external_type_specification]
#[verifier::external_body]
pub struct ExRegex(Regex);

#[verifier::external_type_specification]
#[verifier::external_body]
pub struct ExRegexError(regex::Error);

/// Whether `regex::Regex::new` accepts the pattern.
pub uninterp spec fn regex_valid(pattern: Seq<char>) -> bool;

/// `regex::Regex::captures_len` of the compiled pattern: the number of
/// capture groups, the implicit group 0 of the whole match included.
pub uninterp spec fn regex_group_count(pattern: Seq<char>) -> nat;

/// `regex::Regex::captures` of the compiled pattern on a haystack: `None`
/// when nothing matches, else the text of each group of the leftmost-first
/// match (`None` for a group that did not take part).
pub uninterp spec fn regex_captures(pattern: Seq<char>, haystack: Seq<char>) -> Option<
    Seq<Option<Seq<char>>>,
>;

/// A compiled regex, with the pattern it was compiled from.
pub struct CompiledRegex {
    regex: Regex,
    pattern: Ghost<Seq<char>>,
}

impl View for CompiledRegex {
    type V = Seq<char>;

    closed spec fn view(&self) -> Seq<char> {
        self.pattern@
    }
}

/// `Regex::new`: compiles the pattern, or returns the crate's error.
#[verifier::external_body]
pub(crate) fn compile(pattern: &str) -> (r: Result<CompiledRegex, regex::Error>)
    ensures
        r is Ok <==> regex_valid(pattern@),
        r matches Ok(re) ==> re@ == pattern@,
{
    match Regex::new(pattern) {
        Ok(regex) => Ok(CompiledRegex { regex, pattern: Ghost(pattern@) }),
        Err(e) => Err(e),
    }
}

/// `Regex::captures_len`: the number of capture groups, group 0 included,
/// which is at least one.
#[verifier::external_body]
pub(crate) fn group_count(re: &CompiledRegex) -> (r: usize)
    ensures
        r == regex_group_count(re@),
        r >= 1,
{
    re.regex.captures_len()
}

/// `Regex::captures`: the groups of the first match in the haystack, each
/// as an owned string. A match has one entry per group of the regex, and
/// group 0, the whole match, always takes part.
#[verifier::external_body]
pub(crate) fn captures(re: &CompiledRegex, haystack: &str) -> (r: Option<Vec<Option<String>>>)
    ensures
        match r {
            None => regex_captures(re@, haystack@) is None,
            Some(groups) => {
                &&& regex_captures(re@, haystack@) matches Some(g)
                &&& groups@.len() == g.len()
                &&& g.len() == regex_group_count(re@)
                &&& g[0] is Some
                &&& forall|i: int|
                    0 <= i < g.len() ==> opt_str_view(#[trigger] groups@[i]) == g[i]
            },
        },
{
    re.regex.captures(haystack).map(
        |caps| caps.iter().map(|m| m.map(|m| m.as_str().to_string())).collect(),
    )
}

/// `Regex::is_match`: whether the regex matches anywhere in the haystack,
/// which is when `captures` finds a match.
#[verifier::external_body]
pub(crate) fn is_match(re: &CompiledRegex, haystack: &str) -> (r: bool)
    ensures
        r == regex_captures(re@, haystack@) is Some,
{
    re.regex.is_match(haystack)
}

} // verus!
