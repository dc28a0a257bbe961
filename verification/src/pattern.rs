//! Regular expressions over label values.

use vstd::prelude::*;

use crate::text::joined;

verus! {

/// The error message of `regex::Regex::new` for a pattern, or nothing where the pattern compiles.
pub uninterp spec fn regex_failure(pattern: Seq<char>) -> Option<Seq<char>>;

/// What `regex::Regex::is_match` says of a text, for the regular expression of a pattern.
pub uninterp spec fn regex_matches(pattern: Seq<char>, text: Seq<char>) -> bool;

/// Calls `regex::Regex::new`, whose outcome depends on the pattern alone, and hands the message
/// of its error out.
#[verifier::external_body]
pub(crate) fn compile_failure(pattern: &str) -> (failure: Option<String>)
    ensures
        match failure {
            Some(message) => regex_failure(pattern@) == Some(message@),
            None => regex_failure(pattern@) == None::<Seq<char>>,
        },
{
    match regex::Regex::new(pattern) {
        Ok(_) => None,
        Err(error) => Some(error.to_string()),
    }
}

/// Calls `regex::Regex::is_match` on the regular expression of a pattern. The outcome depends on
/// the pattern and the text alone. A pattern that does not compile matches nothing.
#[verifier::external_body]
pub(crate) fn is_match(pattern: &str, text: &str) -> (found: bool)
    ensures
        found == regex_matches(pattern@, text@),
        regex_failure(pattern@) is Some ==> !found,
{
    match regex::Regex::new(pattern) {
        Ok(regex) => regex.is_match(text),
        Err(_) => false,
    }
}

/// A pattern that has to match a whole text.
pub open spec fn anchored(pattern: Seq<char>) -> Seq<char> {
    "^(?:"@ + pattern + ")$"@
}

/// A pattern that does not tell upper and lower case apart.
pub open spec fn case_insensitive(pattern: Seq<char>) -> Seq<char> {
    "(?i:"@ + pattern + ")"@
}

/// Makes a pattern match whole texts only.
pub(crate) fn anchor(pattern: &str) -> (result: String)
    ensures
        result@ == anchored(pattern@),
{
    let mut result = joined("^(?:", pattern);
    result.append(")$");
    result
}

/// Makes a pattern match upper and lower case alike.
pub(crate) fn ignore_case(pattern: &str) -> (result: String)
    ensures
        result@ == case_insensitive(pattern@),
{
    let mut result = joined("(?i:", pattern);
    result.append(")");
    result
}

/// A pattern for whole texts is the pattern as one group between the start and the end of a text, and
/// one for upper and lower case alike is the pattern as one group with that flag.
pub proof fn law_patterns_are_kept_whole(pattern: Seq<char>)
    ensures
        anchored(pattern).len() == pattern.len() + 6,
        anchored(pattern)[0] == '^',
        anchored(pattern).subrange(1, 4) == "(?:"@,
        anchored(pattern).subrange(4, 4 + pattern.len() as int) == pattern,
        anchored(pattern)[4 + pattern.len() as int] == ')',
        anchored(pattern).last() == '$',
        case_insensitive(pattern).len() == pattern.len() + 5,
        case_insensitive(pattern).take(4) == "(?i:"@,
        case_insensitive(pattern).subrange(4, 4 + pattern.len() as int) == pattern,
        case_insensitive(pattern).last() == ')',
{
    reveal_strlit("^(?:");
    reveal_strlit("(?:");
    reveal_strlit(")$");
    reveal_strlit("(?i:");
    reveal_strlit(")");
    assert(anchored(pattern).subrange(1, 4) =~= "(?:"@);
    assert(anchored(pattern).subrange(4, 4 + pattern.len() as int) =~= pattern);
    assert(case_insensitive(pattern).take(4) =~= "(?i:"@);
    assert(case_insensitive(pattern).subrange(4, 4 + pattern.len() as int) =~= pattern);
}

} // verus!
