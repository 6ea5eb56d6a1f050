//! Artifact-identifier patterns, matched by the `glob` crate.

use vstd::prelude::*;

verus! {

/// Whether `glob::Pattern::new` accepts the pattern text.
pub uninterp spec fn glob_valid(pattern: Seq<char>) -> bool;

/// Whether the pattern that `glob::Pattern::new` compiles from the pattern
/// text matches `text`.
pub uninterp spec fn glob_matches(pattern: Seq<char>, text: Seq<char>) -> bool;

/// The message of the error that `glob::Pattern::new` gives for the pattern
/// text.
pub uninterp spec fn glob_message(pattern: Seq<char>) -> Seq<char>;

/// A pattern of plain characters: no `?`, `*` or `[`, which `glob` reads as
/// metacharacters, and no path separator, which it may match loosely.
pub open spec fn literal_pattern(pattern: Seq<char>) -> bool {
    forall|i: int|
        0 <= i < pattern.len() ==> #[trigger] pattern[i] != '?' && pattern[i] != '*' && pattern[i] != '['
            && pattern[i] != '/' && pattern[i] != '\\'
}

/// Relies on `glob::Pattern::new`: whether it accepts a pattern, and the
/// message of its error where it does not, depend on the pattern's text alone.
#[verifier::external_body]
pub fn glob_error(pattern: &str) -> (r: Option<String>)
    ensures
        r is None <==> glob_valid(pattern@),
        r matches Some(m) ==> m@ == glob_message(pattern@),
        literal_pattern(pattern@) ==> r is None,
{
    match glob::Pattern::new(pattern) {
        Ok(_) => None,
        Err(e) => Some(e.msg.to_string()),
    }
}

/// Relies on `glob::Pattern::matches`, on the pattern compiled from `pattern`:
/// the result depends on the two texts alone, and a pattern of plain
/// characters matches exactly itself (matching is case-sensitive by default).
#[verifier::external_body]
pub fn glob_is_match(pattern: &str, text: &str) -> (r: bool)
    requires
        glob_valid(pattern@),
    ensures
        r == glob_matches(pattern@, text@),
        literal_pattern(pattern@) ==> r == (pattern@ == text@),
{
    match glob::Pattern::new(pattern) {
        Ok(p) => p.matches(text),
        Err(_) => false,
    }
}

/// Whether `text` matches the glob `pattern`; fails, with the pattern's error
/// message, where the pattern is not a valid glob.
pub fn match_pattern(pattern: &str, text: &str) -> (r: Result<bool, String>)
    ensures
        r is Ok <==> glob_valid(pattern@),
        r matches Ok(b) ==> b == glob_matches(pattern@, text@),
        r matches Err(m) ==> m@ == glob_message(pattern@),
        literal_pattern(pattern@) ==> r == Ok::<bool, String>(pattern@ == text@),
{
    match glob_error(pattern) {
        None => Ok(glob_is_match(pattern, text)),
        Some(m) => Err(m),
    }
}

} // verus!
