//! Regular expressions, as the `regex` crate reads and runs them.

use regex::Regex;
use vstd::prelude::*;

verus! {

/// What `Regex::new` on `pattern`, followed by `Regex::is_match` on `text`,
/// gives: nothing where the pattern is refused (it is malformed, or its
/// program would exceed the crate's default size limit), else whether the
/// expression matches anywhere in the text.
pub uninterp spec fn regex_search(pattern: Seq<char>, text: Seq<char>) -> Option<bool>;

/// Compiles `pattern` with `regex::Regex::new` and, where that succeeds,
/// searches `text` with `regex::Regex::is_match`. The contract only names
/// the outcome: it is taken to depend on the two texts and nothing else.
#[verifier::external_body]
pub(crate) fn search(pattern: &str, text: &str) -> (found: Option<bool>)
    ensures
        found == regex_search(pattern@, text@),
{
    match Regex::new(pattern) {
        Ok(re) => Some(re.is_match(text)),
        Err(_) => None,
    }
}

} // verus!
