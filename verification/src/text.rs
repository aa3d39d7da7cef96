//! Text helpers that the standard library provides and the planner needs.

use vstd::prelude::*;

verus! {

/// `needle` occurs in `hay` as a contiguous run of characters.
pub open spec fn is_substring(hay: Seq<char>, needle: Seq<char>) -> bool {
    exists|k: int|
        0 <= k && k + needle.len() <= hay.len() && #[trigger] hay.subrange(
            k,
            k + needle.len(),
        ) == needle
}

/// Equality of two string slices, `str`'s own `==`.  Trusted: the result is
/// true exactly when both hold the same characters in the same order.
#[verifier::external_body]
pub(crate) fn same_text(a: &str, b: &str) -> (r: bool)
    ensures
        r == (a@ == b@),
{
    a == b
}

/// Substring test, `str::contains` with a string pattern.  Trusted: the
/// result is true exactly when the pattern matches a sub-slice of `hay`.
#[verifier::external_body]
pub(crate) fn contains_text(hay: &str, needle: &str) -> (r: bool)
    ensures
        r == is_substring(hay@, needle@),
{
    hay.contains(needle)
}

} // verus!
