//! Naive search: test for a match at every offset of the text.

use crate::text::{decode, is_prefix, matches_at, occurs};
use vstd::prelude::*;

verus! {

/// Decides whether `pattern` occurs in `text` by trying every offset in turn.
/// No auxiliary space; time proportional to the product of the two lengths in
/// the worst case.
pub fn contains(pattern: &str, text: &str) -> (found: bool)
    ensures
        found == occurs(pattern@, text@),
{
    let p = decode(pattern);
    let t = decode(text);

    if p.is_empty() {
        assert(matches_at(p@, t@, 0));
        return true;
    }
    if t.is_empty() || t.len() < p.len() {
        return false;
    }
    for i in 0..t.len()
        invariant
            p@ == pattern@,
            t@ == text@,
            forall|at: int| 0 <= at < i ==> !matches_at(p@, t@, at),
    {
        if contains_inner(&p, &t[i..t.len()]) {
            assert(matches_at(p@, t@, i as int));
            return true;
        }
    }
    false
}

/// Decides whether `pattern` is an initial segment of `text`.
pub fn contains_inner(pattern: &[char], text: &[char]) -> (found: bool)
    ensures
        found == is_prefix(pattern@, text@),
{
    for i in 0..pattern.len()
        invariant
            i <= text@.len(),
            text@.subrange(0, i as int) =~= pattern@.subrange(0, i as int),
    {
        if i == text.len() {
            return false;
        }
        if text[i] != pattern[i] {
            return false;
        }
    }
    true
}

} // verus!
