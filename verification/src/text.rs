//! The shared vocabulary of the search algorithms: what it means for a
//! pattern to occur in a text, and the decoding of strings into characters.

use vstd::prelude::*;
use vstd::std_specs::iter::IteratorSpec;

verus! {

/// The pattern lies in the text with its first character at offset `at`.
pub open spec fn matches_at(pattern: Seq<char>, text: Seq<char>, at: int) -> bool {
    &&& 0 <= at
    &&& at + pattern.len() <= text.len()
    &&& text.subrange(at, at + pattern.len()) =~= pattern
}

/// The pattern occurs somewhere in the text as a contiguous run.
pub open spec fn occurs(pattern: Seq<char>, text: Seq<char>) -> bool {
    exists|at: int| matches_at(pattern, text, at)
}

/// The pattern is an initial segment of the text.
pub open spec fn is_prefix(pattern: Seq<char>, text: Seq<char>) -> bool {
    matches_at(pattern, text, 0)
}

/// Every pattern occurs in itself.
pub proof fn lemma_occurs_in_itself(pattern: Seq<char>)
    ensures
        occurs(pattern, pattern),
{
    assert(matches_at(pattern, pattern, 0));
}

/// The empty pattern occurs in every text, the empty text included.
pub proof fn lemma_empty_pattern_occurs(text: Seq<char>)
    ensures
        occurs(Seq::<char>::empty(), text),
{
    assert(matches_at(Seq::<char>::empty(), text, 0));
}

/// No pattern but the empty one occurs in the empty text; more generally,
/// none occurs in a text shorter than itself.
pub proof fn lemma_longer_pattern_is_absent(pattern: Seq<char>, text: Seq<char>)
    requires
        text.len() < pattern.len(),
    ensures
        !occurs(pattern, text),
{
}

/// Decodes a string slice into its sequence of characters.
pub fn decode(s: &str) -> (chars: Vec<char>)
    ensures
        chars@ == s@,
{
    let mut chars: Vec<char> = Vec::new();
    for c in it: s.chars()
        invariant
            it.seq() == s@,
            chars@ == s@.take(it.index()),
    {
        chars.push(c);
    }
    chars
}

/// A match holds each character of the pattern at its place in the text.
pub proof fn lemma_match_char(pattern: Seq<char>, text: Seq<char>, at: int, x: int)
    requires
        matches_at(pattern, text, at),
        0 <= x < pattern.len(),
    ensures
        text[at + x] == pattern[x],
{
    assert(text.subrange(at, at + pattern.len())[x] == text[at + x]);
}

/// Decides whether `pattern` occurs in `text` by comparing it with the text
/// at every offset. The table-driven searches fall back on it for a pattern
/// longer than their tables can index.
pub fn scan_offsets(pattern: &[char], text: &[char]) -> (found: bool)
    ensures
        found == occurs(pattern@, text@),
{
    let m = pattern.len();
    let n = text.len();
    if m > n {
        return false;
    }
    let mut at: usize = 0;
    while at <= n - m
        invariant
            m == pattern@.len(),
            n == text@.len(),
            m <= n,
            forall|b: int| 0 <= b < at ==> !matches_at(pattern@, text@, b),
        decreases n - m + 1 - at,
    {
        let mut x: usize = 0;
        while x < m && text[at + x] == pattern[x]
            invariant
                m == pattern@.len(),
                n == text@.len(),
                at + m <= n,
                x <= m,
                forall|y: int| 0 <= y < x ==> text@[at + y] == #[trigger] pattern@[y],
            decreases m - x,
        {
            x += 1;
        }
        if x == m {
            assert(text@.subrange(at as int, at + m) =~= pattern@);
            assert(matches_at(pattern@, text@, at as int));
            return true;
        }
        proof {
            if matches_at(pattern@, text@, at as int) {
                lemma_match_char(pattern@, text@, at as int, x as int);
            }
        }
        at += 1;
    }
    false
}

} // verus!
