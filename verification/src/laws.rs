//! What holds of the four searches taken together.

use crate::boyer_moore;
use crate::knuth_morris_pratt;
use crate::naive;
use crate::rabin_karp;
use crate::text::{
    lemma_empty_pattern_occurs, lemma_longer_pattern_is_absent, lemma_occurs_in_itself, occurs,
};
use vstd::prelude::*;

verus! {

/// The four searches agree: whatever each of them returns for one pattern
/// and one text, the four results are equal, and they say whether the
/// pattern occurs in the text.
pub proof fn lemma_searches_agree(
    pattern: &str,
    text: &str,
    by_naive: bool,
    by_rabin_karp: bool,
    by_boyer_moore: bool,
    by_knuth_morris_pratt: bool,
)
    requires
        call_ensures(naive::contains, (pattern, text), by_naive),
        call_ensures(rabin_karp::contains, (pattern, text), by_rabin_karp),
        call_ensures(boyer_moore::contains, (pattern, text), by_boyer_moore),
        call_ensures(knuth_morris_pratt::contains, (pattern, text), by_knuth_morris_pratt),
    ensures
        by_naive == by_rabin_karp,
        by_rabin_karp == by_boyer_moore,
        by_boyer_moore == by_knuth_morris_pratt,
        by_naive == occurs(pattern@, text@),
{
}

/// Each search finds a pattern in itself.
pub proof fn lemma_searches_find_pattern_in_itself(
    pattern: &str,
    by_naive: bool,
    by_rabin_karp: bool,
    by_boyer_moore: bool,
    by_knuth_morris_pratt: bool,
)
    requires
        call_ensures(naive::contains, (pattern, pattern), by_naive),
        call_ensures(rabin_karp::contains, (pattern, pattern), by_rabin_karp),
        call_ensures(boyer_moore::contains, (pattern, pattern), by_boyer_moore),
        call_ensures(knuth_morris_pratt::contains, (pattern, pattern), by_knuth_morris_pratt),
    ensures
        by_naive,
        by_rabin_karp,
        by_boyer_moore,
        by_knuth_morris_pratt,
{
    lemma_occurs_in_itself(pattern@);
}

/// Each search finds the empty pattern in every text, the empty text
/// included.
pub proof fn lemma_searches_find_empty_pattern(
    pattern: &str,
    text: &str,
    by_naive: bool,
    by_rabin_karp: bool,
    by_boyer_moore: bool,
    by_knuth_morris_pratt: bool,
)
    requires
        pattern@.len() == 0,
        call_ensures(naive::contains, (pattern, text), by_naive),
        call_ensures(rabin_karp::contains, (pattern, text), by_rabin_karp),
        call_ensures(boyer_moore::contains, (pattern, text), by_boyer_moore),
        call_ensures(knuth_morris_pratt::contains, (pattern, text), by_knuth_morris_pratt),
    ensures
        by_naive,
        by_rabin_karp,
        by_boyer_moore,
        by_knuth_morris_pratt,
{
    assert(pattern@ =~= Seq::<char>::empty());
    lemma_empty_pattern_occurs(text@);
}

/// No search finds a pattern in a text shorter than it; in the empty text
/// none finds any pattern but the empty one.
pub proof fn lemma_searches_miss_longer_pattern(
    pattern: &str,
    text: &str,
    by_naive: bool,
    by_rabin_karp: bool,
    by_boyer_moore: bool,
    by_knuth_morris_pratt: bool,
)
    requires
        text@.len() < pattern@.len(),
        call_ensures(naive::contains, (pattern, text), by_naive),
        call_ensures(rabin_karp::contains, (pattern, text), by_rabin_karp),
        call_ensures(boyer_moore::contains, (pattern, text), by_boyer_moore),
        call_ensures(knuth_morris_pratt::contains, (pattern, text), by_knuth_morris_pratt),
    ensures
        !by_naive,
        !by_rabin_karp,
        !by_boyer_moore,
        !by_knuth_morris_pratt,
{
    lemma_longer_pattern_is_absent(pattern@, text@);
}

} // verus!
