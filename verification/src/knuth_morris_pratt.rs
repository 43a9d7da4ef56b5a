//! Knuth–Morris–Pratt search: a table built from the pattern tells how far
//! to retreat in the pattern after a mismatch, so that the text cursor never
//! moves back.

use crate::text::{decode, lemma_match_char, matches_at, occurs, scan_offsets};
use vstd::prelude::*;

verus! {

/// The first `len` characters of the pattern are also the last `len` of its
/// first `upto` characters, and fewer than those.
pub open spec fn is_border(pattern: Seq<char>, upto: int, len: int) -> bool {
    &&& 0 <= len < upto <= pattern.len()
    &&& pattern.subrange(0, len) =~= pattern.subrange(upto - len, upto)
}

/// After a mismatch at position `j` the comparison may resume at position
/// `k`: the `k` characters before `j` begin the pattern, and position `k`
/// holds another character than position `j`, so it does not fail at once.
pub open spec fn resumes_at(pattern: Seq<char>, j: int, k: int) -> bool {
    &&& j < pattern.len()
    &&& is_border(pattern, j, k)
    &&& pattern[k] != pattern[j]
}

/// The greatest position below `bound` at which the comparison may resume
/// after a mismatch at `j`, or -1 where there is none.
pub open spec fn backtrack_below(pattern: Seq<char>, j: int, bound: int) -> int
    decreases bound,
{
    if bound <= 0 {
        -1
    } else if resumes_at(pattern, j, bound - 1) {
        bound - 1
    } else {
        backtrack_below(pattern, j, bound - 1)
    }
}

/// The entry of the partial-match table for position `j`: the greatest
/// position at which the comparison may resume after a mismatch at `j`, or
/// -1 where it must start afresh at the next text character.
pub open spec fn partial_match(pattern: Seq<char>, j: int) -> int {
    backtrack_below(pattern, j, j)
}

/// `backtrack_below` is a position to resume at, and no greater position
/// below `bound` is.
pub proof fn lemma_backtrack_below(pattern: Seq<char>, j: int, bound: int)
    ensures
        -1 <= backtrack_below(pattern, j, bound),
        bound >= 0 ==> backtrack_below(pattern, j, bound) < bound,
        backtrack_below(pattern, j, bound) >= 0 ==> resumes_at(
            pattern,
            j,
            backtrack_below(pattern, j, bound),
        ),
        forall|k: int|
            backtrack_below(pattern, j, bound) < k < bound ==> !resumes_at(pattern, j, k),
    decreases bound,
{
    if bound > 0 && !resumes_at(pattern, j, bound - 1) {
        lemma_backtrack_below(pattern, j, bound - 1);
    }
}

/// The table entry is the only value that is a position to resume at, or -1,
/// with no position to resume at above it.
pub proof fn lemma_partial_match_unique(pattern: Seq<char>, j: int, k: int)
    requires
        -1 <= k < j || (k == -1 && j <= 0),
        k >= 0 ==> resumes_at(pattern, j, k),
        forall|other: int| k < other < j ==> !resumes_at(pattern, j, other),
    ensures
        partial_match(pattern, j) == k,
{
    lemma_backtrack_below(pattern, j, j);
}

/// A border repeats the pattern's beginning character by character.
pub proof fn lemma_border_char(pattern: Seq<char>, upto: int, len: int, x: int)
    requires
        is_border(pattern, upto, len),
        0 <= x < len,
    ensures
        pattern[x] == pattern[upto - len + x],
{
    assert(pattern.subrange(0, len)[x] == pattern[x]);
    assert(pattern.subrange(upto - len, upto)[x] == pattern[upto - len + x]);
}

/// A border grows by one where the characters that follow its two copies are
/// equal, and only there.
pub proof fn lemma_border_step(pattern: Seq<char>, upto: int, len: int)
    requires
        0 <= len < upto < pattern.len(),
    ensures
        is_border(pattern, upto + 1, len + 1) <==> is_border(pattern, upto, len) && pattern[len]
            == pattern[upto],
{
    if is_border(pattern, upto + 1, len + 1) {
        assert forall|x: int| 0 <= x < len implies #[trigger] pattern.subrange(0, len)[x]
            == pattern.subrange(upto - len, upto)[x] by {
            lemma_border_char(pattern, upto + 1, len + 1, x);
        }
        lemma_border_char(pattern, upto + 1, len + 1, len);
    }
    if is_border(pattern, upto, len) && pattern[len] == pattern[upto] {
        assert forall|x: int| 0 <= x < len + 1 implies #[trigger] pattern.subrange(0, len + 1)[x]
            == pattern.subrange(upto - len, upto + 1)[x] by {
            if x < len {
                lemma_border_char(pattern, upto, len, x);
            }
        }
    }
}

/// The borders of a border are the shorter borders of the whole.
pub proof fn lemma_border_of_border(pattern: Seq<char>, upto: int, mid: int, len: int)
    requires
        is_border(pattern, upto, mid),
        0 <= len < mid,
    ensures
        is_border(pattern, upto, len) <==> is_border(pattern, mid, len),
{
    if is_border(pattern, upto, len) {
        assert forall|x: int| 0 <= x < len implies #[trigger] pattern.subrange(0, len)[x]
            == pattern.subrange(mid - len, mid)[x] by {
            lemma_border_char(pattern, upto, len, x);
            lemma_border_char(pattern, upto, mid, mid - len + x);
        }
    }
    if is_border(pattern, mid, len) {
        assert forall|x: int| 0 <= x < len implies #[trigger] pattern.subrange(0, len)[x]
            == pattern.subrange(upto - len, upto)[x] by {
            lemma_border_char(pattern, mid, len, x);
            lemma_border_char(pattern, upto, mid, mid - len + x);
        }
    }
}

/// `cnd` is the length of the longest border of the first `upto` characters.
pub open spec fn is_longest_border(pattern: Seq<char>, upto: int, cnd: int) -> bool {
    &&& is_border(pattern, upto, cnd)
    &&& forall|len: int| cnd < len < upto ==> !is_border(pattern, upto, len)
}

/// Where the longest border of the first `i` characters is followed by the
/// character at `i`, position `i` has the table entry of the position after
/// that border.
proof fn lemma_entry_copied(pattern: Seq<char>, i: int, cnd: int)
    requires
        0 < i < pattern.len(),
        is_longest_border(pattern, i, cnd),
        pattern[i] == pattern[cnd],
    ensures
        partial_match(pattern, i) == partial_match(pattern, cnd),
{
    let k = partial_match(pattern, cnd);
    lemma_backtrack_below(pattern, cnd, cnd);
    if k >= 0 {
        lemma_border_of_border(pattern, i, cnd, k);
    }
    assert forall|other: int| k < other < i implies !resumes_at(pattern, i, other) by {
        if other < cnd && resumes_at(pattern, i, other) {
            lemma_border_of_border(pattern, i, cnd, other);
            assert(resumes_at(pattern, cnd, other));
        }
    }
    lemma_partial_match_unique(pattern, i, k);
}

/// Builds the partial-match table: for each position of the pattern, the
/// position at which to resume after a mismatch there, or -1 to start afresh
/// at the next text character. Its first entry is -1.
pub fn partial_match_table(pattern: &[char]) -> (table: Vec<isize>)
    requires
        pattern@.len() <= isize::MAX,
    ensures
        table@.len() == if pattern@.len() == 0 { 1 } else { pattern@.len() },
        table@[0] == -1,
        forall|j: int| 0 <= j < table@.len() ==> table@[j] == partial_match(pattern@, j),
{
    let m = pattern.len();
    let mut table: Vec<isize> = Vec::new();
    table.push(-1);
    let mut cnd: isize = 0;
    let mut i: usize = 1;
    while i < m
        invariant
            m == pattern@.len(),
            m <= isize::MAX,
            i >= 1,
            i <= m || m == 0 && i == 1,
            table@.len() == i,
            forall|j: int| 0 <= j < i ==> table@[j] == partial_match(pattern@, j),
            m >= 1 ==> is_longest_border(pattern@, i as int, cnd as int),
        decreases m - i,
    {
        if pattern[i] == pattern[cnd as usize] {
            proof {
                lemma_entry_copied(pattern@, i as int, cnd as int);
            }
            table.push(table[cnd as usize]);
        } else {
            proof {
                lemma_partial_match_unique(pattern@, i as int, cnd as int);
            }
            table.push(cnd);
            while cnd >= 0 && pattern[i] != pattern[cnd as usize]
                invariant
                    m == pattern@.len(),
                    0 < i < m,
                    -1 <= cnd < i,
                    table@.len() == i + 1,
                    forall|j: int| 0 <= j < i ==> table@[j] == partial_match(pattern@, j),
                    cnd >= 0 ==> is_border(pattern@, i as int, cnd as int),
                    forall|len: int|
                        cnd < len < i && is_border(pattern@, i as int, len) ==> pattern@[len]
                            != pattern@[i as int],
                decreases cnd + 1,
            {
                let ghost wider = cnd as int;
                cnd = table[cnd as usize];
                proof {
                    lemma_backtrack_below(pattern@, wider, wider);
                    if cnd >= 0 {
                        lemma_border_of_border(pattern@, i as int, wider, cnd as int);
                    }
                    assert forall|len: int|
                        cnd < len < i && is_border(pattern@, i as int, len) implies pattern@[len]
                        != pattern@[i as int] by {
                        if len < wider {
                            lemma_border_of_border(pattern@, i as int, wider, len);
                            assert(!resumes_at(pattern@, wider, len));
                        }
                    }
                }
            }
        }
        proof {
            let next = i + 1;
            assert forall|len: int| cnd + 1 < len < next implies !is_border(
                pattern@,
                next,
                len,
            ) by {
                lemma_border_step(pattern@, i as int, len - 1);
            }
            if cnd >= 0 {
                lemma_border_step(pattern@, i as int, cnd as int);
            }
        }
        cnd += 1;
        i += 1;
    }
    table
}

/// Decides whether `pattern` occurs in `text`. One cursor runs through the
/// text and never moves back; a second runs through the pattern and, on a
/// mismatch, retreats as the partial-match table tells.
pub fn contains(pattern: &str, text: &str) -> (found: bool)
    ensures
        found == occurs(pattern@, text@),
{
    let p = decode(pattern);
    let t = decode(text);

    if p.is_empty() {
        assert(matches_at(p@, t@, 0));
        return true;
    }
    if t.is_empty() || t.len() < p.len() {
        return false;
    }
    if p.len() > isize::MAX as usize {
        // no table indexes a pattern that long
        return scan_offsets(&p, &t);
    }
    let partial_match_table = partial_match_table(&p);

    let m = p.len();
    let n = t.len();
    let mut i: usize = 0;
    let mut j: usize = 0;
    while i < n
        invariant
            p@ == pattern@,
            t@ == text@,
            m == p@.len(),
            n == t@.len(),
            1 <= m <= n,
            m <= isize::MAX,
            partial_match_table@.len() == m,
            forall|x: int| 0 <= x < m ==> partial_match_table@[x] == partial_match(p@, x),
            j < m,
            j <= i <= n,
            forall|x: int| 0 <= x < j ==> t@[i - j + x] == #[trigger] p@[x],
            forall|at: int| 0 <= at < i - j ==> !matches_at(p@, t@, at),
        decreases 2 * (n - i) + j,
    {
        if t[i] == p[j] {
            i += 1;
            j += 1;

            if j == m {
                assert(t@.subrange(i - m, i as int) =~= p@);
                assert(matches_at(p@, t@, i - m));
                return true;
            }
        } else {
            let k = partial_match_table[j];
            proof {
                lemma_backtrack_below(p@, j as int, j as int);
                assert forall|at: int| i - j <= at < i - k implies !matches_at(p@, t@, at) by {
                    if matches_at(p@, t@, at) {
                        lemma_resumes_within(p@, t@, i as int, j as int, at);
                    }
                }
            }
            if k < 0 {
                i += 1;
                j = (k + 1) as usize;
            } else {
                proof {
                    assert forall|x: int| 0 <= x < k implies t@[i - k + x] == #[trigger] p@[x] by {
                        lemma_border_char(p@, j as int, k as int, x);
                    }
                }
                j = k as usize;
            }
        }
    }
    assert forall|at: int| 0 <= at implies !matches_at(p@, t@, at) by {}
    false
}

/// With the pattern's first `j` characters before text position `i` and a
/// mismatch at `i`, a match that covers position `i` begins where the
/// comparison may resume.
proof fn lemma_resumes_within(pattern: Seq<char>, text: Seq<char>, i: int, j: int, at: int)
    requires
        0 <= j < pattern.len(),
        j <= i < text.len(),
        forall|x: int| 0 <= x < j ==> text[i - j + x] == #[trigger] pattern[x],
        text[i] != pattern[j],
        i - j <= at <= i,
        matches_at(pattern, text, at),
    ensures
        resumes_at(pattern, j, i - at),
{
    let k = i - at;
    lemma_match_char(pattern, text, at, k);
    assert forall|x: int| 0 <= x < k implies #[trigger] pattern.subrange(0, k)[x]
        == pattern.subrange(j - k, j)[x] by {
        lemma_match_char(pattern, text, at, x);
        assert(text[i - j + (j - k + x)] == pattern[j - k + x]);
    }
}

} // verus!
