//! Boyer–Moore search: compare the pattern right to left and, on a mismatch,
//! jump ahead by the larger of two precomputed shifts.

use crate::text::{decode, lemma_match_char, matches_at, occurs, scan_offsets};
use std::collections::HashMap;
use vstd::prelude::*;

verus! {

/// The greatest index at which `c` stands in `pattern`, or -1 where it stands
/// nowhere.
pub open spec fn rightmost(pattern: Seq<char>, c: char) -> int
    decreases pattern.len(),
{
    if pattern.len() == 0 {
        -1
    } else if pattern.last() == c {
        pattern.len() - 1
    } else {
        rightmost(pattern.drop_last(), c)
    }
}

/// The bad-character shift for `c`: the distance from the pattern's last
/// index to the rightmost occurrence of `c`, and the pattern's whole length
/// where `c` does not occur.
pub open spec fn bad_character_shift(pattern: Seq<char>, c: char) -> int {
    pattern.len() - 1 - rightmost(pattern, c)
}

/// `rightmost` is an index of `c` and no later index holds `c`.
pub proof fn lemma_rightmost(pattern: Seq<char>, c: char)
    ensures
        -1 <= rightmost(pattern, c) < pattern.len(),
        rightmost(pattern, c) >= 0 ==> pattern[rightmost(pattern, c)] == c,
        forall|i: int| rightmost(pattern, c) < i < pattern.len() ==> pattern[i] != c,
    decreases pattern.len(),
{
    if pattern.len() > 0 && pattern.last() != c {
        lemma_rightmost(pattern.drop_last(), c);
        assert forall|i: int| rightmost(pattern, c) < i < pattern.len() implies pattern[i] != c by {
            if i < pattern.len() - 1 {
                assert(pattern.drop_last()[i] == pattern[i]);
            }
        }
    }
}

/// The key under which the bad-character table files a character: its code
/// point.
pub open spec fn code(c: char) -> u32 {
    c as u32
}

/// Distinct characters have distinct codes.
pub proof fn lemma_code_injective(c: char, d: char)
    ensures
        code(c) == code(d) <==> c == d,
{
}

/// Builds the bad-character table: every character of the pattern, keyed by
/// its code point, with its bad-character shift. Characters that the pattern
/// lacks have no entry.
pub fn bad_character_table(pattern: &[char]) -> (table: HashMap<u32, usize>)
    ensures
        forall|key: u32|
            table@.contains_key(key) <==> exists|i: int|
                0 <= i < pattern@.len() && #[trigger] code(pattern@[i]) == key,
        forall|i: int|
            0 <= i < pattern@.len() ==> #[trigger] table@[code(pattern@[i])]
                == bad_character_shift(pattern@, pattern@[i]),
{
    let mut table: HashMap<u32, usize> = HashMap::new();
    for i in 0..pattern.len()
        invariant
            forall|key: u32|
                table@.contains_key(key) <==> exists|j: int|
                    0 <= j < i && #[trigger] code(pattern@[j]) == key,
            forall|j: int|
                0 <= j < i ==> #[trigger] table@[code(pattern@[j])] == pattern@.len() - 1
                    - rightmost(pattern@.take(i as int), pattern@[j]),
    {
        let ghost before = pattern@.take(i as int);
        let ghost after = pattern@.take(i + 1);
        let ghost old_table = table@;
        let c = pattern[i];
        assert(after.drop_last() == before);
        table.insert(c as u32, pattern.len() - i - 1);
        assert forall|j: int| 0 <= j < i + 1 implies #[trigger] table@[code(pattern@[j])]
            == pattern@.len() - 1 - rightmost(after, pattern@[j]) by {
            lemma_code_injective(pattern@[j], c);
        }
        assert forall|key: u32| table@.contains_key(key) implies exists|j: int|
            0 <= j < i + 1 && #[trigger] code(pattern@[j]) == key by {
            if key != code(c) {
                assert(old_table.contains_key(key));
            } else {
                assert(code(pattern@[i as int]) == key);
            }
        }
        assert forall|key: u32|
            (exists|j: int| 0 <= j < i + 1 && #[trigger] code(pattern@[j]) == key)
            implies table@.contains_key(key) by {
            let j = choose|j: int| 0 <= j < i + 1 && #[trigger] code(pattern@[j]) == key;
            if j < i {
                assert(old_table.contains_key(key));
            }
        }
    }
    assert(pattern@.take(pattern@.len() as int) == pattern@);
    table
}

/// The pattern's last `k` characters stand again at `pos`, wholly before the
/// last character, and either at the very start or after a character other
/// than the one that precedes them at the end.
pub open spec fn recurs_at(pattern: Seq<char>, k: int, pos: int) -> bool {
    &&& 0 < k < pattern.len()
    &&& 0 <= pos <= pattern.len() - 1 - k
    &&& pattern.subrange(pos, pos + k) =~= pattern.subrange(pattern.len() - k, pattern.len() as int)
    &&& (pos == 0 || pattern[pos - 1] != pattern[pattern.len() - k - 1])
}

/// The greatest position below `bound` at which the last `k` characters
/// recur, or -1 where there is none.
pub open spec fn last_recurrence(pattern: Seq<char>, k: int, bound: int) -> int
    decreases bound,
{
    if bound <= 0 {
        -1
    } else if recurs_at(pattern, k, bound - 1) {
        bound - 1
    } else {
        last_recurrence(pattern, k, bound - 1)
    }
}

/// The pattern's first `len` characters are also its last `len` characters.
pub open spec fn is_border(pattern: Seq<char>, len: int) -> bool {
    &&& 0 <= len <= pattern.len()
    &&& pattern.subrange(0, len) =~= pattern.subrange(pattern.len() - len, pattern.len() as int)
}

/// The greatest length below `bound` of a prefix of the pattern that is also
/// a suffix of it; 0 where only the empty prefix is.
pub open spec fn longest_border_below(pattern: Seq<char>, bound: int) -> int
    decreases bound,
{
    if bound <= 1 {
        0
    } else if is_border(pattern, bound - 1) {
        bound - 1
    } else {
        longest_border_below(pattern, bound - 1)
    }
}

/// The good-suffix shift after `k` trailing characters matched: how far the
/// text cursor moves on from the mismatch. With nothing matched it is 1. It
/// aligns the rightmost recurrence of the matched suffix where there is one,
/// and else the longest prefix of the pattern that ends the matched suffix;
/// with neither, the pattern moves wholly past the matched characters.
pub open spec fn good_suffix_shift(pattern: Seq<char>, k: int) -> int {
    if k <= 0 {
        1
    } else {
        let pos = last_recurrence(pattern, k, pattern.len() - k);
        if pos >= 0 {
            pattern.len() - pos
        } else {
            pattern.len() - longest_border_below(pattern, k) + k
        }
    }
}

/// Decides whether the runs of `len` characters at `a` and at `b` are equal.
fn same_run(pattern: &[char], a: usize, b: usize, len: usize) -> (same: bool)
    requires
        a + len <= pattern@.len(),
        b + len <= pattern@.len(),
    ensures
        same == (pattern@.subrange(a as int, a + len) =~= pattern@.subrange(b as int, b + len)),
{
    let n = pattern.len();
    let mut i: usize = 0;
    while i < len
        invariant
            n == pattern@.len(),
            a + len <= n,
            b + len <= n,
            i <= len,
            pattern@.subrange(a as int, a + i) =~= pattern@.subrange(b as int, b + i),
        decreases len - i,
    {
        if pattern[a + i] != pattern[b + i] {
            assert(pattern@.subrange(a as int, a + len)[i as int] != pattern@.subrange(
                b as int,
                b + len,
            )[i as int]);
            return false;
        }
        assert forall|x: int| 0 <= x < i + 1 implies #[trigger] pattern@.subrange(
            a as int,
            a + i + 1,
        )[x] == pattern@.subrange(b as int, b + i + 1)[x] by {
            if x < i {
                assert(pattern@.subrange(a as int, a + i)[x] == pattern@.subrange(
                    b as int,
                    b + i,
                )[x]);
            }
        }
        i += 1;
    }
    true
}

/// Builds the good-suffix table: one shift for each count of matched
/// trailing characters, from none to all but one. Its first entry is 1.
pub fn good_suffix_table(pattern: &[char]) -> (table: Vec<usize>)
    requires
        pattern@.len() <= isize::MAX,
    ensures
        table@.len() == if pattern@.len() == 0 { 1 } else { pattern@.len() },
        table@[0] == 1,
        forall|k: int| 0 <= k < table@.len() ==> table@[k] == good_suffix_shift(pattern@, k),
{
    let m = pattern.len();
    let mut table: Vec<usize> = Vec::new();
    table.push(1);
    let mut suffix_len: usize = 1;
    while suffix_len < m
        invariant
            m == pattern@.len(),
            m <= isize::MAX,
            suffix_len >= 1,
            suffix_len <= m || m == 0 && suffix_len == 1,
            table@.len() == suffix_len,
            forall|k: int| 0 <= k < table@.len() ==> table@[k] == good_suffix_shift(pattern@, k),
        decreases m - suffix_len,
    {
        // with neither a recurrence nor a prefix, move wholly past the match
        let mut shift = m + suffix_len;
        let mut found_full_suffix = false;

        // the last recurrence of the whole suffix decides
        let mut pos: usize = 0;
        while pos < m - suffix_len
            invariant
                m == pattern@.len(),
                0 < suffix_len < m,
                pos <= m - suffix_len,
                found_full_suffix == (last_recurrence(pattern@, suffix_len as int, pos as int)
                    >= 0),
                found_full_suffix ==> shift == m - last_recurrence(
                    pattern@,
                    suffix_len as int,
                    pos as int,
                ),
                !found_full_suffix ==> shift == m + suffix_len,
            decreases m - suffix_len - pos,
        {
            if same_run(pattern, pos, m - suffix_len, suffix_len) {
                if pos == 0 || pattern[pos - 1] != pattern[m - suffix_len - 1] {
                    shift = m - pos;
                    found_full_suffix = true;
                }
            }
            pos += 1;
        }

        if !found_full_suffix {
            // else the longest prefix of the pattern that ends the suffix
            let mut par_suffix_len = suffix_len - 1;
            while par_suffix_len >= 1 && !same_run(pattern, 0, m - par_suffix_len, par_suffix_len)
                invariant
                    m == pattern@.len(),
                    0 < suffix_len < m,
                    par_suffix_len < suffix_len,
                    longest_border_below(pattern@, suffix_len as int) == longest_border_below(
                        pattern@,
                        par_suffix_len + 1,
                    ),
                decreases par_suffix_len,
            {
                par_suffix_len -= 1;
            }
            shift = m - par_suffix_len + suffix_len;
        }
        table.push(shift);
        suffix_len += 1;
    }
    table
}

/// `last_recurrence` is a recurrence, and no later position below `bound` is.
pub proof fn lemma_last_recurrence(pattern: Seq<char>, k: int, bound: int)
    ensures
        -1 <= last_recurrence(pattern, k, bound),
        bound >= 0 ==> last_recurrence(pattern, k, bound) < bound,
        last_recurrence(pattern, k, bound) >= 0 ==> recurs_at(
            pattern,
            k,
            last_recurrence(pattern, k, bound),
        ),
        forall|pos: int|
            last_recurrence(pattern, k, bound) < pos < bound ==> !recurs_at(pattern, k, pos),
    decreases bound,
{
    if bound > 0 && !recurs_at(pattern, k, bound - 1) {
        lemma_last_recurrence(pattern, k, bound - 1);
    }
}

/// `longest_border_below` is the length of a border, and no greater length
/// below `bound` is.
pub proof fn lemma_longest_border_below(pattern: Seq<char>, bound: int)
    ensures
        0 <= longest_border_below(pattern, bound),
        bound >= 1 ==> longest_border_below(pattern, bound) < bound,
        is_border(pattern, longest_border_below(pattern, bound)),
        forall|len: int|
            longest_border_below(pattern, bound) < len < bound ==> !is_border(pattern, len),
    decreases bound,
{
    if bound > 1 && !is_border(pattern, bound - 1) {
        lemma_longest_border_below(pattern, bound - 1);
    }
}

/// A shift moves the pattern on by at least one place, and a table entry
/// stays below twice the pattern's length.
pub proof fn lemma_good_suffix_shift_advances(pattern: Seq<char>, k: int)
    requires
        0 <= k < pattern.len(),
    ensures
        k + 1 <= good_suffix_shift(pattern, k) <= pattern.len() + k,
{
    if k > 0 {
        lemma_last_recurrence(pattern, k, pattern.len() - k);
        lemma_longest_border_below(pattern, k);
    }
}

/// The bad-character rule skips no match. Let the pattern lie at `start` and
/// the text hold `c` against its position `j`. Then a match that lies `d`
/// places further on has `c` at its position `j - d`, so `d` is no less than
/// the distance from `j` back to the rightmost `c` of the pattern.
pub proof fn lemma_bad_character_skips(
    pattern: Seq<char>,
    text: Seq<char>,
    start: int,
    j: int,
    d: int,
)
    requires
        0 <= start,
        0 <= j < pattern.len(),
        d >= 1,
        matches_at(pattern, text, start + d),
    ensures
        d >= bad_character_shift(pattern, text[start + j]) - (pattern.len() - 1 - j),
{
    let c = text[start + j];
    lemma_rightmost(pattern, c);
    if j - d >= 0 {
        lemma_match_char(pattern, text, start + d, j - d);
    }
}

/// The good-suffix rule skips no match. Let the pattern lie at `start`, its
/// positions after `j` agree with the text and position `j` differ. Then a
/// match that lies `d` places further on is no nearer than the good-suffix
/// shift allows.
pub proof fn lemma_good_suffix_skips(
    pattern: Seq<char>,
    text: Seq<char>,
    start: int,
    j: int,
    d: int,
)
    requires
        0 <= start,
        start + pattern.len() <= text.len(),
        0 <= j < pattern.len(),
        forall|x: int| j < x < pattern.len() ==> text[start + x] == #[trigger] pattern[x],
        text[start + j] != pattern[j],
        d >= 1,
        matches_at(pattern, text, start + d),
    ensures
        d >= good_suffix_shift(pattern, pattern.len() - 1 - j) - (pattern.len() - 1 - j),
{
    let m = pattern.len() as int;
    let k = m - 1 - j;
    if k > 0 {
        lemma_last_recurrence(pattern, k, m - k);
        lemma_longest_border_below(pattern, k);
        let found = last_recurrence(pattern, k, m - k);
        if d <= m - k {
            // the matched suffix recurs in the pattern, d places to the left
            let pos = m - k - d;
            assert forall|x: int| 0 <= x < k implies #[trigger] pattern.subrange(pos, pos + k)[x]
                == pattern.subrange(m - k, m)[x] by {
                lemma_match_char(pattern, text, start + d, pos + x);
                assert(text[start + (m - k + x)] == pattern[m - k + x]);
            }
            if pos > 0 {
                lemma_match_char(pattern, text, start + d, pos - 1);
            }
            assert(recurs_at(pattern, k, pos));
        } else if found < 0 && d < m {
            // a prefix of the pattern ends the matched suffix
            let len = m - d;
            assert forall|x: int| 0 <= x < len implies #[trigger] pattern.subrange(0, len)[x]
                == pattern.subrange(m - len, m)[x] by {
                lemma_match_char(pattern, text, start + d, x);
                assert(text[start + (d + x)] == pattern[d + x]);
            }
            assert(is_border(pattern, len));
        }
    }
}

/// Decides whether `pattern` occurs in `text`. The pattern is compared right
/// to left at a text cursor that moves on, after a mismatch, by the larger
/// of the bad-character shift of the mismatching text character and the
/// good-suffix shift of the characters matched so far.
pub fn contains(pattern: &str, text: &str) -> (found: bool)
    ensures
        found == occurs(pattern@, text@),
{
    let p = decode(pattern);
    let t = decode(text);

    if p.is_empty() {
        assert(matches_at(p@, t@, 0));
        return true;
    }
    if t.is_empty() || t.len() < p.len() {
        return false;
    }
    if p.len() > isize::MAX as usize {
        // no table indexes a pattern that long
        return scan_offsets(&p, &t);
    }
    let bad_character_table = bad_character_table(&p);
    let good_suffix_table = good_suffix_table(&p);

    let m = p.len();
    let n = t.len();
    let mut i = m - 1;
    while i < n
        invariant
            p@ == pattern@,
            t@ == text@,
            m == p@.len(),
            n == t@.len(),
            1 <= m <= n,
            good_suffix_table@.len() == m,
            forall|k: int| 0 <= k < m ==> good_suffix_table@[k] == good_suffix_shift(p@, k),
            forall|key: u32|
                bad_character_table@.contains_key(key) <==> exists|x: int|
                    0 <= x < m && #[trigger] code(p@[x]) == key,
            forall|x: int|
                0 <= x < m ==> #[trigger] bad_character_table@[code(p@[x])]
                    == bad_character_shift(p@, p@[x]),
            i >= m - 1,
            forall|at: int| 0 <= at < i - (m - 1) ==> !matches_at(p@, t@, at),
        decreases n - i,
    {
        let ghost start = i - (m - 1);
        let mut j = m - 1;
        while j != 0 && t[i] == p[j]
            invariant
                m == p@.len(),
                n == t@.len(),
                j < m,
                i == start + j,
                0 <= start,
                start + m <= n,
                forall|x: int| j < x < m ==> t@[start + x] == #[trigger] p@[x],
            decreases j,
        {
            i -= 1;
            j -= 1;
        }

        let c = t[i];
        if c == p[j] {
            assert(t@.subrange(start, start + m) =~= p@);
            assert(matches_at(p@, t@, start));
            return true;
        }
        let bad_char_shift = match bad_character_table.get(&(c as u32)) {
            Some(shift) => *shift,
            None => m,
        };
        let good_suffix_shift = good_suffix_table[m - j - 1];
        let shift = if bad_char_shift > good_suffix_shift {
            bad_char_shift
        } else {
            good_suffix_shift
        };
        proof {
            let k = m - 1 - j;
            lemma_good_suffix_shift_advances(p@, k);
            lemma_rightmost(p@, c);
            if bad_character_table@.contains_key(code(c)) {
                let x = choose|x: int| 0 <= x < m && #[trigger] code(p@[x]) == code(c);
                lemma_code_injective(p@[x], c);
            } else {
                if rightmost(p@, c) >= 0 {
                    assert(code(p@[rightmost(p@, c)]) == code(c));
                }
            }
            assert(bad_char_shift == bad_character_shift(p@, c));
            assert forall|at: int| 0 <= at < start + shift - k implies !matches_at(p@, t@, at) by {
                if matches_at(p@, t@, at) {
                    if at == start {
                        lemma_match_char(p@, t@, start, j as int);
                    } else {
                        lemma_bad_character_skips(p@, t@, start, j as int, at - start);
                        lemma_good_suffix_skips(p@, t@, start, j as int, at - start);
                    }
                }
            }
        }
        if shift >= n - i {
            return false;
        }
        i += shift;
    }
    false
}

} // verus!
