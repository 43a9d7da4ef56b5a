//! Words and where they stand: the splitting of a line at ASCII whitespace
//! and the line numbers at which a word occurs in a corpus.

use vstd::prelude::*;
use vstd::std_specs::iter::IteratorSpec;

verus! {

/// The ASCII whitespace characters: space, tab, line feed, form feed and
/// carriage return.
pub open spec fn is_space(c: char) -> bool {
    c == ' ' || c == '\t' || c == '\n' || c == '\x0C' || c == '\r'
}

/// The words of a line: its maximal runs of characters other than ASCII
/// whitespace, in order. A character either is whitespace and adds nothing,
/// or lengthens the word that the character before it belongs to, or begins
/// a new word.
pub open spec fn words(line: Seq<char>) -> Seq<Seq<char>>
    decreases line.len(),
{
    if line.len() == 0 {
        Seq::empty()
    } else {
        let before = line.drop_last();
        let sofar = words(before);
        if is_space(line.last()) {
            sofar
        } else if before.len() > 0 && !is_space(before.last()) {
            sofar.drop_last().push(sofar.last().push(line.last()))
        } else {
            sofar.push(seq![line.last()])
        }
    }
}

/// How often `word` stands in a sequence of words.
pub open spec fn count(among: Seq<Seq<char>>, word: Seq<char>) -> nat
    decreases among.len(),
{
    if among.len() == 0 {
        0
    } else {
        count(among.drop_last(), word) + if among.last() == word {
            1nat
        } else {
            0nat
        }
    }
}

/// The line numbers at which `word` occurs in the corpus, in ascending
/// order, each once for every time the word stands in that line.
pub open spec fn occurrences(lines: Seq<Seq<char>>, word: Seq<char>) -> Seq<usize>
    decreases lines.len(),
{
    if lines.len() == 0 {
        Seq::empty()
    } else {
        occurrences(lines.drop_last(), word) + Seq::new(
            count(words(lines.last()), word),
            |k: int| (lines.len() - 1) as usize,
        )
    }
}

/// The index of a corpus: each word that occurs in it, with its occurrences.
pub open spec fn index_of(lines: Seq<Seq<char>>) -> Map<Seq<char>, Seq<usize>> {
    Map::new(
        |word: Seq<char>| occurrences(lines, word).len() > 0,
        |word: Seq<char>| occurrences(lines, word),
    )
}

/// The lines of a corpus as sequences of characters.
pub open spec fn lines_of(corpus: Seq<&str>) -> Seq<Seq<char>> {
    Seq::new(corpus.len(), |i: int| corpus[i]@)
}

/// The contents of a list of words.
pub open spec fn texts(list: Seq<Vec<char>>) -> Seq<Seq<char>> {
    Seq::new(list.len(), |i: int| list[i]@)
}

/// Decides whether `c` is ASCII whitespace.
pub fn is_ascii_space(c: char) -> (space: bool)
    ensures
        space == is_space(c),
{
    c == ' ' || c == '\t' || c == '\n' || c == '\x0C' || c == '\r'
}

/// Splits a line into its words.
pub fn split_words(line: &str) -> (found: Vec<Vec<char>>)
    ensures
        texts(found@) == words(line@),
{
    let mut found: Vec<Vec<char>> = Vec::new();
    let mut current: Vec<char> = Vec::new();
    for c in it: line.chars()
        invariant
            it.seq() == line@,
            current@.len() > 0 <==> it.index() > 0 && !is_space(line@[it.index() - 1]),
            words(line@.take(it.index())) == if current@.len() > 0 {
                texts(found@).push(current@)
            } else {
                texts(found@)
            },
    {
        let ghost before = line@.take(it.index());
        let ghost after = line@.take(it.index() + 1);
        let ghost sofar = words(before);
        proof {
            assert(after.drop_last() =~= before);
            assert(after.last() == c);
            if before.len() > 0 {
                assert(before.last() == line@[it.index() - 1]);
            }
        }
        if is_ascii_space(c) {
            if current.len() > 0 {
                assert(texts(found@.push(current)) =~= texts(found@).push(current@));
                found.push(current);
                current = Vec::new();
            }
            assert(words(after) == sofar);
        } else {
            proof {
                if current@.len() > 0 {
                    assert(sofar.drop_last() =~= texts(found@));
                    assert(sofar.last() == current@);
                    assert(words(after) == texts(found@).push(current@.push(c)));
                } else {
                    assert(seq![c] =~= current@.push(c));
                    assert(words(after) == texts(found@).push(current@.push(c)));
                }
            }
            current.push(c);
        }
    }
    assert(line@.take(line@.len() as int) =~= line@);
    if current.len() > 0 {
        assert(texts(found@.push(current)) =~= texts(found@).push(current@));
        found.push(current);
    }
    found
}

} // verus!
