//! A word index: for each word of a corpus, the numbers of the lines in
//! which it stands.

use crate::text::decode;
use crate::words::{count, index_of, lines_of, occurrences, split_words, texts, words};
use vstd::prelude::*;
use vstd::slice::slice_to_vec;

verus! {

/// One word with the line numbers recorded for it.
struct Entry {
    word: Vec<char>,
    lines: Vec<usize>,
}

/// The index of a corpus of lines. Its view maps each word that occurs in
/// the corpus to the line numbers at which it occurs.
pub struct Index {
    entries: Vec<Entry>,
}

/// The place of the first entry for `word`, or -1 where there is none.
spec fn slot(entries: Seq<Entry>, word: Seq<char>) -> int
    decreases entries.len(),
{
    if entries.len() == 0 {
        -1
    } else {
        let earlier = slot(entries.drop_last(), word);
        if earlier >= 0 {
            earlier
        } else if entries.last().word@ == word {
            entries.len() - 1
        } else {
            -1
        }
    }
}

/// `slot` is the place of an entry for the word, and -1 only where no entry
/// is for it.
proof fn lemma_slot(entries: Seq<Entry>, word: Seq<char>)
    ensures
        -1 <= slot(entries, word) < entries.len(),
        slot(entries, word) >= 0 ==> entries[slot(entries, word)].word@ == word,
        slot(entries, word) < 0 ==> forall|i: int|
            0 <= i < entries.len() ==> (#[trigger] entries[i]).word@ != word,
        forall|i: int| 0 <= i < slot(entries, word) ==> (#[trigger] entries[i]).word@ != word,
    decreases entries.len(),
{
    if entries.len() > 0 {
        lemma_slot(entries.drop_last(), word);
        assert forall|i: int| 0 <= i < entries.len() - 1 implies entries.drop_last()[i]
            == entries[i] by {}
    }
}

/// What a map holds for a word: its line numbers, or none.
pub open spec fn lines_for(map: Map<Seq<char>, Seq<usize>>, word: Seq<char>) -> Seq<usize> {
    if map.contains_key(word) {
        map[word]
    } else {
        Seq::empty()
    }
}

impl View for Index {
    type V = Map<Seq<char>, Seq<usize>>;

    closed spec fn view(&self) -> Map<Seq<char>, Seq<usize>> {
        Map::new(
            |word: Seq<char>| slot(self.entries@, word) >= 0,
            |word: Seq<char>| self.entries@[slot(self.entries@, word)].lines@,
        )
    }
}

/// Decides whether two runs of characters are equal.
fn same_word(a: &[char], b: &[char]) -> (same: bool)
    ensures
        same == (a@ == b@),
{
    if a.len() != b.len() {
        return false;
    }
    let mut i: usize = 0;
    while i < a.len()
        invariant
            a@.len() == b@.len(),
            i <= a@.len(),
            forall|k: int| 0 <= k < i ==> a@[k] == b@[k],
        decreases a@.len() - i,
    {
        if a[i] != b[i] {
            return false;
        }
        i += 1;
    }
    assert(a@ =~= b@);
    true
}

impl Index {
    /// An index that holds no word.
    fn empty() -> (index: Self)
        ensures
            index@ == Map::<Seq<char>, Seq<usize>>::empty(),
    {
        let index = Index { entries: Vec::new() };
        assert(index@ =~= Map::<Seq<char>, Seq<usize>>::empty());
        index
    }

    /// The place of the entry for `word`.
    fn position(&self, word: &[char]) -> (place: Option<usize>)
        ensures
            match place {
                Some(i) => i < self.entries@.len() && i == slot(self.entries@, word@),
                None => slot(self.entries@, word@) < 0,
            },
    {
        let mut i: usize = 0;
        while i < self.entries.len()
            invariant
                i <= self.entries@.len(),
                forall|k: int| 0 <= k < i ==> (#[trigger] self.entries@[k]).word@ != word@,
            decreases self.entries@.len() - i,
        {
            if same_word(self.entries[i].word.as_slice(), word) {
                proof {
                    lemma_slot(self.entries@, word@);
                }
                return Some(i);
            }
            i += 1;
        }
        proof {
            lemma_slot(self.entries@, word@);
        }
        None
    }

    /// Records one more occurrence of `word`, at `line`.
    fn record(&mut self, word: &[char], line: usize)
        ensures
            final(self)@ == old(self)@.insert(word@, lines_for(old(self)@, word@).push(line)),
    {
        let ghost before = self.entries@;
        match self.position(word) {
            Some(i) => {
                self.entries[i].lines.push(line);
                proof {
                    let after = self.entries@;
                    assert(after.len() == before.len());
                    assert(after[i as int].word == before[i as int].word);
                    assert(after[i as int].lines@ == before[i as int].lines@.push(line));
                    assert(forall|k: int|
                        0 <= k < before.len() && k != i ==> after[k] == before[k]);
                    assert forall|w: Seq<char>| slot(after, w) == slot(before, w) by {
                        lemma_same_words_same_slots(before, after, w);
                    }
                    lemma_slot(before, word@);
                    assert forall|w: Seq<char>| w != word@ && slot(before, w) >= 0 implies after[slot(
                        before,
                        w,
                    )] == before[slot(before, w)] by {
                        lemma_slot(before, w);
                    }
                }
            },
            None => {
                let mut lines: Vec<usize> = Vec::new();
                lines.push(line);
                self.entries.push(Entry { word: slice_to_vec(word), lines });
                proof {
                    let after = self.entries@;
                    assert(after.drop_last() =~= before);
                    assert(after.last().word@ == word@);
                    assert(after.last().lines@ =~= seq![line]);
                    assert forall|w: Seq<char>| slot(after, w) == if slot(before, w) >= 0 {
                        slot(before, w)
                    } else if w == word@ {
                        before.len() as int
                    } else {
                        -1
                    } by {}
                    assert forall|w: Seq<char>| slot(before, w) >= 0 implies after[slot(before, w)]
                        == before[slot(before, w)] by {
                        lemma_slot(before, w);
                    }
                    lemma_slot(before, word@);
                    assert(Seq::<usize>::empty().push(line) =~= seq![line]);
                }
            },
        }
        assert(self@ =~= old(self)@.insert(word@, lines_for(old(self)@, word@).push(line)));
    }

    /// Builds the index of `corpus`, whose lines are numbered from 0.
    pub fn new(corpus: &[&str]) -> (index: Self)
        ensures
            index@ == index_of(lines_of(corpus@)),
    {
        let mut index = Index::empty();
        let ghost lines = lines_of(corpus@);

        let mut i: usize = 0;
        while i < corpus.len()
            invariant
                lines == lines_of(corpus@),
                i <= corpus@.len(),
                forall|w: Seq<char>| #[trigger]
                    lines_for(index@, w) == occurrences(lines.take(i as int), w),
                forall|w: Seq<char>| #[trigger] index@.contains_key(w) ==> index@[w].len() > 0,
            decreases corpus@.len() - i,
        {
            let line_words = split_words(corpus[i]);
            let ghost done = lines.take(i as int);
            let ghost found = texts(line_words@);
            assert(found == words(lines[i as int]));

            let mut j: usize = 0;
            while j < line_words.len()
                invariant
                    j <= line_words@.len(),
                    found == texts(line_words@),
                    forall|w: Seq<char>| #[trigger]
                        lines_for(index@, w) == occurrences(done, w) + Seq::new(
                            count(found.take(j as int), w),
                            |k: int| i,
                        ),
                    forall|w: Seq<char>| #[trigger]
                        index@.contains_key(w) ==> index@[w].len() > 0,
                decreases line_words@.len() - j,
            {
                let ghost before = index@;
                index.record(line_words[j].as_slice(), i);
                proof {
                    let word = line_words@[j as int]@;
                    assert(found.take(j + 1).drop_last() =~= found.take(j as int));
                    assert(found.take(j + 1).last() == word);
                    assert forall|w: Seq<char>| #[trigger]
                        lines_for(index@, w) == occurrences(done, w) + Seq::new(
                            count(found.take(j + 1), w),
                            |k: int| i,
                        ) by {
                        assert(lines_for(before, w) == occurrences(done, w) + Seq::new(
                            count(found.take(j as int), w),
                            |k: int| i,
                        ));
                        if w == word {
                            assert(lines_for(index@, w) =~= lines_for(before, w).push(i));
                            assert(lines_for(before, w).push(i) =~= occurrences(done, w)
                                + Seq::new(count(found.take(j + 1), w), |k: int| i));
                        }
                    }
                }
                j += 1;
            }
            proof {
                let next = lines.take(i + 1);
                assert(next.drop_last() =~= done);
                assert(next.last() == lines[i as int]);
                assert(found.take(line_words@.len() as int) =~= found);
            }
            i += 1;
        }
        proof {
            assert(lines.take(corpus@.len() as int) =~= lines);
            assert forall|w: Seq<char>| index@.contains_key(w) <==> occurrences(lines, w).len()
                > 0 by {
                assert(lines_for(index@, w) == occurrences(lines, w));
            }
            assert forall|w: Seq<char>| index@.contains_key(w) implies index@[w] == occurrences(
                lines,
                w,
            ) by {
                assert(lines_for(index@, w) == occurrences(lines, w));
            }
            assert(index@ =~= index_of(lines));
        }
        index
    }

    /// The line numbers at which `word` occurs, or `None` where it occurs
    /// nowhere.
    pub fn find(&self, word: &str) -> (found: Option<Vec<usize>>)
        ensures
            match found {
                Some(lines) => self@.contains_key(word@) && lines@ == self@[word@],
                None => !self@.contains_key(word@),
            },
    {
        let chars = decode(word);
        match self.position(chars.as_slice()) {
            Some(i) => Some(self.entries[i].lines.clone()),
            None => None,
        }
    }
}

/// Entries with the same words in the same order give every word the same
/// place.
proof fn lemma_same_words_same_slots(a: Seq<Entry>, b: Seq<Entry>, word: Seq<char>)
    requires
        a.len() == b.len(),
        forall|i: int| 0 <= i < a.len() ==> (#[trigger] a[i]).word@ == b[i].word@,
    ensures
        slot(a, word) == slot(b, word),
    decreases a.len(),
{
    if a.len() > 0 {
        assert forall|i: int| 0 <= i < a.len() - 1 implies (#[trigger] a.drop_last()[i]).word@
            == b.drop_last()[i].word@ by {
            assert(a[i].word@ == b[i].word@);
        }
        lemma_same_words_same_slots(a.drop_last(), b.drop_last(), word);
        assert(a[a.len() - 1].word@ == b[a.len() - 1].word@);
    }
}

} // verus!
