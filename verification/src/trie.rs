//! A prefix tree over the words of a corpus: the word index again, with
//! one node for each prefix of a word.

use crate::text::decode;
use crate::words::{count, index_of, lines_of, occurrences, split_words, texts, words};
use vstd::prelude::*;

verus! {

/// A node of the prefix tree. The path from the root to a node spells a
/// prefix of a word; the node holds the line numbers of the word that ends
/// there. The view of the tree maps each word that occurs in the corpus to
/// the line numbers at which it occurs.
pub struct Trie {
    next: Vec<(char, Trie)>,
    occs: Vec<usize>,
}

/// The place of the first branch labelled `c`, or -1 where there is none.
spec fn branch(next: Seq<(char, Trie)>, c: char) -> int
    decreases next.len(),
{
    if next.len() == 0 {
        -1
    } else {
        let earlier = branch(next.drop_last(), c);
        if earlier >= 0 {
            earlier
        } else if next.last().0 == c {
            next.len() - 1
        } else {
            -1
        }
    }
}

/// `branch` is the place of a branch with that label, and -1 only where no
/// branch has it.
proof fn lemma_branch(next: Seq<(char, Trie)>, c: char)
    ensures
        -1 <= branch(next, c) < next.len(),
        branch(next, c) >= 0 ==> next[branch(next, c)].0 == c,
        branch(next, c) < 0 ==> forall|i: int| 0 <= i < next.len() ==> (#[trigger] next[i]).0 != c,
        forall|i: int| 0 <= i < branch(next, c) ==> (#[trigger] next[i]).0 != c,
    decreases next.len(),
{
    if next.len() > 0 {
        lemma_branch(next.drop_last(), c);
        assert forall|i: int| 0 <= i < next.len() - 1 implies next.drop_last()[i] == next[i] by {}
    }
}

/// Branches with the same labels in the same order give every label the
/// same place.
proof fn lemma_same_labels_same_branches(a: Seq<(char, Trie)>, b: Seq<(char, Trie)>, c: char)
    requires
        a.len() == b.len(),
        forall|i: int| 0 <= i < a.len() ==> (#[trigger] a[i]).0 == b[i].0,
    ensures
        branch(a, c) == branch(b, c),
    decreases a.len(),
{
    if a.len() > 0 {
        assert forall|i: int| 0 <= i < a.len() - 1 implies (#[trigger] a.drop_last()[i]).0
            == b.drop_last()[i].0 by {
            assert(a[i].0 == b[i].0);
        }
        lemma_same_labels_same_branches(a.drop_last(), b.drop_last(), c);
        assert(a[a.len() - 1].0 == b[a.len() - 1].0);
    }
}

impl Trie {
    /// The node that `path` leads to from this one.
    closed spec fn node_at(self, path: Seq<char>) -> Option<Trie>
        decreases path.len(),
    {
        if path.len() == 0 {
            Some(self)
        } else {
            let b = branch(self.next@, path[0]);
            if b < 0 {
                None
            } else {
                self.next@[b].1.node_at(path.drop_first())
            }
        }
    }

    /// The line numbers held at the end of `path`; none where no node is
    /// there.
    closed spec fn lines_at(self, path: Seq<char>) -> Seq<usize> {
        match self.node_at(path) {
            Some(node) => node.occs@,
            None => Seq::empty(),
        }
    }

    /// A node without branches and without line numbers.
    pub fn node() -> (node: Self)
        ensures
            node@ == Map::<Seq<char>, Seq<usize>>::empty(),
    {
        let node = Trie { next: Vec::new(), occs: Vec::new() };
        assert(node@ =~= Map::<Seq<char>, Seq<usize>>::empty());
        node
    }

    /// A tree with an empty view holds no line number at any node.
    proof fn lemma_empty_holds_nothing(self)
        requires
            self@ == Map::<Seq<char>, Seq<usize>>::empty(),
        ensures
            forall|path: Seq<char>| #[trigger] self.lines_at(path) == Seq::<usize>::empty(),
    {
        assert forall|path: Seq<char>| #[trigger] self.lines_at(path) == Seq::<usize>::empty() by {
            assert(!self@.contains_key(path));
            assert(self.lines_at(path) =~= Seq::<usize>::empty());
        }
    }

    /// The place of the branch labelled `c`.
    fn branch_of(&self, c: char) -> (place: Option<usize>)
        ensures
            match place {
                Some(b) => b < self.next@.len() && b == branch(self.next@, c),
                None => branch(self.next@, c) < 0,
            },
    {
        let mut i: usize = 0;
        while i < self.next.len()
            invariant
                i <= self.next@.len(),
                forall|k: int| 0 <= k < i ==> (#[trigger] self.next@[k]).0 != c,
            decreases self.next@.len() - i,
        {
            if self.next[i].0 == c {
                proof {
                    lemma_branch(self.next@, c);
                }
                return Some(i);
            }
            i += 1;
        }
        proof {
            lemma_branch(self.next@, c);
        }
        None
    }

    /// Records one more occurrence, at `line`, of the word that `word`
    /// spells from position `from` on.
    fn record(&mut self, word: &[char], from: usize, line: usize)
        requires
            from <= word@.len(),
        ensures
            forall|path: Seq<char>| #[trigger]
                final(self).lines_at(path) == if path == word@.skip(from as int) {
                    old(self).lines_at(path).push(line)
                } else {
                    old(self).lines_at(path)
                },
        decreases word@.len() - from,
    {
        if from == word.len() {
            self.occs.push(line);
            proof {
                assert forall|path: Seq<char>| #[trigger]
                    self.lines_at(path) == if path == word@.skip(from as int) {
                        old(self).lines_at(path).push(line)
                    } else {
                        old(self).lines_at(path)
                    } by {
                    if path.len() == 0 {
                        assert(path =~= word@.skip(from as int));
                    }
                }
            }
        } else {
            let c = word[from];
            let ghost before = self.next@;
            let b = match self.branch_of(c) {
                Some(b) => b,
                None => {
                    let node = Trie::node();
                    proof {
                        node.lemma_empty_holds_nothing();
                    }
                    self.next.push((c, node));
                    self.next.len() - 1
                },
            };
            let ghost grown = self.next@;
            proof {
                lemma_branch(before, c);
                if before.len() < grown.len() {
                    assert(grown.drop_last() =~= before);
                }
                assert(branch(grown, c) == b);
            }
            self.next[b].1.record(word, from + 1, line);
            proof {
                let after = self.next@;
                let rest = word@.skip(from as int);
                assert(rest.drop_first() =~= word@.skip(from + 1));
                assert(rest[0] == c);
                assert forall|path: Seq<char>| #[trigger]
                    self.lines_at(path) == if path == rest {
                        old(self).lines_at(path).push(line)
                    } else {
                        old(self).lines_at(path)
                    } by {
                    if path.len() > 0 {
                        let first = path[0];
                        lemma_same_labels_same_branches(grown, after, first);
                        lemma_branch(before, first);
                        lemma_branch(grown, first);
                        if before.len() < grown.len() {
                            assert(branch(grown, first) == if branch(before, first) >= 0 {
                                branch(before, first)
                            } else if first == c {
                                before.len() as int
                            } else {
                                -1
                            });
                        }
                        if first == c {
                            assert(after[b as int].1.lines_at(path.drop_first())
                                == if path.drop_first() == rest.drop_first() {
                                grown[b as int].1.lines_at(path.drop_first()).push(line)
                            } else {
                                grown[b as int].1.lines_at(path.drop_first())
                            });
                            if path.drop_first() == rest.drop_first() {
                                assert forall|k: int| 0 <= k < path.len() implies path[k]
                                    == rest[k] by {
                                    if k > 0 {
                                        assert(path[k] == path.drop_first()[k - 1]);
                                        assert(rest[k] == rest.drop_first()[k - 1]);
                                    }
                                }
                                assert(path.len() == path.drop_first().len() + 1);
                                assert(rest.len() == rest.drop_first().len() + 1);
                                assert(path =~= rest);
                            }
                        } else {
                            let other = branch(before, first);
                            if other >= 0 {
                                assert(after[other] == before[other]);
                            }
                        }
                    }
                }
            }
        }
    }

    /// Builds the prefix tree of `corpus`, whose lines are numbered from 0.
    pub fn new(corpus: &[&str]) -> (root: Self)
        ensures
            root@ == index_of(lines_of(corpus@)),
    {
        let mut root = Self::node();
        let ghost lines = lines_of(corpus@);
        proof {
            root.lemma_empty_holds_nothing();
        }

        let mut i: usize = 0;
        while i < corpus.len()
            invariant
                lines == lines_of(corpus@),
                i <= corpus@.len(),
                forall|w: Seq<char>| #[trigger]
                    root.lines_at(w) == occurrences(lines.take(i as int), w),
            decreases corpus@.len() - i,
        {
            let line_words = split_words(corpus[i]);
            let ghost done = lines.take(i as int);
            let ghost found = texts(line_words@);
            assert(found == words(lines[i as int]));

            let mut j: usize = 0;
            while j < line_words.len()
                invariant
                    j <= line_words@.len(),
                    found == texts(line_words@),
                    forall|w: Seq<char>| #[trigger]
                        root.lines_at(w) == occurrences(done, w) + Seq::new(
                            count(found.take(j as int), w),
                            |k: int| i,
                        ),
                decreases line_words@.len() - j,
            {
                let ghost before = root;
                root.record(line_words[j].as_slice(), 0, i);
                proof {
                    let word = line_words@[j as int]@;
                    assert(word.skip(0) =~= word);
                    assert(found.take(j + 1).drop_last() =~= found.take(j as int));
                    assert(found.take(j + 1).last() == word);
                    assert forall|w: Seq<char>| #[trigger]
                        root.lines_at(w) == occurrences(done, w) + Seq::new(
                            count(found.take(j + 1), w),
                            |k: int| i,
                        ) by {
                        assert(before.lines_at(w) == occurrences(done, w) + Seq::new(
                            count(found.take(j as int), w),
                            |k: int| i,
                        ));
                        if w == word {
                            assert(before.lines_at(w).push(i) =~= occurrences(done, w)
                                + Seq::new(count(found.take(j + 1), w), |k: int| i));
                        }
                    }
                }
                j += 1;
            }
            proof {
                let next = lines.take(i + 1);
                assert(next.drop_last() =~= done);
                assert(next.last() == lines[i as int]);
                assert(found.take(line_words@.len() as int) =~= found);
            }
            i += 1;
        }
        proof {
            assert(lines.take(corpus@.len() as int) =~= lines);
            assert(root@ =~= index_of(lines));
        }
        root
    }

    /// The line numbers at which `word` occurs, or `None` where it occurs
    /// nowhere.
    pub fn find(&self, word: &str) -> (found: Option<Vec<usize>>)
        ensures
            match found {
                Some(lines) => self@.contains_key(word@) && lines@ == self@[word@],
                None => !self@.contains_key(word@),
            },
    {
        let chars = decode(word);
        let mut current = self;
        let mut i: usize = 0;
        assert(chars@.skip(0) =~= chars@);
        while i < chars.len()
            invariant
                chars@ == word@,
                i <= chars@.len(),
                self.node_at(chars@) == current.node_at(chars@.skip(i as int)),
            decreases chars@.len() - i,
        {
            proof {
                assert(chars@.skip(i as int).drop_first() =~= chars@.skip(i + 1));
            }
            match current.branch_of(chars[i]) {
                Some(b) => current = &current.next[b].1,
                None => return None,
            }
            i += 1;
        }
        if current.occs.len() == 0 {
            None
        } else {
            Some(current.occs.clone())
        }
    }
}

impl View for Trie {
    type V = Map<Seq<char>, Seq<usize>>;

    closed spec fn view(&self) -> Map<Seq<char>, Seq<usize>> {
        Map::new(
            |word: Seq<char>| self.lines_at(word).len() > 0,
            |word: Seq<char>| self.lines_at(word),
        )
    }
}

} // verus!
