use string_search::index::Index;
use string_search::trie::Trie;
use string_search::words::{is_ascii_space, split_words};

const CORPUS: [&'static str; 10] = [
    "Cats nap often, basking in warm spots.",
    "Raindrops patter softly on windowpanes.",
    "Stars twinkle brightly in the night.",
    "Rivers flow quietly through lush valleys.",
    "Birds chirp merrily at dawn's break.",
    "Autumn leaves rustle underfoot, falling gently.",
    "Waves crash rhythmically against rocky shores.",
    "Children giggle while playing in parks.",
    "Sunflowers turn eagerly towards the sun.",
    "Snowflakes drift down gracefully from the sky.",
];

fn chars(s: &str) -> Vec<char> {
    s.chars().collect()
}

#[test]
fn index_test() {
    let index = Index::new(&CORPUS);

    let in_occ = index.find("in");
    assert_eq!(in_occ, Some(vec![0, 2, 7]));

    let in_occ = index.find("on");
    assert_eq!(in_occ, Some(vec![1]));

    let in_occ = index.find("the");
    assert_eq!(in_occ, Some(vec![2, 8, 9]));
}

#[test]
fn trie_test() {
    let index = Trie::new(&CORPUS);

    let in_occ = index.find("in");
    assert_eq!(in_occ, Some(vec![0, 2, 7]));

    let in_occ = index.find("on");
    assert_eq!(in_occ, Some(vec![1]));

    let in_occ = index.find("the");
    assert_eq!(in_occ, Some(vec![2, 8, 9]));
}

#[test]
fn absent_words_are_not_found() {
    let index = Index::new(&CORPUS);
    let trie = Trie::new(&CORPUS);
    for word in ["", "cats", "Cat", "th", "sky", "sky..", "zebra", "in the"] {
        assert_eq!(index.find(word), None, "{word:?}");
        assert_eq!(trie.find(word), None, "{word:?}");
    }
}

#[test]
fn words_keep_their_punctuation() {
    let index = Index::new(&CORPUS);
    let trie = Trie::new(&CORPUS);
    assert_eq!(index.find("sky."), Some(vec![9]));
    assert_eq!(trie.find("sky."), Some(vec![9]));
    assert_eq!(index.find("dawn's"), Some(vec![4]));
    assert_eq!(trie.find("dawn's"), Some(vec![4]));
}

#[test]
fn a_line_is_listed_once_for_each_time_the_word_stands_in_it() {
    let corpus = ["a b a", "", "b", "a  a\ta"];
    let index = Index::new(&corpus);
    let trie = Trie::new(&corpus);
    assert_eq!(index.find("a"), Some(vec![0, 0, 3, 3, 3]));
    assert_eq!(trie.find("a"), Some(vec![0, 0, 3, 3, 3]));
    assert_eq!(index.find("b"), Some(vec![0, 2]));
    assert_eq!(trie.find("b"), Some(vec![0, 2]));
}

#[test]
fn index_and_trie_agree_on_every_word() {
    let index = Index::new(&CORPUS);
    let trie = Trie::new(&CORPUS);
    for line in CORPUS {
        for word in line.split_ascii_whitespace() {
            let found = index.find(word);
            assert!(found.is_some(), "{word:?}");
            assert_eq!(found, trie.find(word), "{word:?}");
        }
    }
}

#[test]
fn empty_corpus_holds_no_word() {
    let corpus: [&str; 0] = [];
    assert_eq!(Index::new(&corpus).find("a"), None);
    assert_eq!(Trie::new(&corpus).find("a"), None);
    assert_eq!(Trie::node().find("a"), None);
    assert_eq!(Trie::node().find(""), None);
}

#[test]
fn lines_split_at_ascii_whitespace() {
    assert_eq!(split_words(""), Vec::<Vec<char>>::new());
    assert_eq!(split_words(" \t\r\n\x0C"), Vec::<Vec<char>>::new());
    assert_eq!(split_words("one"), vec![chars("one")]);
    assert_eq!(
        split_words("  one\ttwo \n three\r\x0Cfour  "),
        vec![chars("one"), chars("two"), chars("three"), chars("four")]
    );
    // U+00A0 and U+2003 are whitespace, but not ASCII
    assert_eq!(
        split_words("a\u{A0}b\u{2003}c d"),
        vec![chars("a\u{A0}b\u{2003}c"), chars("d")]
    );
}

#[test]
fn splitting_is_that_of_the_standard_library() {
    for line in CORPUS.iter().chain(["", " ", "a", " a", "a ", "\ta  b\n"].iter()) {
        let expected: Vec<Vec<char>> = line.split_ascii_whitespace().map(chars).collect();
        assert_eq!(split_words(line), expected, "{line:?}");
    }
}

#[test]
fn ascii_space_characters() {
    for c in [' ', '\t', '\n', '\x0C', '\r'] {
        assert!(is_ascii_space(c));
    }
    for c in ['a', '\x0B', '\0', '\u{A0}', '\u{2003}'] {
        assert!(!is_ascii_space(c));
    }
    for c in '\0'..='\u{FF}' {
        assert_eq!(is_ascii_space(c), c.is_ascii_whitespace(), "{c:?}");
    }
}
