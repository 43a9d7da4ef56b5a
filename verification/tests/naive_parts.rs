use string_search::naive::contains_inner;
use string_search::text::{decode, scan_offsets};

fn chars(s: &str) -> Vec<char> {
    s.chars().collect()
}

#[test]
fn naive_prefix_test() {
    assert!(contains_inner(&chars("ab"), &chars("abc")));
    assert!(contains_inner(&chars("abc"), &chars("abc")));
    assert!(contains_inner(&chars(""), &chars("abc")));
    assert!(!contains_inner(&chars("abc"), &chars("ab")));
    assert!(!contains_inner(&chars("bc"), &chars("abc")));
    assert!(!contains_inner(&chars("a"), &chars("")));
}

#[test]
fn decode_gives_the_characters() {
    assert_eq!(decode(""), Vec::<char>::new());
    assert_eq!(decode("abc"), vec!['a', 'b', 'c']);
    assert_eq!(decode("wörld"), vec!['w', 'ö', 'r', 'l', 'd']);
}

#[test]
fn scan_offsets_finds_the_pattern() {
    assert!(scan_offsets(&chars("cde"), &chars("abcde")));
    assert!(scan_offsets(&chars(""), &chars("")));
    assert!(scan_offsets(&chars("abcde"), &chars("abcde")));
    assert!(!scan_offsets(&chars("ced"), &chars("abcde")));
    assert!(!scan_offsets(&chars("abcdef"), &chars("abcde")));
}
