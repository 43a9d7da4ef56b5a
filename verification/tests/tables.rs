use std::collections::HashMap;
use string_search::boyer_moore::{bad_character_table, good_suffix_table};
use string_search::knuth_morris_pratt::partial_match_table;

fn chars(s: &str) -> Vec<char> {
    s.chars().collect()
}

#[test]
fn bad_character_table_correct() {
    let pattern: Vec<char> = "abac".chars().collect();
    let table = bad_character_table(&pattern);
    assert_eq!(
        table,
        HashMap::from([('a' as u32, 1), ('b' as u32, 2), ('c' as u32, 0)])
    );
}

#[test]
fn good_suffix_table_correct() {
    let pattern: Vec<char> = "bcacbcbc".chars().collect();
    let table = good_suffix_table(&pattern);
    assert_eq!(table, vec![1, 5, 8, 5, 10, 11, 12, 13]);
}

#[test]
fn partial_match_table_correct() {
    let pattern: Vec<char> = "abcdabd".chars().collect();
    let table = partial_match_table(&pattern);
    assert_eq!(table, vec![-1, 0, 0, 0, -1, 0, 2]);
}

#[test]
fn bad_character_table_holds_the_first_character() {
    let table = bad_character_table(&chars("abb"));
    assert_eq!(table, HashMap::from([('a' as u32, 2), ('b' as u32, 0)]));
}

#[test]
fn bad_character_table_of_short_patterns() {
    assert_eq!(bad_character_table(&chars("")), HashMap::new());
    assert_eq!(
        bad_character_table(&chars("x")),
        HashMap::from([('x' as u32, 0)])
    );
}

#[test]
fn good_suffix_table_of_short_patterns() {
    assert_eq!(good_suffix_table(&chars("")), vec![1]);
    assert_eq!(good_suffix_table(&chars("a")), vec![1]);
    // "b" recurs nowhere before the end and no prefix ends it
    assert_eq!(good_suffix_table(&chars("ab")), vec![1, 3]);
    // "a" recurs at the start
    assert_eq!(good_suffix_table(&chars("aa")), vec![1, 2]);
}

#[test]
fn good_suffix_table_without_recurrence() {
    // nothing recurs in "abcd": each shift is the length plus the matched count
    assert_eq!(good_suffix_table(&chars("abcd")), vec![1, 5, 6, 7]);
}

#[test]
fn good_suffix_table_prefers_the_last_recurrence() {
    // "b" after another character than "a": at 1 (after "c") and at 3 (after "d")
    assert_eq!(good_suffix_table(&chars("cbdbab"))[1], 3);
}

#[test]
fn good_suffix_table_falls_back_on_a_prefix() {
    // "ab" recurs at the start; "bab" does not recur, but the prefix "ab" ends it
    assert_eq!(good_suffix_table(&chars("abxbab")), vec![1, 3, 6, 7, 8, 9]);
}

#[test]
fn partial_match_table_of_short_patterns() {
    assert_eq!(partial_match_table(&chars("")), vec![-1]);
    assert_eq!(partial_match_table(&chars("a")), vec![-1]);
    assert_eq!(partial_match_table(&chars("aa")), vec![-1, -1]);
    assert_eq!(partial_match_table(&chars("ab")), vec![-1, 0]);
}

#[test]
fn partial_match_table_of_repeats() {
    assert_eq!(
        partial_match_table(&chars("abacabab")),
        vec![-1, 0, -1, 1, -1, 0, -1, 3]
    );
    assert_eq!(
        partial_match_table(&chars("aaaa")),
        vec![-1, -1, -1, -1]
    );
}
