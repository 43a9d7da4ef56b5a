use string_search::{boyer_moore, knuth_morris_pratt, naive, rabin_karp};

const TEST_PATTERN: &str = "abcde";

const TEST_CASES: [(&str, bool); 10] = [
    ("abcdefghij", true),
    ("12345abcde", true),
    ("klabcdefgh", true),
    ("qrabcdefst", true),
    ("vwxyzabcde", true),
    ("ijklmnopab", false),
    ("fghijklmno", false),
    ("pqrstuvwxyz", false),
    ("lmnopqrst", false),
    ("uvwxyzabcd", false),
];

fn test_matcher(matcher: fn(&str, &str) -> bool) {
    for (text, expected) in TEST_CASES {
        let actual = matcher(TEST_PATTERN, text);
        if actual != expected {
            panic!(
                "expected {} for \"{text}\"",
                if expected { "match" } else { "no match" }
            );
        }
    }
}

const MATCHERS: [(&str, fn(&str, &str) -> bool); 4] = [
    ("naive", naive::contains),
    ("rabin_karp", rabin_karp::contains),
    ("boyer_moore", boyer_moore::contains),
    ("knuth_morris_pratt", knuth_morris_pratt::contains),
];

/// The plain definition: the pattern equals some window of the text.
fn occurs(pattern: &str, text: &str) -> bool {
    let p: Vec<char> = pattern.chars().collect();
    let t: Vec<char> = text.chars().collect();
    if p.len() > t.len() {
        return false;
    }
    (0..=t.len() - p.len()).any(|at| t[at..at + p.len()] == p[..])
}

/// Every string over `alphabet` of length at most `max_len`.
fn strings(alphabet: &[char], max_len: usize) -> Vec<String> {
    let mut all = vec![String::new()];
    let mut last = vec![String::new()];
    for _ in 0..max_len {
        let mut next = Vec::new();
        for s in &last {
            for c in alphabet {
                let mut longer = s.clone();
                longer.push(*c);
                next.push(longer);
            }
        }
        all.extend(next.iter().cloned());
        last = next;
    }
    all
}

#[test]
fn naive() {
    test_matcher(naive::contains);
}

#[test]
fn rabin_karp() {
    test_matcher(rabin_karp::contains);
}

#[test]
fn boyer_moore() {
    test_matcher(boyer_moore::contains);
}

#[test]
fn knuth_morris_pratt() {
    test_matcher(knuth_morris_pratt::contains);
}

#[test]
fn searches_agree_on_all_short_strings() {
    let patterns = strings(&['a', 'b'], 4);
    let texts = strings(&['a', 'b'], 7);
    for pattern in &patterns {
        for text in &texts {
            let expected = occurs(pattern, text);
            for (name, matcher) in MATCHERS {
                assert_eq!(
                    matcher(pattern, text),
                    expected,
                    "{name}: pattern {pattern:?}, text {text:?}"
                );
            }
        }
    }
}

#[test]
fn searches_agree_on_three_letters() {
    let patterns = strings(&['a', 'b', 'c'], 3);
    let texts = strings(&['a', 'b', 'c'], 5);
    for pattern in &patterns {
        for text in &texts {
            let expected = occurs(pattern, text);
            for (name, matcher) in MATCHERS {
                assert_eq!(
                    matcher(pattern, text),
                    expected,
                    "{name}: pattern {pattern:?}, text {text:?}"
                );
            }
        }
    }
}

#[test]
fn pattern_occurs_in_itself() {
    for pattern in ["a", "ab", "aaa", "abcabc", "bcacbcbc", "héllo, wörld"] {
        for (name, matcher) in MATCHERS {
            assert!(matcher(pattern, pattern), "{name}: {pattern:?}");
        }
    }
}

#[test]
fn empty_pattern_occurs_everywhere() {
    for text in ["", "a", "abcde", "   "] {
        for (name, matcher) in MATCHERS {
            assert!(matcher("", text), "{name}: {text:?}");
        }
    }
}

#[test]
fn nothing_occurs_in_empty_text() {
    for pattern in ["a", "ab", "abcde"] {
        for (name, matcher) in MATCHERS {
            assert!(!matcher(pattern, ""), "{name}: {pattern:?}");
        }
    }
}

#[test]
fn pattern_longer_than_text_is_absent() {
    for (name, matcher) in MATCHERS {
        assert!(!matcher("abcdef", "abcde"), "{name}");
        assert!(!matcher("ab", "a"), "{name}");
    }
}

#[test]
fn single_character_pattern() {
    for (name, matcher) in MATCHERS {
        assert!(matcher("a", "bca"), "{name}");
        assert!(matcher("a", "abc"), "{name}");
        assert!(!matcher("a", "b"), "{name}");
        assert!(!matcher("a", "bcd"), "{name}");
    }
}

#[test]
fn first_character_is_compared() {
    for (name, matcher) in MATCHERS {
        assert!(!matcher("ab", "cb"), "{name}");
        assert!(matcher("abb", "cabb"), "{name}");
        assert!(!matcher("abb", "cbbb"), "{name}");
    }
}

#[test]
fn characters_are_code_points() {
    for (name, matcher) in MATCHERS {
        assert!(matcher("ö", "wörld"), "{name}");
        assert!(matcher("日本", "これは日本語"), "{name}");
        assert!(!matcher("本日", "これは日本語"), "{name}");
    }
}

#[test]
fn long_pattern_with_repeats() {
    let pattern = "ab".repeat(20) + "c";
    let hit = "ab".repeat(40) + "c" + &"ab".repeat(5);
    let miss = "ab".repeat(60);
    for (name, matcher) in MATCHERS {
        assert!(matcher(&pattern, &hit), "{name}");
        assert!(!matcher(&pattern, &miss), "{name}");
    }
}
