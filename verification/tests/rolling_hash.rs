use string_search::rabin_karp::{contains_inner, RollingHasher};

fn chars(s: &str) -> Vec<char> {
    s.chars().collect()
}

#[test]
fn rolled_hash_matches_direct_hash() {
    let text: Vec<char> = "abc".chars().collect();
    let mut hasher_a = RollingHasher::new(&text);
    hasher_a.roll('a', 'a');

    let text: Vec<char> = "bca".chars().collect();
    let hasher_b = RollingHasher::new(&text);

    assert_eq!(hasher_a.hash(), hasher_b.hash());
}

#[test]
fn direct_hash_values() {
    // 97 * 100 + 98 * 10 + 99 = 10779 = 42 * 256 + 27
    assert_eq!(RollingHasher::new(&chars("abc")).hash(), 27);
    // 98 * 100 + 99 * 10 + 97 = 10887 = 42 * 256 + 135
    assert_eq!(RollingHasher::new(&chars("bca")).hash(), 135);
    assert_eq!(RollingHasher::new(&chars("a")).hash(), 97);
    assert_eq!(RollingHasher::new(&chars("")).hash(), 0);
    // 0x10FFFF = 1114111 = 4351 * 256 + 255
    assert_eq!(RollingHasher::new(&['\u{10FFFF}']).hash(), 255);
}

#[test]
fn rolled_hash_value() {
    let mut hasher = RollingHasher::new(&chars("abc"));
    hasher.roll('a', 'a');
    assert_eq!(hasher.hash(), 135);
    hasher.roll('z', 'b');
    // "caz": 99 * 100 + 97 * 10 + 122 = 10992 = 42 * 256 + 240
    assert_eq!(hasher.hash(), 240);
}

#[test]
fn rolling_follows_the_window() {
    let text = chars("the quick brown fox jumps over the lazy dog, again and again");
    for window in 1..=30 {
        let mut hasher = RollingHasher::new(&text[..window]);
        for start in 1..=text.len() - window {
            hasher.roll(text[start + window - 1], text[start - 1]);
            let direct = RollingHasher::new(&text[start..start + window]);
            assert_eq!(hasher.hash(), direct.hash(), "window {window}, start {start}");
        }
    }
}

#[test]
fn rolling_a_window_of_one() {
    let mut hasher = RollingHasher::new(&['x']);
    hasher.roll('y', 'x');
    assert_eq!(hasher.hash(), 'y' as u64);
}

#[test]
fn rolling_an_empty_window_changes_nothing() {
    let mut hasher = RollingHasher::new(&[]);
    hasher.roll('a', 'b');
    assert_eq!(hasher.hash(), 0);
}

#[test]
fn long_windows_do_not_overflow() {
    let text: Vec<char> = "z".repeat(100).chars().collect();
    let mut hasher = RollingHasher::new(&text[..50]);
    let direct = RollingHasher::new(&text[1..51]);
    hasher.roll('z', 'z');
    assert_eq!(hasher.hash(), direct.hash());
    assert!(hasher.hash() < 256);
}

#[test]
fn rabin_karp_prefix_test() {
    assert!(contains_inner(&chars("ab"), &chars("abc")));
    assert!(contains_inner(&chars(""), &chars("")));
    assert!(!contains_inner(&chars("abc"), &chars("ab")));
    assert!(!contains_inner(&chars("b"), &chars("abc")));
}
