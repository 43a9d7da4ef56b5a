//! Rabin–Karp search: compare the pattern only with those windows of the
//! text whose rolling hash equals the pattern's hash.

use crate::text::{decode, is_prefix, matches_at, occurs};
use vstd::arithmetic::div_mod::{
    lemma_fundamental_div_mod, lemma_mod_multiples_vanish, lemma_mul_mod_noop_right,
};
use vstd::prelude::*;

verus! {

/// The base of the polynomial hash.
pub const MULTIPLIER: u64 = 10;

/// The modulus by which every hash value is reduced.
pub const MODULO: u64 = 256;

/// The number that stands for a character in the hash: its code point.
pub open spec fn ord(c: char) -> int {
    c as int
}

/// `MULTIPLIER` raised to `exp`.
pub open spec fn power(exp: int) -> int
    decreases exp,
{
    if exp <= 0 {
        1
    } else {
        MULTIPLIER * power(exp - 1)
    }
}

/// The window read as a number in base `MULTIPLIER`: each character weighs
/// `MULTIPLIER` raised to the count of characters after it.
pub open spec fn polynomial(window: Seq<char>) -> int
    decreases window.len(),
{
    if window.len() == 0 {
        0
    } else {
        ord(window[0]) * power(window.len() - 1) + polynomial(window.drop_first())
    }
}

/// The hash of a window, computed from scratch.
pub open spec fn window_hash(window: Seq<char>) -> int {
    polynomial(window) % (MODULO as int)
}

/// The hash after one step of the window, computed from the hash before it:
/// take off what the outgoing character weighs, multiply what is left and
/// add the incoming character. A window of no characters stays as it is.
pub open spec fn rolled_hash(hash: int, window: int, in_ch: char, out_ch: char) -> int {
    if window <= 0 {
        hash
    } else {
        let previous = (ord(out_ch) * power(window - 1)) % (MODULO as int);
        let rest = (hash + MODULO - previous) % (MODULO as int);
        (rest * MULTIPLIER + ord(in_ch)) % (MODULO as int)
    }
}

/// Numbers that differ by a multiple of `MODULO` have the same remainder.
proof fn lemma_congruent(a: int, b: int, q: int)
    requires
        a == b + 256 * q,
    ensures
        a % 256 == b % 256,
{
    lemma_mod_multiples_vanish(q, b, 256);
}

/// A character appended to a window multiplies what the window stood for and
/// adds its own number.
pub proof fn lemma_polynomial_push(window: Seq<char>, c: char)
    ensures
        polynomial(window.push(c)) == polynomial(window) * MULTIPLIER + ord(c),
    decreases window.len(),
{
    let longer = window.push(c);
    let tail = longer.drop_first();
    let unit = power(longer.len() - 1);
    assert(polynomial(longer) == ord(longer[0]) * unit + polynomial(tail));
    if window.len() == 0 {
        assert(tail =~= window);
        assert(polynomial(window) == 0);
        assert(ord(c) * unit == ord(c)) by (nonlinear_arith)
            requires
                unit == 1,
        ;
    } else {
        let shorter = window.drop_first();
        let first = ord(window[0]);
        let weight = power(window.len() - 1);
        assert(tail =~= shorter.push(c));
        lemma_polynomial_push(shorter, c);
        assert(polynomial(window) == first * weight + polynomial(shorter));
        assert(first * unit == (first * weight) * 10) by (nonlinear_arith)
            requires
                unit == 10 * weight,
        ;
    }
}

/// The hash of a window with one more character, from the hash without it.
pub proof fn lemma_hash_push(window: Seq<char>, c: char)
    ensures
        window_hash(window.push(c)) == (window_hash(window) * MULTIPLIER + ord(c)) % (
        MODULO as int),
{
    lemma_polynomial_push(window, c);
    let whole = polynomial(window);
    lemma_fundamental_div_mod(whole, 256);
    lemma_congruent(whole * 10 + ord(c), (whole % 256) * 10 + ord(c), 10 * (whole / 256));
}

/// Rolling is hashing: where the hash of a window is rolled, with the
/// window's first character going out and `in_ch` coming in, the result is
/// the hash of the window that begins one place later and ends in `in_ch`.
pub proof fn lemma_roll_slides_window(window: Seq<char>, in_ch: char)
    requires
        window.len() >= 1,
    ensures
        rolled_hash(window_hash(window), window.len() as int, in_ch, window[0]) == window_hash(
            window.drop_first().push(in_ch),
        ),
{
    let front = ord(window[0]) * power(window.len() - 1);
    let rest = polynomial(window.drop_first());
    assert(polynomial(window) == front + rest);
    lemma_hash_push(window.drop_first(), in_ch);

    // taking the front off the hash of the whole leaves the hash of the rest
    let hash = (front + rest) % 256;
    let previous = front % 256;
    lemma_fundamental_div_mod(front + rest, 256);
    lemma_fundamental_div_mod(front, 256);
    lemma_congruent(hash + 256 - previous, rest, 1 + front / 256 - (front + rest) / 256);
}

/// The state of a rolling hash: the hash of the current window and the
/// window's fixed length.
pub struct RollingHasher {
    hash: u64,
    window: usize,
    /// What the window's first character weighs, reduced by `MODULO`.
    weight: u64,
}

/// The number of a character.
fn ordinal(c: char) -> (n: u64)
    ensures
        n == ord(c),
        n <= 0x10FFFF,
{
    c as u64
}

impl RollingHasher {
    #[verifier::type_invariant]
    spec fn well_formed(&self) -> bool {
        &&& self.hash < MODULO
        &&& self.weight < MODULO
        &&& self.window >= 1 ==> self.weight == power(self.window - 1) % (MODULO as int)
    }

    /// The hash value that the state holds.
    pub closed spec fn value(&self) -> int {
        self.hash as int
    }

    /// The length of the window that the state was made for.
    pub closed spec fn window(&self) -> int {
        self.window as int
    }

    /// Hashes `init` from scratch and fixes the window's length at its
    /// length.
    pub fn new(init: &[char]) -> (hasher: Self)
        ensures
            hasher.value() == window_hash(init@),
            hasher.window() == init@.len(),
    {
        let window = init.len();

        let mut hash: u64 = 0;
        let mut weight: u64 = 1;
        let mut i: usize = 0;
        while i < window
            invariant
                window == init@.len(),
                i <= window,
                hash == window_hash(init@.take(i as int)),
                weight < MODULO,
                i >= 1 ==> weight == power(i - 1) % (MODULO as int),
                i == 0 ==> weight == 1,
            decreases window - i,
        {
            proof {
                assert(init@.take(i + 1) =~= init@.take(i as int).push(init@[i as int]));
                lemma_polynomial_push(init@.take(i as int), init@[i as int]);
                if i >= 1 {
                    lemma_mul_mod_noop_right(10, power(i - 1), 256);
                }
            }
            if i > 0 {
                weight = weight * MULTIPLIER % MODULO;
            }
            hash = (hash * MULTIPLIER + ordinal(init[i])) % MODULO;
            i += 1;
        }
        assert(init@.take(window as int) =~= init@);

        Self { hash, window, weight }
    }

    /// Slides the window by one place: `out_ch` leaves at its front and
    /// `in_ch` enters at its back. The hash then is that of the new window,
    /// provided it was that of the old one and `out_ch` stood first in it.
    pub fn roll(&mut self, in_ch: char, out_ch: char)
        ensures
            final(self).window() == old(self).window(),
            final(self).value() == rolled_hash(
                old(self).value(),
                old(self).window(),
                in_ch,
                out_ch,
            ),
            forall|window: Seq<char>|
                window.len() == old(self).window() && window.len() >= 1 && window[0] == out_ch
                    && old(self).value() == #[trigger] window_hash(window) ==> final(self).value()
                    == window_hash(window.drop_first().push(in_ch)),
    {
        if self.window == 0 {
            return;
        }
        proof {
            use_type_invariant(&*self);
            lemma_mul_mod_noop_right(ord(out_ch), power(self.window - 1), 256);
            assert forall|window: Seq<char>|
                window.len() == self.window() && window.len() >= 1 && window[0] == out_ch
                    && self.value() == #[trigger] window_hash(window) implies rolled_hash(
                self.value(),
                self.window(),
                in_ch,
                out_ch,
            ) == window_hash(window.drop_first().push(in_ch)) by {
                lemma_roll_slides_window(window, in_ch);
            }
        }
        let out = ordinal(out_ch);
        let weight = self.weight;
        assert(out * weight <= 0x10FFFF * 255) by (nonlinear_arith)
            requires
                out <= 0x10FFFF,
                weight <= 255,
        ;
        let previous = (out * weight) % MODULO;
        let rest = (self.hash + MODULO - previous) % MODULO;
        let next = ordinal(in_ch);
        self.hash = (rest * MULTIPLIER + next) % MODULO;
    }

    /// The hash of the current window.
    pub fn hash(&self) -> (hash: u64)
        ensures
            hash == self.value(),
    {
        self.hash
    }
}

/// Decides whether `pattern` occurs in `text`. A window as long as the
/// pattern slides over the text, its hash rolled from place to place; only
/// where that hash equals the pattern's are the characters compared.
pub fn contains(pattern: &str, text: &str) -> (found: bool)
    ensures
        found == occurs(pattern@, text@),
{
    let p = decode(pattern);
    let t = decode(text);

    if p.is_empty() {
        assert(matches_at(p@, t@, 0));
        return true;
    }
    if t.is_empty() || t.len() < p.len() {
        return false;
    }
    let m = p.len();
    let n = t.len();
    let pattern_hash = RollingHasher::new(&p).hash();
    let mut text_hasher = RollingHasher::new(&t[0..m]);
    let mut i: usize = 0;
    while i <= n - m
        invariant
            p@ == pattern@,
            t@ == text@,
            m == p@.len(),
            n == t@.len(),
            1 <= m <= n,
            pattern_hash == window_hash(p@),
            text_hasher.window() == m,
            i == 0 ==> text_hasher.value() == window_hash(t@.subrange(0, m as int)),
            0 < i <= n - m ==> text_hasher.value() == window_hash(t@.subrange(i - 1, i - 1 + m)),
            forall|at: int| 0 <= at < i ==> !matches_at(p@, t@, at),
        decreases n - m + 1 - i,
    {
        if i > 0 {
            let in_ch = t[i + m - 1];
            let out_ch = t[i - 1];
            let ghost before = t@.subrange(i - 1, i - 1 + m);
            assert(before.drop_first().push(in_ch) =~= t@.subrange(i as int, i + m));
            text_hasher.roll(in_ch, out_ch);
        }
        let text_hash = text_hasher.hash();
        if text_hash == pattern_hash {
            proof {
                assert(t@.subrange(i as int, n as int).subrange(0, m as int) =~= t@.subrange(
                    i as int,
                    i + m,
                ));
            }
            if contains_inner(&p, &t[i..n]) {
                assert(matches_at(p@, t@, i as int));
                return true;
            }
        }
        i += 1;
    }
    false
}

/// Decides whether `pattern` is an initial segment of `text`.
pub fn contains_inner(pattern: &[char], text: &[char]) -> (found: bool)
    ensures
        found == is_prefix(pattern@, text@),
{
    for i in 0..pattern.len()
        invariant
            i <= text@.len(),
            text@.subrange(0, i as int) =~= pattern@.subrange(0, i as int),
    {
        if i == text.len() {
            return false;
        }
        if text[i] != pattern[i] {
            return false;
        }
    }
    true
}

} // verus!
