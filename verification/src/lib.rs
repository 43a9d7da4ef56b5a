//! Substring search: four interchangeable algorithms that decide whether a
//! pattern occurs as a contiguous run inside a text.
//!
//! [`naive`], [`rabin_karp`], [`boyer_moore`] and [`knuth_morris_pratt`] each
//! offer `contains(pattern, text)`, and each is proved to return whether the
//! pattern occurs in the text, as [`text::occurs`] defines it. Patterns and
//! texts are sequences of characters, not of bytes. [`laws`] states what
//! holds of the four together.
//!
//! Beside them stand two word indexes over a corpus of lines, [`index`] and
//! [`trie`], which share the vocabulary of [`words`].

pub mod boyer_moore;
pub mod index;
pub mod knuth_morris_pratt;
pub mod laws;
pub mod naive;
pub mod rabin_karp;
pub mod text;
pub mod trie;
pub mod words;
