//! A byte-pair-encoding (BPE) subword tokenizer.
//!
//! The library learns a subword vocabulary from a text corpus by repeatedly
//! merging the most frequent adjacent symbol pair, and then segments text
//! into token indices by greedy longest-prefix matching over a trie.

use vstd::prelude::*;

pub mod laws;
pub mod text;
pub mod token_config;
pub mod tokenizer;
pub mod trainer;
pub mod trie;

verus! {

/// Failures surfaced by the library's fallible operations.
#[derive(Clone, Copy, Debug, PartialEq, Eq, Structural)]
pub enum BpeError {
    /// A token string was looked up that is not in the vocabulary.
    UnknownToken,
    /// A token index was looked up that is not in the vocabulary.
    UnknownIndex,
    /// During resumed training, a corpus character is missing from the
    /// loaded vocabulary.
    UnknownCharacter,
    /// A model snapshot's parts are inconsistent (duplicate vocabulary
    /// entries, dangling merge rules, or misaligned reserved indices).
    InvalidSnapshot,
}

} // verus!
