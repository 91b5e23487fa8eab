use std::collections::hash_map::RandomState;
use std::hash::BuildHasher;
use vstd::prelude::*;

verus! {

/// Relies on std's `RandomState::new`, which makes a hasher state with random
/// keys. Nothing is promised about the keys.
pub assume_specification[ RandomState::new ]() -> RandomState;

/// Relies on `BuildHasher::hash_one` of `RandomState`: hashing one word with
/// keys chosen at random. Any `u64` may come back.
#[verifier::external_body]
fn hash_word(state: &RandomState, word: u64) -> u64 {
    state.hash_one(word)
}

/// A number drawn from `[low, high)`: the remainder of a randomly keyed
/// 64-bit hash, so close to uniform for any span a board can have.
pub fn random_range(low: usize, high: usize) -> (r: usize)
    requires
        low < high,
    ensures
        low <= r < high,
{
    let state = RandomState::new();
    let word = hash_word(&state, 0);
    range_of_word(word, low, high)
}

/// The number of `[low, high)` that a random word selects: `low` plus the
/// word's remainder modulo the span.
pub fn range_of_word(word: u64, low: usize, high: usize) -> (r: usize)
    requires
        low < high,
    ensures
        r == low + word % ((high - low) as u64),
        low <= r < high,
{
    let span = (high - low) as u64;
    low + (word % span) as usize
}

} // verus!
