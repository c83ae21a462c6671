//! The random source. These are the only functions of the crate whose bodies
//! are not verified: each one forwards to `rand` and promises nothing about
//! the value it hands back, so every caller is verified for all values.

use rand::rngs::StdRng;
use rand::Rng;
use vstd::prelude::*;

verus! {

/// `rand::rngs::StdRng`, the seedable generator that drives a run. Its state
/// is opaque to the proofs.
#[verifier::external_type_specification]
#[verifier::external_body]
pub struct ExStdRng(StdRng);

/// Calls `rand::Rng::gen::<u64>` and returns its result. Nothing is claimed
/// of the word: it may be any `u64`.
#[verifier::external_body]
pub(crate) fn next_word(rng: &mut StdRng) -> (word: u64) {
    rng.gen::<u64>()
}

/// Calls `rand::Rng::gen::<usize>` and returns its result. Nothing is claimed
/// of the index: it may be any `usize`.
#[verifier::external_body]
pub(crate) fn next_index(rng: &mut StdRng) -> (index: usize) {
    rng.gen::<usize>()
}

/// Calls `rand::Rng::gen::<i32>` and returns its result. Nothing is claimed
/// of the sample: it may be any `i32`.
#[verifier::external_body]
pub(crate) fn next_sample(rng: &mut StdRng) -> (sample: i32) {
    rng.gen::<i32>()
}

} // verus!
