//! Beat-synchronised stutter effect for PCM sample buffers.
//!
//! A glitch event replaces a short span of the output with a recursively
//! halved, repeated copy of the source fragment that starts at the same
//! position. The modules follow the flow of one run:
//!
//! * [`tempo`] turns tempo and note value into a beat grid and a catalog of
//!   event lengths,
//! * [`pattern`] holds the run-length pattern of one event,
//! * [`subdivide`] generates a pattern by random binary subdivision,
//! * [`apply`] replays a pattern into the output buffer,
//! * [`sweep`] walks the beat grid and decides, beat by beat, what to do.
//!
//! Randomness comes from the `rand` crate through the few trusted functions of
//! [`entropy`]; every decision taken on a random word is a verified function
//! of that word, with probabilities held as the integer thresholds of
//! [`probability`].

pub mod apply;
pub mod entropy;
pub mod pattern;
pub mod probability;
pub mod subdivide;
pub mod sweep;
pub mod tempo;
