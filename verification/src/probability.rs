//! Probabilities as integer thresholds on a 53-bit uniform draw.

use vstd::prelude::*;

verus! {

/// Number of equally likely values of a draw: `2^53`.
pub const DRAW_RANGE: u64 = 0x20_0000_0000_0000;

/// The draw that a random word stands for: its 53 most significant bits.
/// Dividing the draw by `2^53` gives the uniform number in `[0, 1)` that the
/// word encodes.
pub open spec fn draw_of(word: u64) -> u64 {
    word / 2048
}

/// Reduces a uniformly random word to a uniform draw in `[0, 2^53)`.
pub fn unit_draw(word: u64) -> (draw: u64)
    ensures
        draw == draw_of(word),
        draw < DRAW_RANGE,
{
    assert(word >> 11 == word / 2048 && (word >> 11) < 0x20_0000_0000_0000u64) by (bit_vector);
    word >> 11
}

/// A probability `threshold / 2^53`: the event happens on exactly those
/// draws that are smaller than the threshold.
#[derive(Clone, Copy, Debug, PartialEq, Eq, Structural)]
pub struct Probability {
    threshold: u64,
}

impl Probability {
    /// The threshold, between `0` (never) and `2^53` (always).
    pub closed spec fn threshold(self) -> u64 {
        self.threshold
    }

    /// Every value of the type keeps its threshold within the draw range.
    pub open spec fn wf(self) -> bool {
        self.threshold() <= DRAW_RANGE
    }

    /// Whether the event happens on `draw`.
    pub open spec fn accepts(self, draw: u64) -> bool {
        draw < self.threshold()
    }

    /// The probability 0: no draw is accepted.
    pub fn never() -> (p: Probability)
        ensures
            p.wf(),
            p.threshold() == 0,
    {
        Probability { threshold: 0 }
    }

    /// The probability 1: every draw below `2^53` is accepted.
    pub fn always() -> (p: Probability)
        ensures
            p.wf(),
            p.threshold() == DRAW_RANGE,
    {
        Probability { threshold: DRAW_RANGE }
    }

    /// The probability `threshold / 2^53`, or `None` when the threshold
    /// exceeds `2^53`.
    pub fn from_threshold(threshold: u64) -> (p: Option<Probability>)
        ensures
            p is Some <==> threshold <= DRAW_RANGE,
            p matches Some(q) ==> q.wf() && q.threshold() == threshold,
    {
        if threshold <= DRAW_RANGE {
            Some(Probability { threshold })
        } else {
            None
        }
    }

    /// Reads the threshold back.
    pub fn get_threshold(&self) -> (t: u64)
        ensures
            t == self.threshold(),
    {
        self.threshold
    }

    /// Decides the event for one draw.
    pub fn happens(&self, draw: u64) -> (yes: bool)
        ensures
            yes == self.accepts(draw),
    {
        draw < self.threshold
    }
}

} // verus!
