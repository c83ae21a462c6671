//! The beat sweep: one pass over the beat grid that decides, beat by beat,
//! whether a glitch event happens and applies it.
//!
//! A run is in one of two modes. In stutter mode each beat flips a coin for a
//! glitch event. In calibration mode every beat is marked with a short
//! burst of noise, a click track to check the tempo by ear.

use crate::apply::{applied, apply};
use crate::entropy::{next_index, next_sample, next_word};
use crate::pattern::{Pattern, Run};
use crate::probability::{unit_draw, Probability, DRAW_RANGE};
use crate::subdivide::{draws_in_range, draws_spent, generate, subdivision, DEPTH_FLOOR};
use crate::tempo::Spacing;
use rand::rngs::StdRng;
use vstd::prelude::*;

verus! {

/// Number of samples of one calibration burst.
pub const BURST_LEN: usize = 512;

/// Calibration noise stays strictly between `-NOISE_CEILING` and
/// `NOISE_CEILING`.
pub const NOISE_CEILING: i32 = 32767;

/// What a sweep does on its beats.
#[derive(Clone, Copy, Debug)]
pub enum Mode {
    /// Mark every beat with a burst of noise.
    Calibration,
    /// Start a glitch event on a beat with the given probability.
    Stutter(Probability),
}

// ---------------------------------------------------------------------------
// Decisions on random words
// ---------------------------------------------------------------------------
/// The noise sample that a random word stands for: its remainder by the
/// ceiling, with the sign of the word.
pub open spec fn noise_of(word: i32) -> int {
    if word >= 0 {
        word as int % 32767
    } else {
        -((-word) % 32767)
    }
}

/// Reduces a random word to a noise sample below the ceiling.
pub fn noise_sample(word: i32) -> (sample: i32)
    ensures
        sample == noise_of(word),
        -NOISE_CEILING < sample < NOISE_CEILING,
{
    word % NOISE_CEILING
}

/// The catalog entry that a random index selects.
pub open spec fn picked(catalog: Seq<usize>, index: usize) -> usize {
    catalog[index as int % catalog.len() as int]
}

/// Selects the length of an event from the catalog by a random index.
pub fn pick_duration(catalog: &Vec<usize>, index: usize) -> (duration: usize)
    requires
        catalog.len() > 0,
    ensures
        duration == picked(catalog@, index),
{
    catalog[index % catalog.len()]
}

// ---------------------------------------------------------------------------
// Calibration
// ---------------------------------------------------------------------------
/// Sample `p` lies in the burst of beat number `beat`.
pub open spec fn in_burst(spacing: Spacing, beat: nat, p: int) -> bool {
    spacing.start_of(beat) <= p < spacing.start_of(beat) + BURST_LEN
}

/// Sample `p` lies in the burst of one of the first `beats` beats.
pub open spec fn marked(spacing: Spacing, beats: nat, p: int) -> bool {
    exists|beat: nat| beat < beats && #[trigger] in_burst(spacing, beat, p)
}

/// `after` is `before` with a click track laid over the first `beats` beats:
/// every sample in a burst holds noise below the ceiling, every other sample
/// is untouched.
pub open spec fn calibrated(before: Seq<i32>, after: Seq<i32>, spacing: Spacing, beats: nat) -> bool {
    &&& after.len() == before.len()
    &&& forall|p: int|
        0 <= p < after.len() && marked(spacing, beats, p) ==> -NOISE_CEILING < #[trigger] after[p]
            < NOISE_CEILING
    &&& forall|p: int|
        0 <= p < after.len() && !marked(spacing, beats, p) ==> #[trigger] after[p] == before[p]
}

/// Overwrites the burst that starts at `start` with noise, as far as the
/// buffer reaches.
fn write_burst(rng: &mut StdRng, output: &mut Vec<i32>, start: usize)
    ensures
        final(output).len() == old(output).len(),
        forall|p: int|
            0 <= p < old(output).len() && start <= p < start + BURST_LEN ==> -NOISE_CEILING
                < #[trigger] final(output)[p] < NOISE_CEILING,
        forall|p: int|
            0 <= p < old(output).len() && !(start <= p < start + BURST_LEN)
                ==> #[trigger] final(output)[p] == old(output)[p],
{
    let len = output.len();
    if start >= len {
        return ;
    }
    let span = if len - start < BURST_LEN {
        len - start
    } else {
        BURST_LEN
    };
    let ghost before = output@;
    let mut j: usize = 0;
    while j < span
        invariant
            j <= span,
            span <= BURST_LEN,
            start + span <= len,
            span == len - start || span == BURST_LEN,
            output.len() == len,
            before.len() == len,
            forall|p: int|
                start <= p < start + j ==> -NOISE_CEILING < #[trigger] output[p] < NOISE_CEILING,
            forall|p: int|
                0 <= p < len && !(start <= p < start + j) ==> #[trigger] output[p] == before[p],
        decreases span - j,
    {
        let word = next_sample(rng);
        output.set(start + j, noise_sample(word));
        j = j + 1;
    }
}

/// Lays a click track over the first `num_beats` beats of the grid: every
/// burst is filled with fresh noise, cut off at the end of the buffer.
pub fn calibrate(rng: &mut StdRng, output: &mut Vec<i32>, spacing: &Spacing, num_beats: usize)
    ensures
        calibrated(old(output)@, final(output)@, *spacing, num_beats as nat),
{
    let ghost before = output@;
    let mut beat: usize = 0;
    while beat < num_beats
        invariant
            beat <= num_beats,
            calibrated(before, output@, *spacing, beat as nat),
        decreases num_beats - beat,
    {
        let start = spacing.start_index(beat);
        let ghost earlier = output@;
        write_burst(rng, output, start);
        proof {
            assert forall|p: int| 0 <= p < output.len() implies (marked(
                *spacing,
                (beat + 1) as nat,
                p,
            ) <==> marked(*spacing, beat as nat, p) || in_burst(*spacing, beat as nat, p)) by {
                if marked(*spacing, (beat + 1) as nat, p) {
                    let b = choose|b: nat| b < beat + 1 && #[trigger] in_burst(*spacing, b, p);
                    if b < beat {
                        assert(marked(*spacing, beat as nat, p));
                    }
                }
                if marked(*spacing, beat as nat, p) {
                    let b = choose|b: nat| b < beat && #[trigger] in_burst(*spacing, b, p);
                    assert(b < beat + 1 && in_burst(*spacing, b, p));
                }
                if in_burst(*spacing, beat as nat, p) {
                    assert(beat < beat + 1 && in_burst(*spacing, beat as nat, p));
                }
            }
            assert forall|p: int|
                0 <= p < output.len() && marked(*spacing, (beat + 1) as nat, p) implies -NOISE_CEILING
                < #[trigger] output[p] < NOISE_CEILING by {
                if !in_burst(*spacing, beat as nat, p) {
                    assert(output[p] == earlier[p]);
                }
            }
            assert forall|p: int|
                0 <= p < output.len() && !marked(
                    *spacing,
                    (beat + 1) as nat,
                    p,
                ) implies #[trigger] output[p] == before[p] by {
                assert(output[p] == earlier[p]);
            }
        }
        beat = beat + 1;
    }
}

// ---------------------------------------------------------------------------
// Stutter
// ---------------------------------------------------------------------------
/// One glitch event as the proofs see it: where it starts, how long it may
/// run and what it plays.
pub struct Event {
    pub beat: nat,
    pub start_index: nat,
    pub total_budget: nat,
    pub pattern: Seq<Run>,
}

/// The output buffer after the events have been applied in order.
pub open spec fn replay(source: Seq<i32>, output: Seq<i32>, events: Seq<Event>) -> Seq<i32>
    decreases events.len(),
{
    if events.len() == 0 {
        output
    } else {
        applied(
            source,
            replay(source, output, events.drop_last()),
            events.last().start_index,
            events.last().pattern,
            events.last().total_budget,
        )
    }
}

/// `pattern` is one of the patterns that the generator can produce for an
/// event of `total_budget` samples. An event without samples has no pattern.
pub open spec fn is_outcome(pattern: Seq<Run>, recurse: Probability, total_budget: nat) -> bool {
    if total_budget == 0 {
        pattern.len() == 0
    } else {
        exists|draws: Seq<u64>|
            draws_in_range(draws) && draws.len() == draws_spent(
                draws,
                recurse,
                total_budget,
                1,
                DEPTH_FLOOR as nat,
            ) && pattern == #[trigger] subdivision(
                draws,
                recurse,
                total_budget,
                1,
                DEPTH_FLOOR as nat,
            )
    }
}

/// The event belongs to a sweep: it sits on one of the first `beats` beats,
/// its length comes from the catalog and its pattern from the generator.
pub open spec fn fits(
    event: Event,
    spacing: Spacing,
    beats: nat,
    catalog: Seq<usize>,
    recurse: Probability,
) -> bool {
    &&& event.beat < beats
    &&& event.start_index == spacing.start_of(event.beat)
    &&& exists|k: int| 0 <= k < catalog.len() && event.total_budget == #[trigger] catalog[k]
    &&& is_outcome(event.pattern, recurse, event.total_budget)
}

/// The events are those of one sweep over the first `beats` beats: each one
/// fits, they come in the order of their beats, and no beat has two. With
/// glitch probability 0 there is no event, with glitch probability 1 there is
/// one on every beat.
pub open spec fn is_sweep(
    events: Seq<Event>,
    spacing: Spacing,
    beats: nat,
    glitch: Probability,
    recurse: Probability,
    catalog: Seq<usize>,
) -> bool {
    &&& forall|i: int|
        0 <= i < events.len() ==> fits(#[trigger] events[i], spacing, beats, catalog, recurse)
    &&& forall|i: int, j: int|
        0 <= i < j < events.len() ==> (#[trigger] events[i]).beat < (#[trigger] events[j]).beat
    &&& glitch.threshold() == 0 ==> events.len() == 0
    &&& glitch.threshold() == DRAW_RANGE ==> events.len() == beats && forall|i: int|
        0 <= i < events.len() ==> (#[trigger] events[i]).beat == i
}

/// `after` is `before` with the events of one sweep applied, `count` of them.
pub open spec fn stuttered(
    source: Seq<i32>,
    before: Seq<i32>,
    after: Seq<i32>,
    count: nat,
    spacing: Spacing,
    beats: nat,
    glitch: Probability,
    recurse: Probability,
    catalog: Seq<usize>,
) -> bool {
    exists|events: Seq<Event>|
        events.len() == count && is_sweep(events, spacing, beats, glitch, recurse, catalog)
            && after == #[trigger] replay(source, before, events)
}

/// Sweeps the first `num_beats` beats of the grid in stutter mode and
/// returns the number of glitch events.
///
/// On every beat one draw decides with probability `glitch` whether an event
/// starts there. An event takes its length from the catalog by a random
/// index, generates its pattern from that length with repeat count 1 and
/// the depth floor of 128 samples, and is applied at the beat's first
/// sample with the length as its budget.
pub fn stutter(
    rng: &mut StdRng,
    source: &Vec<i32>,
    output: &mut Vec<i32>,
    spacing: &Spacing,
    num_beats: usize,
    glitch: Probability,
    recurse: Probability,
    catalog: &Vec<usize>,
) -> (count: usize)
    requires
        source.len() == old(output).len(),
        catalog.len() > 0,
    ensures
        stuttered(
            source@,
            old(output)@,
            final(output)@,
            count as nat,
            *spacing,
            num_beats as nat,
            glitch,
            recurse,
            catalog@,
        ),
        final(output).len() == old(output).len(),
        count <= num_beats,
        glitch.threshold() == 0 ==> final(output)@ == old(output)@,
{
    let ghost before = output@;
    let ghost mut events: Seq<Event> = Seq::empty();
    let mut beat: usize = 0;
    let mut count: usize = 0;
    while beat < num_beats
        invariant
            beat <= num_beats,
            count <= beat,
            count == events.len(),
            catalog.len() > 0,
            source.len() == output.len(),
            output.len() == before.len(),
            is_sweep(events, *spacing, beat as nat, glitch, recurse, catalog@),
            output@ == replay(source@, before, events),
        decreases num_beats - beat,
    {
        let draw = unit_draw(next_word(rng));
        let ghost earlier = events;
        if glitch.happens(draw) {
            let start = spacing.start_index(beat);
            let index = next_index(rng);
            let budget = pick_duration(catalog, index);
            let pattern = if budget == 0 {
                Pattern::new()
            } else {
                generate(rng, recurse, budget, 1, DEPTH_FLOOR)
            };
            apply(source, output, start, &pattern, budget);
            count = count + 1;
            proof {
                let event = Event {
                    beat: beat as nat,
                    start_index: start as nat,
                    total_budget: budget as nat,
                    pattern: pattern@,
                };
                events = earlier.push(event);
                assert(events.drop_last() =~= earlier);
                let k = index as int % catalog.len() as int;
                assert(0 <= k < catalog.len() && budget == catalog@[k]);
                assert(is_outcome(pattern@, recurse, budget as nat));
                assert(fits(event, *spacing, (beat + 1) as nat, catalog@, recurse));
            }
        }
        proof {
            assert forall|i: int| 0 <= i < events.len() implies fits(
                #[trigger] events[i],
                *spacing,
                (beat + 1) as nat,
                catalog@,
                recurse,
            ) by {
                if i < earlier.len() {
                    assert(fits(earlier[i], *spacing, beat as nat, catalog@, recurse));
                }
            }
            assert forall|i: int, j: int| 0 <= i < j < events.len() implies (#[trigger] events[i]).beat
                < (#[trigger] events[j]).beat by {
                assert(fits(earlier[i], *spacing, beat as nat, catalog@, recurse));
            }
        }
        beat = beat + 1;
    }
    count
}

/// Sweeps the first `num_beats` beats of the grid in the given mode and
/// returns the number of beats acted on: every beat in calibration mode, the
/// beats with a glitch event in stutter mode. The mode holds for the whole
/// sweep.
pub fn sweep(
    rng: &mut StdRng,
    source: &Vec<i32>,
    output: &mut Vec<i32>,
    spacing: &Spacing,
    num_beats: usize,
    mode: Mode,
    recurse: Probability,
    catalog: &Vec<usize>,
) -> (count: usize)
    requires
        mode is Stutter ==> source.len() == old(output).len() && catalog.len() > 0,
    ensures
        final(output).len() == old(output).len(),
        match mode {
            Mode::Calibration => count == num_beats && calibrated(
                old(output)@,
                final(output)@,
                *spacing,
                num_beats as nat,
            ),
            Mode::Stutter(glitch) => stuttered(
                source@,
                old(output)@,
                final(output)@,
                count as nat,
                *spacing,
                num_beats as nat,
                glitch,
                recurse,
                catalog@,
            ),
        },
{
    match mode {
        Mode::Calibration => {
            calibrate(rng, output, spacing, num_beats);
            num_beats
        },
        Mode::Stutter(glitch) => stutter(
            rng,
            source,
            output,
            spacing,
            num_beats,
            glitch,
            recurse,
            catalog,
        ),
    }
}

/// The click track of a grid with at least one beat covers the first
/// `BURST_LEN` samples of the buffer.
pub proof fn law_first_burst_is_marked(spacing: Spacing, beats: nat, p: int)
    requires
        spacing.denominator() > 0,
        beats >= 1,
        0 <= p < BURST_LEN,
    ensures
        marked(spacing, beats, p),
{
    assert(0 * spacing.numerator() == 0);
    assert(0int / (spacing.denominator() as int) == 0);
    assert(in_burst(spacing, 0, p));
}

/// A sweep without beats leaves the buffer as it is, in either mode.
pub proof fn law_no_beats_no_change(
    source: Seq<i32>,
    before: Seq<i32>,
    after: Seq<i32>,
    count: nat,
    spacing: Spacing,
    glitch: Probability,
    recurse: Probability,
    catalog: Seq<usize>,
)
    ensures
        calibrated(before, after, spacing, 0) ==> after == before,
        stuttered(source, before, after, count, spacing, 0, glitch, recurse, catalog) ==> after
            == before && count == 0,
{
    if calibrated(before, after, spacing, 0) {
        assert(after =~= before);
    }
    if stuttered(source, before, after, count, spacing, 0, glitch, recurse, catalog) {
        let events = choose|events: Seq<Event>|
            events.len() == count && is_sweep(events, spacing, 0, glitch, recurse, catalog)
                && after == #[trigger] replay(source, before, events);
        if events.len() > 0 {
            assert(fits(events[0], spacing, 0, catalog, recurse));
        }
    }
}

} // verus!
