//! Run-length patterns: what one glitch event plays, in playback order.

use vstd::prelude::*;

verus! {

/// One entry of a pattern as the proofs see it: a fragment of `length`
/// samples played `repeat` times in a row.
pub struct Run {
    pub length: nat,
    pub repeat: nat,
}

/// One entry of a pattern: a fragment of `length` samples played `repeat`
/// times in a row.
#[derive(Clone, Copy, Debug, PartialEq, Eq, Structural)]
pub struct Segment {
    pub length: usize,
    pub repeat: usize,
}

impl View for Segment {
    type V = Run;

    open spec fn view(&self) -> Run {
        Run { length: self.length as nat, repeat: self.repeat as nat }
    }
}

/// The runs that a sequence of segments stands for.
pub open spec fn runs_of(segments: Seq<Segment>) -> Seq<Run> {
    segments.map_values(|s: Segment| s@)
}

/// Number of samples that a pattern plays when nothing cuts it short: the
/// sum of `length * repeat` over its runs.
pub open spec fn total_samples(runs: Seq<Run>) -> nat
    decreases runs.len(),
{
    if runs.len() == 0 {
        0
    } else {
        total_samples(runs.drop_last()) + runs.last().length * runs.last().repeat
    }
}

/// Every run has at least one sample and is played at least once.
pub open spec fn all_positive(runs: Seq<Run>) -> bool {
    forall|i: int| 0 <= i < runs.len() ==> (#[trigger] runs[i]).length >= 1 && runs[i].repeat >= 1
}

/// An ordered sequence of segments. Insertion order is playback order.
#[derive(Debug)]
pub struct Pattern {
    segments: Vec<Segment>,
}

impl View for Pattern {
    type V = Seq<Run>;

    closed spec fn view(&self) -> Seq<Run> {
        runs_of(self.segments@)
    }
}

impl Pattern {
    /// No segment is empty and none is played zero times.
    pub open spec fn wf(&self) -> bool {
        all_positive(self@)
    }

    /// The empty pattern.
    pub fn new() -> (pattern: Pattern)
        ensures
            pattern@ == Seq::<Run>::empty(),
            pattern.wf(),
    {
        let pattern = Pattern { segments: Vec::new() };
        assert(pattern@ =~= Seq::<Run>::empty());
        pattern
    }

    /// Appends the segment `(length, repeat)` and returns `true`; a segment
    /// with a zero in it is refused, the pattern stays as it was and the
    /// result is `false`.
    pub fn push(&mut self, length: usize, repeat: usize) -> (accepted: bool)
        ensures
            accepted == (length >= 1 && repeat >= 1),
            accepted ==> final(self)@ == old(self)@.push(Run { length: length as nat, repeat: repeat as nat }),
            !accepted ==> final(self)@ == old(self)@,
            old(self).wf() ==> final(self).wf(),
    {
        if length == 0 || repeat == 0 {
            return false;
        }
        let ghost before = self.segments@;
        self.segments.push(Segment { length, repeat });
        assert(runs_of(self.segments@) =~= runs_of(before).push(
            Run { length: length as nat, repeat: repeat as nat },
        ));
        true
    }

    /// Number of segments.
    pub fn len(&self) -> (n: usize)
        ensures
            n == self@.len(),
    {
        self.segments.len()
    }

    /// The segment at `index`, or `None` past the end.
    pub fn get(&self, index: usize) -> (segment: Option<Segment>)
        ensures
            segment is Some <==> index < self@.len(),
            segment matches Some(s) ==> s@ == self@[index as int],
    {
        if index < self.segments.len() {
            Some(self.segments[index])
        } else {
            None
        }
    }

    /// The segments in playback order.
    pub fn segments(&self) -> (segments: &Vec<Segment>)
        ensures
            runs_of(segments@) == self@,
    {
        &self.segments
    }
}

} // verus!
