//! The pattern applier: replays a source fragment into the output buffer.
//!
//! The event starts at `start_index` in both buffers. Its pattern is played
//! run by run; every repetition of a run reads the source from the start of
//! the event again, while the write position only moves forward. That is the
//! stutter.

use crate::pattern::{runs_of, total_samples, Pattern, Run};
use crate::probability::Probability;
use crate::subdivide::subdivision;
use vstd::arithmetic::div_mod::{lemma_mod_multiples_vanish, lemma_small_mod};
use vstd::prelude::*;

verus! {

/// Number of samples between `start` and the end of a buffer of `len`
/// samples.
pub open spec fn room(len: nat, start: nat) -> nat {
    if start < len {
        (len - start) as nat
    } else {
        0
    }
}

/// Offset into the source fragment of the `j`-th sample that a pattern plays:
/// the position of `j` within its repetition of its run.
pub open spec fn source_offset(runs: Seq<Run>, j: nat) -> nat
    decreases runs.len(),
{
    if runs.len() == 0 {
        0
    } else if j < total_samples(runs.drop_last()) {
        source_offset(runs.drop_last(), j)
    } else {
        ((j - total_samples(runs.drop_last())) % (runs.last().length as int)) as nat
    }
}

/// Number of samples that an event writes: the pattern is cut short one
/// sample after the budget is reached, and at the end of the buffer.
pub open spec fn written_count(runs: Seq<Run>, total_budget: nat, room: nat) -> nat {
    let total = total_samples(runs);
    if total <= total_budget + 1 && total <= room {
        total
    } else if total_budget + 1 <= room {
        total_budget + 1
    } else {
        room
    }
}

/// The output buffer after an event: the first `written_count` samples from
/// `start` on are taken from the source fragment, all others are kept.
pub open spec fn applied(
    source: Seq<i32>,
    output: Seq<i32>,
    start: nat,
    runs: Seq<Run>,
    total_budget: nat,
) -> Seq<i32> {
    let written = written_count(runs, total_budget, room(output.len(), start));
    Seq::new(
        output.len(),
        |i: int|
            if start <= i < start + written {
                source[(start + source_offset(runs, (i - start) as nat)) as int]
            } else {
                output[i]
            },
    )
}

proof fn lemma_total_of_prefix(runs: Seq<Run>, i: int)
    requires
        0 <= i < runs.len(),
    ensures
        total_samples(runs.take(i + 1)) == total_samples(runs.take(i)) + runs[i].length
            * runs[i].repeat,
{
    assert(runs.take(i + 1).drop_last() =~= runs.take(i));
}

proof fn lemma_prefix_totals_ordered(runs: Seq<Run>, i: int, k: int)
    requires
        0 <= i <= k <= runs.len(),
    ensures
        total_samples(runs.take(i)) <= total_samples(runs.take(k)),
    decreases k - i,
{
    if i < k {
        lemma_total_of_prefix(runs, k - 1);
        lemma_prefix_totals_ordered(runs, i, k - 1);
    }
}

proof fn lemma_offset_in_prefix(runs: Seq<Run>, k: int, j: nat)
    requires
        0 <= k <= runs.len(),
        j < total_samples(runs.take(k)),
    ensures
        source_offset(runs, j) == source_offset(runs.take(k), j),
    decreases runs.len() - k,
{
    if k == runs.len() {
        assert(runs.take(k) =~= runs);
    } else {
        let shorter = runs.drop_last();
        assert(shorter =~= runs.take(runs.len() - 1));
        lemma_prefix_totals_ordered(runs, k, runs.len() - 1);
        assert(shorter.take(k) =~= runs.take(k));
        lemma_offset_in_prefix(shorter, k, j);
    }
}

/// Where the sample at offset `off` of repetition `rep` of run `i` stands
/// among the samples that the pattern plays, and that its offset is `off`.
proof fn lemma_offset_at(runs: Seq<Run>, i: int, rep: nat, off: nat)
    requires
        0 <= i < runs.len(),
        rep < runs[i].repeat,
        off < runs[i].length,
    ensures
        total_samples(runs.take(i)) + rep * runs[i].length + off < total_samples(runs.take(i + 1)),
        total_samples(runs.take(i + 1)) <= total_samples(runs),
        source_offset(runs, (total_samples(runs.take(i)) + rep * runs[i].length + off) as nat)
            == off,
{
    let length = runs[i].length as int;
    let repeat = runs[i].repeat as int;
    let base = total_samples(runs.take(i)) as int;
    let inner = rep * length + off;
    lemma_total_of_prefix(runs, i);
    lemma_prefix_totals_ordered(runs, i + 1, runs.len() as int);
    assert(runs.take(runs.len() as int) =~= runs);
    assert(0 <= inner < length * repeat) by (nonlinear_arith)
        requires
            inner == rep * length + off,
            0 <= rep < repeat,
            0 <= off < length,
    ;
    let j = (base + inner) as nat;
    lemma_offset_in_prefix(runs, i + 1, j);
    let prefix = runs.take(i + 1);
    assert(prefix.drop_last() =~= runs.take(i));
    assert(prefix.last() == runs[i]);
    assert(source_offset(prefix, j) == (inner % length) as nat);
    lemma_mod_multiples_vanish(rep as int, off as int, length);
    lemma_small_mod(off, length as nat);
    assert(length * rep + off == inner) by (nonlinear_arith)
        requires
            inner == rep * length + off,
    ;
}

/// Applies one glitch event: plays `pattern` from `source` into `output`,
/// both from `start_index` on, and returns the number of samples written.
///
/// The event stops after the pattern, one sample after `total_budget`
/// samples have been written, or at the end of the buffer, whichever comes
/// first. Samples outside the span written keep their value.
pub fn apply(
    source: &Vec<i32>,
    output: &mut Vec<i32>,
    start_index: usize,
    pattern: &Pattern,
    total_budget: usize,
) -> (written: usize)
    requires
        source.len() == old(output).len(),
        pattern.wf(),
    ensures
        final(output)@ == applied(
            source@,
            old(output)@,
            start_index as nat,
            pattern@,
            total_budget as nat,
        ),
        written == written_count(
            pattern@,
            total_budget as nat,
            room(old(output).len() as nat, start_index as nat),
        ),
        written <= total_budget + 1,
        start_index + written <= old(output).len() || written == 0,
        final(output).len() == old(output).len(),
        forall|i: int|
            0 <= i < old(output).len() && !(start_index <= i < start_index + written)
                ==> final(output)[i] == old(output)[i],
{
    let len = output.len();
    let ghost before = output@;
    let ghost runs = pattern@;
    if start_index >= len {
        assert(output@ =~= applied(source@, before, start_index as nat, runs, total_budget as nat));
        return 0;
    }
    let space = len - start_index;
    let segments = pattern.segments();
    let count = segments.len();
    let mut cursor: usize = 0;
    let mut i: usize = 0;
    let mut rep: usize = 0;
    let mut off: usize = 0;
    proof {
        assert(runs.take(0) =~= Seq::<Run>::empty());
    }
    while i < count && cursor < space && cursor <= total_budget
        invariant
            runs == pattern@,
            runs == runs_of(segments@),
            pattern.wf(),
            count == segments.len(),
            len == output.len(),
            len == source.len(),
            len == before.len(),
            start_index < len,
            space == len - start_index,
            i <= count,
            i < count ==> rep < runs[i as int].repeat && off < runs[i as int].length,
            i < count ==> cursor == total_samples(runs.take(i as int)) + rep * runs[i as int].length
                + off,
            i == count ==> cursor == total_samples(runs),
            cursor <= total_samples(runs),
            cursor <= space,
            cursor <= total_budget + 1,
            forall|j: int|
                0 <= j < cursor ==> #[trigger] output[start_index + j] == source[start_index
                    + source_offset(runs, j as nat)],
            forall|p: int|
                0 <= p < len && !(start_index <= p < start_index + cursor) ==> #[trigger] output[p]
                    == before[p],
        decreases space - cursor,
    {
        let segment = segments[i];
        assert(segment@ == runs[i as int]);
        proof {
            lemma_offset_at(runs, i as int, rep as nat, off as nat);
            lemma_total_of_prefix(runs, i as int);
            assert(rep * runs[i as int].length >= 0) by (nonlinear_arith)
                requires
                    rep >= 0,
                    runs[i as int].length >= 0,
            ;
        }
        let sample = source[start_index + off];
        output.set(start_index + cursor, sample);
        cursor = cursor + 1;
        off = off + 1;
        if off == segment.length {
            off = 0;
            rep = rep + 1;
            proof {
                let length = segment.length as int;
                assert((rep - 1) * length + length == rep * length) by (nonlinear_arith);
            }
            if rep == segment.repeat {
                rep = 0;
                i = i + 1;
                proof {
                    let length = segment.length as int;
                    let repeat = segment.repeat as int;
                    assert(repeat * length == length * repeat) by (nonlinear_arith);
                    assert(0 * length == 0);
                    if i == count {
                        assert(runs.take(i as int) =~= runs);
                    } else {
                        assert(0 * runs[i as int].length == 0);
                    }
                }
            }
        }
    }
    proof {
        let expected = applied(source@, before, start_index as nat, runs, total_budget as nat);
        assert(cursor == written_count(runs, total_budget as nat, room(len as nat, start_index as nat)));
        assert forall|p: int| 0 <= p < len implies output@[p] == expected[p] by {
            if start_index <= p < start_index + cursor {
                let j = p - start_index;
                assert(output[start_index + j] == source[start_index + source_offset(
                    runs,
                    j as nat,
                )]);
            }
        }
        assert(output@ =~= expected);
    }
    cursor
}

/// Without recursion an event whose budget covers it copies the source
/// fragment verbatim, whatever the draws: within the event's span the output
/// equals the source, and a buffer that was a copy of the source stays one.
pub proof fn law_no_recursion_is_verbatim(
    source: Seq<i32>,
    output: Seq<i32>,
    start: nat,
    draws: Seq<u64>,
    recurse: Probability,
    duration: nat,
    depth_floor: nat,
    total_budget: nat,
)
    requires
        source.len() == output.len(),
        recurse.threshold() == 0,
        duration >= 1,
        total_budget >= duration,
    ensures
        subdivision(draws, recurse, duration, 1, depth_floor) == seq![
            Run { length: duration, repeat: 1 },
        ],
        forall|i: int|
            start <= i < start + duration && i < output.len() ==> #[trigger] applied(
                source,
                output,
                start,
                subdivision(draws, recurse, duration, 1, depth_floor),
                total_budget,
            )[i] == source[i],
        output == source ==> applied(
            source,
            output,
            start,
            subdivision(draws, recurse, duration, 1, depth_floor),
            total_budget,
        ) == source,
{
    let runs = seq![Run { length: duration, repeat: 1 }];
    assert(subdivision(draws, recurse, duration, 1, depth_floor) == runs);
    let result = applied(source, output, start, runs, total_budget);
    assert(runs.drop_last() =~= Seq::<Run>::empty());
    assert(total_samples(runs) == duration) by {
        assert(total_samples(runs) == total_samples(runs.drop_last()) + duration * 1);
    }
    assert forall|j: nat| j < duration implies source_offset(runs, j) == j by {
        lemma_small_mod(j, duration);
    }
    let written = written_count(runs, total_budget, room(output.len(), start));
    assert forall|i: int| start <= i < start + written implies #[trigger] result[i]
        == source[i] by {
        assert(source_offset(runs, (i - start) as nat) == i - start);
    }
    if output == source {
        assert(result =~= source);
    }
}

} // verus!
