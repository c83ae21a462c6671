//! The pattern generator: a probabilistic binary subdivision of one event.
//!
//! A node `(duration, repeat)` either stays whole, as a leaf of the pattern,
//! or splits into two children `(duration / 2, repeat * 2)`. One random draw
//! is spent on every node. The generator walks the tree with an explicit
//! work stack, depth first and left to right; the model below defines the
//! same tree by recursion, and the generator is proved against it.

use crate::entropy::next_word;
use crate::pattern::{all_positive, runs_of, total_samples, Pattern, Run, Segment};
use crate::probability::{unit_draw, Probability, DRAW_RANGE};
use rand::rngs::StdRng;
use vstd::arithmetic::div_mod::lemma_div_denominator;
use vstd::arithmetic::power2::{
    lemma2_to64, lemma2_to64_rest, lemma_pow2_adds, lemma_pow2_pos, lemma_pow2_strictly_increases,
    lemma_pow2_unfold, pow2,
};
use vstd::prelude::*;

verus! {

/// Durations of this many samples or fewer are never split in a sweep.
pub const DEPTH_FLOOR: usize = 128;

/// The work stack of the generator never holds more nodes than this,
/// whatever the root and the draws.
pub const STACK_LIMIT: usize = 65;

/// A node stays whole when the draw refuses to recurse, when its duration has
/// reached the floor, or when there is nothing left to halve.
pub open spec fn is_leaf(draw: u64, recurse: Probability, duration: nat, depth_floor: nat) -> bool {
    !recurse.accepts(draw) || duration <= depth_floor || duration <= 1
}

/// Each of the two children of a node that splits.
pub open spec fn child_of(node: Run) -> Run {
    Run { length: node.length / 2, repeat: node.repeat * 2 }
}

/// The draw spent on the node that is visited at position `pos`. A script of
/// draws that has run out refuses every further split.
pub open spec fn draw_at(draws: Seq<u64>, pos: nat) -> u64 {
    if pos < draws.len() {
        draws[pos as int]
    } else {
        u64::MAX
    }
}

/// The leaves below `node`, left to right, when the draws are spent in visiting
/// order from position `pos` on, together with the position after the last
/// draw spent.
pub open spec fn expand(
    draws: Seq<u64>,
    pos: nat,
    node: Run,
    recurse: Probability,
    depth_floor: nat,
) -> (Seq<Run>, nat)
    decreases node.length,
{
    if is_leaf(draw_at(draws, pos), recurse, node.length, depth_floor) {
        (seq![node], pos + 1)
    } else {
        let left = expand(draws, pos + 1, child_of(node), recurse, depth_floor);
        let right = expand(draws, left.1, child_of(node), recurse, depth_floor);
        (left.0 + right.0, right.1)
    }
}

/// The pattern that the draws produce from the root `(duration, repeat)`.
pub open spec fn subdivision(
    draws: Seq<u64>,
    recurse: Probability,
    duration: nat,
    repeat: nat,
    depth_floor: nat,
) -> Seq<Run> {
    expand(draws, 0, Run { length: duration, repeat }, recurse, depth_floor).0
}

/// Number of draws that the subdivision spends: one for every node visited.
pub open spec fn draws_spent(
    draws: Seq<u64>,
    recurse: Probability,
    duration: nat,
    repeat: nat,
    depth_floor: nat,
) -> nat {
    expand(draws, 0, Run { length: duration, repeat }, recurse, depth_floor).1
}

/// Every draw lies in `[0, 2^53)`.
pub open spec fn draws_in_range(draws: Seq<u64>) -> bool {
    forall|i: int| 0 <= i < draws.len() ==> #[trigger] draws[i] < DRAW_RANGE
}

/// Decides one node on its draw: `true` when the node stays whole.
pub fn decide_leaf(draw: u64, recurse: Probability, duration: usize, depth_floor: usize) -> (leaf:
    bool)
    ensures
        leaf == is_leaf(draw, recurse, duration as nat, depth_floor as nat),
{
    !recurse.happens(draw) || duration <= depth_floor || duration <= 1
}

// ---------------------------------------------------------------------------
// The work stack
// ---------------------------------------------------------------------------
/// The leaves that a work stack still owes, top of the stack (its last
/// entry) first, and the position after the last draw spent on them.
spec fn expand_all(
    draws: Seq<u64>,
    pos: nat,
    stack: Seq<Run>,
    recurse: Probability,
    depth_floor: nat,
) -> (Seq<Run>, nat)
    decreases stack.len(),
{
    if stack.len() == 0 {
        (Seq::empty(), pos)
    } else {
        let top = expand(draws, pos, stack.last(), recurse, depth_floor);
        let rest = expand_all(draws, top.1, stack.drop_last(), recurse, depth_floor);
        (top.0 + rest.0, rest.1)
    }
}

/// One turn of the generator on the draw for the top node: the stack and the
/// output after it.
spec fn step(stack: Seq<Run>, out: Seq<Run>, draw: u64, recurse: Probability, depth_floor: nat) -> (
    Seq<Run>,
    Seq<Run>,
) {
    let node = stack.last();
    if is_leaf(draw, recurse, node.length, depth_floor) {
        (stack.drop_last(), out.push(node))
    } else {
        (stack.drop_last().push(child_of(node)).push(child_of(node)), out)
    }
}

/// Upper bound on the number of nodes below and including `node`.
spec fn node_weight(node: Run) -> nat {
    if node.length == 0 {
        1
    } else {
        (2 * node.length - 1) as nat
    }
}

/// Upper bound on the number of turns that a stack still needs.
spec fn weight(stack: Seq<Run>) -> nat
    decreases stack.len(),
{
    if stack.len() == 0 {
        0
    } else {
        weight(stack.drop_last()) + node_weight(stack.last())
    }
}

/// Every node on the stack is positive and descends from a root whose
/// `length * repeat` is at most `limit`, and the stack tapers: below the top,
/// every node is at most half as long as the node beneath it, and the top is
/// no longer than the node beneath it.
spec fn bounded(stack: Seq<Run>, limit: nat) -> bool {
    &&& forall|i: int|
        0 <= i < stack.len() ==> (#[trigger] stack[i]).length >= 1 && stack[i].repeat >= 1
            && stack[i].length * stack[i].repeat <= limit
    &&& forall|i: int|
        1 <= i < stack.len() - 1 ==> 2 * (#[trigger] stack[i]).length <= stack[i - 1].length
    &&& stack.len() >= 2 ==> stack[stack.len() - 1].length <= stack[stack.len() - 2].length
}

/// In a stack that tapers, the node at height `i` has been halved at least
/// `i` times as often as the node at the bottom.
proof fn lemma_taper(stack: Seq<Run>, limit: nat, i: int)
    requires
        bounded(stack, limit),
        0 <= i < stack.len() - 1,
    ensures
        stack[i].length * pow2(i as nat) <= stack[0].length,
    decreases i,
{
    if i == 0 {
        lemma2_to64();
        assert(stack[0].length * 1 == stack[0].length);
    } else {
        lemma_taper(stack, limit, i - 1);
        lemma_pow2_unfold(i as nat);
        let here = stack[i].length as int;
        let below = stack[i - 1].length as int;
        let half = pow2((i - 1) as nat) as int;
        assert(pow2(i as nat) == 2 * half);
        assert(2 * here <= below);
        assert(here * (2 * half) <= below * half) by (nonlinear_arith)
            requires
                2 * here <= below,
                half >= 0,
        ;
        assert(here * pow2(i as nat) == here * (2 * half));
    }
}

/// A stack that tapers from a machine-sized root is never deeper than
/// `STACK_LIMIT`.
proof fn lemma_stack_is_shallow(stack: Seq<Run>, limit: nat)
    requires
        bounded(stack, limit),
        limit <= usize::MAX,
    ensures
        stack.len() <= STACK_LIMIT,
{
    if stack.len() > 2 {
        let i = stack.len() - 2;
        lemma_taper(stack, limit, i);
        let here = stack[i].length as int;
        let power = pow2(i as nat) as int;
        assert(power <= here * power) by (nonlinear_arith)
            requires
                here >= 1,
                power >= 0,
        ;
        let bottom = stack[0];
        assert(bottom.length <= bottom.length * bottom.repeat) by (nonlinear_arith)
            requires
                bottom.repeat >= 1,
        ;
        lemma2_to64_rest();
        if i >= 64 {
            if i > 64 {
                lemma_pow2_strictly_increases(64, i as nat);
            }
        }
    }
}

proof fn lemma_weight_push(stack: Seq<Run>, node: Run)
    ensures
        weight(stack.push(node)) == weight(stack) + node_weight(node),
{
    assert(stack.push(node).drop_last() =~= stack);
}

proof fn lemma_child_bounds(node: Run, limit: nat)
    requires
        node.length >= 2,
        node.repeat >= 1,
        node.length * node.repeat <= limit,
    ensures
        child_of(node).length >= 1,
        child_of(node).repeat >= 1,
        child_of(node).repeat <= limit,
        child_of(node).length * child_of(node).repeat <= limit,
        2 * node_weight(child_of(node)) < node_weight(node),
{
    let d = node.length as int;
    let r = node.repeat as int;
    assert(2 * (d / 2) <= d);
    assert((d / 2) * (r * 2) <= d * r) by (nonlinear_arith)
        requires
            2 * (d / 2) <= d,
            r >= 1,
            d >= 2,
    ;
    assert(r * 2 <= d * r) by (nonlinear_arith)
        requires
            d >= 2,
            r >= 1,
    ;
}

/// A turn of the generator moves leaves from what the stack owes to the
/// output and changes nothing else.
proof fn lemma_step(
    draws: Seq<u64>,
    pos: nat,
    stack: Seq<Run>,
    out: Seq<Run>,
    recurse: Probability,
    depth_floor: nat,
)
    requires
        stack.len() > 0,
    ensures
        ({
            let next = step(stack, out, draw_at(draws, pos), recurse, depth_floor);
            let before = expand_all(draws, pos, stack, recurse, depth_floor);
            let after = expand_all(draws, pos + 1, next.0, recurse, depth_floor);
            out + before.0 == next.1 + after.0 && before.1 == after.1
        }),
{
    let node = stack.last();
    let rest = stack.drop_last();
    let next = step(stack, out, draw_at(draws, pos), recurse, depth_floor);
    let before = expand_all(draws, pos, stack, recurse, depth_floor);
    let after = expand_all(draws, pos + 1, next.0, recurse, depth_floor);
    if is_leaf(draw_at(draws, pos), recurse, node.length, depth_floor) {
        assert(out + before.0 =~= next.1 + after.0);
    } else {
        let child = child_of(node);
        let left = expand(draws, pos + 1, child, recurse, depth_floor);
        let right = expand(draws, left.1, child, recurse, depth_floor);
        let tail = expand_all(draws, right.1, rest, recurse, depth_floor);
        let one = rest.push(child);
        assert(one.drop_last() =~= rest);
        assert(next.0.drop_last() =~= one);
        assert(expand_all(draws, left.1, one, recurse, depth_floor) == (right.0 + tail.0, tail.1));
        assert(after == (left.0 + (right.0 + tail.0), tail.1));
        assert(before == ((left.0 + right.0) + tail.0, tail.1));
        assert(out + before.0 =~= next.1 + after.0);
    }
}

/// Takes the top node off the stack and decides it on `draw`: a leaf goes to
/// the output, a node that splits leaves its two children on the stack.
fn advance(
    stack: &mut Vec<Segment>,
    out: &mut Pattern,
    draw: u64,
    recurse: Probability,
    depth_floor: usize,
    Ghost(limit): Ghost<nat>,
)
    requires
        old(stack).len() > 0,
        limit <= usize::MAX,
        bounded(runs_of(old(stack)@), limit),
        old(out).wf(),
    ensures
        bounded(runs_of(final(stack)@), limit),
        final(out).wf(),
        (runs_of(final(stack)@), final(out)@) == step(
            runs_of(old(stack)@),
            old(out)@,
            draw,
            recurse,
            depth_floor as nat,
        ),
        weight(runs_of(final(stack)@)) < weight(runs_of(old(stack)@)),
        final(stack).len() <= STACK_LIMIT,
{
    let ghost before = runs_of(stack@);
    let top = stack.pop();
    let node = top.unwrap();
    assert(node@ == before.last());
    assert(runs_of(stack@) =~= before.drop_last());
    if decide_leaf(draw, recurse, node.length, depth_floor) {
        let accepted = out.push(node.length, node.repeat);
        assert(accepted);
    } else {
        proof {
            lemma_child_bounds(node@, limit);
        }
        let child = Segment { length: node.length / 2, repeat: node.repeat * 2 };
        assert(child@ == child_of(node@));
        stack.push(child);
        stack.push(child);
        proof {
            let rest = before.drop_last();
            assert(runs_of(stack@) =~= rest.push(child@).push(child@));
            lemma_weight_push(rest, child@);
            lemma_weight_push(rest.push(child@), child@);
        }
    }
    proof {
        lemma_stack_is_shallow(runs_of(stack@), limit);
    }
}

/// What the generator knows, in the middle of its work, of every script that
/// begins with the draws spent so far: the finished pattern is the output so
/// far followed by what the stack still owes.
spec fn explains(
    draws: Seq<u64>,
    drawn: Seq<u64>,
    root: Run,
    out: Seq<Run>,
    stack: Seq<Run>,
    recurse: Probability,
    depth_floor: nat,
) -> bool {
    drawn.len() <= draws.len() && draws.subrange(0, drawn.len() as int) == drawn ==> {
        let whole = expand(draws, 0, root, recurse, depth_floor);
        let owed = expand_all(draws, drawn.len(), stack, recurse, depth_floor);
        whole.0 == out + owed.0 && whole.1 == owed.1
    }
}

/// Generates the pattern of one event from the random source.
///
/// The root `(initial_duration, initial_repeat)` is subdivided with one
/// draw per node. Whatever the source hands out, the result is the
/// subdivision for the draws taken; the clauses after the first say what
/// follows for every outcome.
pub fn generate(
    rng: &mut StdRng,
    recurse: Probability,
    initial_duration: usize,
    initial_repeat: usize,
    depth_floor: usize,
) -> (pattern: Pattern)
    requires
        initial_duration >= 1,
        initial_repeat >= 1,
        initial_duration * initial_repeat <= usize::MAX,
    ensures
        exists|draws: Seq<u64>|
            draws_in_range(draws) && draws.len() == draws_spent(
                draws,
                recurse,
                initial_duration as nat,
                initial_repeat as nat,
                depth_floor as nat,
            ) && pattern@ == #[trigger] subdivision(
                draws,
                recurse,
                initial_duration as nat,
                initial_repeat as nat,
                depth_floor as nat,
            ),
        pattern.wf(),
        recurse.threshold() == 0 || initial_duration <= depth_floor ==> pattern@ == seq![
            Run { length: initial_duration as nat, repeat: initial_repeat as nat },
        ],
        forall|i: int|
            0 <= i < pattern@.len() ==> descends_from(
                #[trigger] pattern@[i],
                Run { length: initial_duration as nat, repeat: initial_repeat as nat },
            ),
        initial_repeat == 1 ==> forall|i: int|
            0 <= i < pattern@.len() ==> is_power_of_two((#[trigger] pattern@[i]).repeat),
        1 <= pattern@.len() <= initial_duration,
        total_samples(pattern@) >= initial_duration * initial_repeat,
{
    let ghost root = Run { length: initial_duration as nat, repeat: initial_repeat as nat };
    let ghost limit = (initial_duration * initial_repeat) as nat;
    let ghost floor = depth_floor as nat;
    let mut stack: Vec<Segment> = Vec::new();
    stack.push(Segment { length: initial_duration, repeat: initial_repeat });
    let mut out = Pattern::new();
    let ghost mut drawn: Seq<u64> = Seq::empty();
    proof {
        assert(runs_of(stack@) =~= seq![root]);
        assert forall|draws: Seq<u64>| #[trigger]
            explains(draws, drawn, root, out@, runs_of(stack@), recurse, floor) by {
            let whole = expand(draws, 0, root, recurse, floor);
            let single = seq![root];
            assert(single.last() == root);
            assert(single.drop_last() =~= Seq::<Run>::empty());
            let done = expand_all(draws, whole.1, single.drop_last(), recurse, floor);
            assert(done == (Seq::<Run>::empty(), whole.1));
            let owed = expand_all(draws, 0, single, recurse, floor);
            assert(owed == (whole.0 + done.0, done.1));
            assert(owed.0 =~= whole.0);
            assert(whole.0 =~= out@ + owed.0);
        }
    }
    while stack.len() > 0
        invariant
            limit <= usize::MAX,
            floor == depth_floor as nat,
            bounded(runs_of(stack@), limit),
            stack.len() <= STACK_LIMIT,
            out.wf(),
            draws_in_range(drawn),
            forall|draws: Seq<u64>| #[trigger]
                explains(draws, drawn, root, out@, runs_of(stack@), recurse, floor),
        decreases weight(runs_of(stack@)),
    {
        let word = next_word(rng);
        let draw = unit_draw(word);
        let ghost stack_before = runs_of(stack@);
        let ghost out_before = out@;
        let ghost drawn_before = drawn;
        advance(&mut stack, &mut out, draw, recurse, depth_floor, Ghost(limit));
        proof {
            drawn = drawn_before.push(draw);
            assert forall|draws: Seq<u64>| #[trigger]
                explains(draws, drawn, root, out@, runs_of(stack@), recurse, floor) by {
                if drawn.len() <= draws.len() && draws.subrange(0, drawn.len() as int) == drawn {
                    assert(draws.subrange(0, drawn_before.len() as int) =~= drawn_before) by {
                        assert forall|i: int| 0 <= i < drawn_before.len() implies draws[i]
                            == drawn_before[i] by {
                            assert(draws.subrange(0, drawn.len() as int)[i] == drawn[i]);
                        }
                    }
                    assert(explains(
                        draws,
                        drawn_before,
                        root,
                        out_before,
                        stack_before,
                        recurse,
                        floor,
                    ));
                    assert(draws.subrange(0, drawn.len() as int)[drawn_before.len() as int]
                        == draw);
                    assert(draw_at(draws, drawn_before.len()) == draw);
                    lemma_step(draws, drawn_before.len(), stack_before, out_before, recurse, floor);
                }
            }
        }
    }
    proof {
        assert(explains(drawn, drawn, root, out@, runs_of(stack@), recurse, floor));
        assert(drawn.subrange(0, drawn.len() as int) =~= drawn);
        assert(out@ + Seq::<Run>::empty() =~= out@);
        assert(out@ == subdivision(
            drawn,
            recurse,
            initial_duration as nat,
            initial_repeat as nat,
            depth_floor as nat,
        ));
        law_no_recursion(drawn, 0, root, recurse, floor);
        law_at_floor(drawn, 0, root, recurse, floor);
        law_leaves_descend(drawn, 0, root, recurse, floor);
        law_leaf_count(drawn, 0, root, recurse, floor);
        law_total_grows(drawn, 0, root, recurse, floor);
        if initial_repeat == 1 {
            assert(is_power_of_two(root.repeat)) by {
                lemma2_to64();
                assert(root.repeat == pow2(0));
            }
            law_repeats_are_powers_of_two(drawn, 0, root, recurse, floor);
        }
    }
    out
}

/// Generates the pattern of one event from a script of draws, spent in
/// visiting order. Draws past the end of the script refuse to recurse;
/// draws that are left over are ignored.
pub fn generate_scripted(
    draws: &Vec<u64>,
    recurse: Probability,
    initial_duration: usize,
    initial_repeat: usize,
    depth_floor: usize,
) -> (pattern: Pattern)
    requires
        initial_duration >= 1,
        initial_repeat >= 1,
        initial_duration * initial_repeat <= usize::MAX,
    ensures
        pattern@ == subdivision(
            draws@,
            recurse,
            initial_duration as nat,
            initial_repeat as nat,
            depth_floor as nat,
        ),
        pattern.wf(),
{
    let ghost root = Run { length: initial_duration as nat, repeat: initial_repeat as nat };
    let ghost limit = (initial_duration * initial_repeat) as nat;
    let ghost floor = depth_floor as nat;
    let mut stack: Vec<Segment> = Vec::new();
    stack.push(Segment { length: initial_duration, repeat: initial_repeat });
    let mut out = Pattern::new();
    let mut next: usize = 0;
    let ghost mut pos: nat = 0;
    proof {
        assert(runs_of(stack@) =~= seq![root]);
        let whole = expand(draws@, 0, root, recurse, floor);
        let single = seq![root];
        assert(single.last() == root);
        assert(single.drop_last() =~= Seq::<Run>::empty());
        let done = expand_all(draws@, whole.1, single.drop_last(), recurse, floor);
        assert(done == (Seq::<Run>::empty(), whole.1));
        let owed = expand_all(draws@, 0, single, recurse, floor);
        assert(owed == (whole.0 + done.0, done.1));
        assert(whole.0 =~= out@ + owed.0);
    }
    while stack.len() > 0
        invariant
            limit <= usize::MAX,
            floor == depth_floor as nat,
            bounded(runs_of(stack@), limit),
            stack.len() <= STACK_LIMIT,
            out.wf(),
            next <= draws.len(),
            next <= pos,
            next < draws.len() ==> next == pos,
            expand(draws@, 0, root, recurse, floor).0 == out@ + expand_all(
                draws@,
                pos,
                runs_of(stack@),
                recurse,
                floor,
            ).0,
        decreases weight(runs_of(stack@)),
    {
        let mut draw: u64 = u64::MAX;
        if next < draws.len() {
            draw = draws[next];
            next = next + 1;
        }
        assert(draw == draw_at(draws@, pos));
        proof {
            lemma_step(draws@, pos, runs_of(stack@), out@, recurse, floor);
            pos = pos + 1;
        }
        advance(&mut stack, &mut out, draw, recurse, depth_floor, Ghost(limit));
    }
    proof {
        assert(out@ + Seq::<Run>::empty() =~= out@);
    }
    out
}

// ---------------------------------------------------------------------------
// Laws of the subdivision
// ---------------------------------------------------------------------------
/// `run` is what `node` becomes after some number of halvings: its length is
/// halved and its repeat count doubled that many times.
pub open spec fn descends_from(run: Run, node: Run) -> bool {
    exists|k: nat|
        run.length == node.length / #[trigger] pow2(k) && run.repeat == node.repeat * pow2(k)
}

/// The subdivision that splits wherever the floor allows it.
pub open spec fn full_subdivision(node: Run, depth_floor: nat) -> Seq<Run>
    decreases node.length,
{
    if node.length <= depth_floor || node.length <= 1 {
        seq![node]
    } else {
        full_subdivision(child_of(node), depth_floor) + full_subdivision(
            child_of(node),
            depth_floor,
        )
    }
}

/// With recurse probability 0 a node is never split, whatever the draws.
pub proof fn law_no_recursion(
    draws: Seq<u64>,
    pos: nat,
    node: Run,
    recurse: Probability,
    depth_floor: nat,
)
    ensures
        recurse.threshold() == 0 ==> expand(draws, pos, node, recurse, depth_floor) == (
            seq![node],
            pos + 1,
        ),
{
}

/// A node at or below the depth floor is never split, whatever the draws
/// and the recurse probability.
pub proof fn law_at_floor(
    draws: Seq<u64>,
    pos: nat,
    node: Run,
    recurse: Probability,
    depth_floor: nat,
)
    ensures
        node.length <= depth_floor ==> expand(draws, pos, node, recurse, depth_floor) == (
            seq![node],
            pos + 1,
        ),
{
}

/// Every leaf is its root after some number of halvings; the leaves of a
/// positive root are positive.
pub proof fn law_leaves_descend(
    draws: Seq<u64>,
    pos: nat,
    node: Run,
    recurse: Probability,
    depth_floor: nat,
)
    ensures
        forall|i: int|
            0 <= i < expand(draws, pos, node, recurse, depth_floor).0.len() ==> descends_from(
                #[trigger] expand(draws, pos, node, recurse, depth_floor).0[i],
                node,
            ),
        node.length >= 1 && node.repeat >= 1 ==> all_positive(
            expand(draws, pos, node, recurse, depth_floor).0,
        ),
    decreases node.length,
{
    let leaves = expand(draws, pos, node, recurse, depth_floor).0;
    if is_leaf(draw_at(draws, pos), recurse, node.length, depth_floor) {
        assert(pow2(0) == 1) by {
            lemma2_to64();
        }
        assert(descends_from(node, node)) by {
            assert(node.length == node.length / pow2(0) && node.repeat == node.repeat * pow2(0));
        }
    } else {
        let child = child_of(node);
        let left = expand(draws, pos + 1, child, recurse, depth_floor);
        let right = expand(draws, left.1, child, recurse, depth_floor);
        law_leaves_descend(draws, pos + 1, child, recurse, depth_floor);
        law_leaves_descend(draws, left.1, child, recurse, depth_floor);
        assert forall|i: int| 0 <= i < leaves.len() implies descends_from(
            #[trigger] leaves[i],
            node,
        ) by {
            let run = leaves[i];
            if i < left.0.len() {
                assert(run == left.0[i]);
            } else {
                assert(run == right.0[i - left.0.len()]);
            }
            assert(descends_from(run, child));
            let k = choose|k: nat|
                run.length == child.length / #[trigger] pow2(k) && run.repeat == child.repeat
                    * pow2(k);
            lemma_pow2_pos(k);
            lemma_pow2_unfold(k + 1);
            lemma_div_denominator(node.length as int, 2, pow2(k) as int);
            assert(child.repeat * pow2(k) == node.repeat * (2 * pow2(k))) by (nonlinear_arith)
                requires
                    child.repeat == node.repeat * 2,
            ;
            assert(run.length == node.length / pow2(k + 1) && run.repeat == node.repeat * pow2(
                k + 1,
            ));
        }
        if node.length >= 1 && node.repeat >= 1 {
            assert forall|i: int| 0 <= i < leaves.len() implies (#[trigger] leaves[i]).length >= 1
                && leaves[i].repeat >= 1 by {
                if i < left.0.len() {
                    assert(leaves[i] == left.0[i]);
                } else {
                    assert(leaves[i] == right.0[i - left.0.len()]);
                }
            }
        }
    }
}

/// `n` is a power of two.
pub open spec fn is_power_of_two(n: nat) -> bool {
    exists|k: nat| n == #[trigger] pow2(k)
}

/// Repeat counts are doubled and nothing else: below a root whose repeat
/// count is a power of two, every leaf's is one.
pub proof fn law_repeats_are_powers_of_two(
    draws: Seq<u64>,
    pos: nat,
    node: Run,
    recurse: Probability,
    depth_floor: nat,
)
    requires
        is_power_of_two(node.repeat),
    ensures
        forall|i: int|
            0 <= i < expand(draws, pos, node, recurse, depth_floor).0.len() ==> is_power_of_two(
                (#[trigger] expand(draws, pos, node, recurse, depth_floor).0[i]).repeat,
            ),
{
    let leaves = expand(draws, pos, node, recurse, depth_floor).0;
    law_leaves_descend(draws, pos, node, recurse, depth_floor);
    assert forall|i: int| 0 <= i < leaves.len() implies is_power_of_two(
        (#[trigger] leaves[i]).repeat,
    ) by {
        let run = leaves[i];
        assert(descends_from(run, node));
        let k = choose|k: nat|
            run.length == node.length / #[trigger] pow2(k) && run.repeat == node.repeat * pow2(k);
        let e = choose|e: nat| node.repeat == #[trigger] pow2(e);
        lemma_pow2_adds(e, k);
        assert(run.repeat == pow2(e + k));
    }
}

/// A subdivision has at least one leaf and at most as many leaves as its
/// root has samples, and it spends one draw on each of its nodes.
pub proof fn law_leaf_count(
    draws: Seq<u64>,
    pos: nat,
    node: Run,
    recurse: Probability,
    depth_floor: nat,
)
    ensures
        1 <= expand(draws, pos, node, recurse, depth_floor).0.len(),
        node.length >= 1 ==> expand(draws, pos, node, recurse, depth_floor).0.len() <= node.length,
        expand(draws, pos, node, recurse, depth_floor).1 == pos + 2 * expand(
            draws,
            pos,
            node,
            recurse,
            depth_floor,
        ).0.len() - 1,
    decreases node.length,
{
    if !is_leaf(draw_at(draws, pos), recurse, node.length, depth_floor) {
        let child = child_of(node);
        let left = expand(draws, pos + 1, child, recurse, depth_floor);
        law_leaf_count(draws, pos + 1, child, recurse, depth_floor);
        law_leaf_count(draws, left.1, child, recurse, depth_floor);
    }
}

/// The total of a pattern is the sum of the totals of its parts.
pub proof fn law_total_of_concatenation(front: Seq<Run>, back: Seq<Run>)
    ensures
        total_samples(front + back) == total_samples(front) + total_samples(back),
    decreases back.len(),
{
    if back.len() == 0 {
        assert(front + back =~= front);
    } else {
        assert((front + back).drop_last() =~= front + back.drop_last());
        law_total_of_concatenation(front, back.drop_last());
    }
}

proof fn lemma_total_of_leaf(node: Run)
    ensures
        total_samples(seq![node]) == node.length * node.repeat,
{
    assert(seq![node].drop_last() =~= Seq::<Run>::empty());
    assert(total_samples(seq![node]) == total_samples(Seq::<Run>::empty()) + node.length
        * node.repeat);
}

proof fn lemma_split_doubles(node: Run)
    requires
        node.length >= 2,
    ensures
        2 * (child_of(node).length * child_of(node).repeat) >= node.length * node.repeat,
{
    let d = node.length as int;
    let r = node.repeat as int;
    assert(2 * (d / 2) >= d - 1);
    assert(2 * ((d / 2) * (r * 2)) >= d * r) by (nonlinear_arith)
        requires
            2 * (d / 2) >= d - 1,
            d >= 2,
            r >= 0,
    ;
}

proof fn lemma_total_of_full_subdivision(node: Run, depth_floor: nat)
    ensures
        total_samples(full_subdivision(node, depth_floor)) >= node.length * node.repeat,
    decreases node.length,
{
    if node.length <= depth_floor || node.length <= 1 {
        lemma_total_of_leaf(node);
    } else {
        let child = child_of(node);
        lemma_total_of_full_subdivision(child, depth_floor);
        let part = full_subdivision(child, depth_floor);
        law_total_of_concatenation(part, part);
        lemma_split_doubles(node);
    }
}

/// More subdivision means more samples. Whatever the draws, a pattern plays
/// at least the `length * repeat` samples of its root, which is what it plays
/// when the root is not split, and at most what the subdivision plays that
/// splits wherever the floor allows it.
pub proof fn law_total_grows(
    draws: Seq<u64>,
    pos: nat,
    node: Run,
    recurse: Probability,
    depth_floor: nat,
)
    ensures
        total_samples(expand(draws, pos, node, recurse, depth_floor).0) >= node.length
            * node.repeat,
        is_leaf(draw_at(draws, pos), recurse, node.length, depth_floor) ==> total_samples(
            expand(draws, pos, node, recurse, depth_floor).0,
        ) == node.length * node.repeat,
        total_samples(expand(draws, pos, node, recurse, depth_floor).0) <= total_samples(
            full_subdivision(node, depth_floor),
        ),
    decreases node.length,
{
    if is_leaf(draw_at(draws, pos), recurse, node.length, depth_floor) {
        lemma_total_of_leaf(node);
        lemma_total_of_full_subdivision(node, depth_floor);
    } else {
        let child = child_of(node);
        let left = expand(draws, pos + 1, child, recurse, depth_floor);
        let right = expand(draws, left.1, child, recurse, depth_floor);
        law_total_grows(draws, pos + 1, child, recurse, depth_floor);
        law_total_grows(draws, left.1, child, recurse, depth_floor);
        law_total_of_concatenation(left.0, right.0);
        let part = full_subdivision(child, depth_floor);
        law_total_of_concatenation(part, part);
        lemma_split_doubles(node);
    }
}

/// With recurse probability 1 and draws in range for every node visited,
/// the subdivision splits wherever the floor allows it.
pub proof fn law_full_recursion(
    draws: Seq<u64>,
    pos: nat,
    node: Run,
    recurse: Probability,
    depth_floor: nat,
)
    requires
        recurse.threshold() == DRAW_RANGE,
        draws_in_range(draws),
        expand(draws, pos, node, recurse, depth_floor).1 <= draws.len(),
    ensures
        expand(draws, pos, node, recurse, depth_floor).0 == full_subdivision(node, depth_floor),
    decreases node.length,
{
    law_leaf_count(draws, pos, node, recurse, depth_floor);
    assert(draw_at(draws, pos) == draws[pos as int]);
    if !is_leaf(draw_at(draws, pos), recurse, node.length, depth_floor) {
        let child = child_of(node);
        let left = expand(draws, pos + 1, child, recurse, depth_floor);
        law_leaf_count(draws, pos + 1, child, recurse, depth_floor);
        law_leaf_count(draws, left.1, child, recurse, depth_floor);
        law_full_recursion(draws, pos + 1, child, recurse, depth_floor);
        law_full_recursion(draws, left.1, child, recurse, depth_floor);
    }
}

} // verus!
