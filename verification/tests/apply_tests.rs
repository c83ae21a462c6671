use percussiveglitchbpm::apply::apply;
use percussiveglitchbpm::pattern::Pattern;
use percussiveglitchbpm::probability::Probability;
use percussiveglitchbpm::subdivide::generate;
use rand::rngs::StdRng;
use rand::SeedableRng;

fn pattern_of(pairs: &[(usize, usize)]) -> Pattern {
    let mut pattern = Pattern::new();
    for &(length, repeat) in pairs {
        assert!(pattern.push(length, repeat));
    }
    pattern
}

#[test]
fn single_leaf_copies_the_source() {
    // recurse probability 0, budget 4, start 0
    let source = vec![10, 20, 30, 40, 50, 60];
    let mut output = vec![-1, -2, -3, -4, -5, -6];
    let mut rng = StdRng::seed_from_u64(3);
    let pattern = generate(&mut rng, Probability::never(), 4, 1, 128);
    let written = apply(&source, &mut output, 0, &pattern, 4);
    assert_eq!(written, 4);
    assert_eq!(output, vec![10, 20, 30, 40, -5, -6]);
}

#[test]
fn single_leaf_leaves_a_copy_of_the_source_unchanged() {
    let source = vec![10, 20, 30, 40, 50, 60];
    let mut output = source.clone();
    let written = apply(&source, &mut output, 0, &pattern_of(&[(4, 1)]), 4);
    assert_eq!(written, 4);
    assert_eq!(output, source);
    let written = apply(&source, &mut output, 2, &pattern_of(&[(3, 1)]), 100);
    assert_eq!(written, 3);
    assert_eq!(output, source);
}

#[test]
fn split_of_two_samples_writes_four() {
    let source = vec![7, 8, 9, 10, 11, 12];
    let mut output = vec![0; 6];
    let mut rng = StdRng::seed_from_u64(3);
    let pattern = generate(&mut rng, Probability::always(), 2, 1, 1);
    let written = apply(&source, &mut output, 1, &pattern, 10);
    assert_eq!(written, 4);
    assert_eq!(output, vec![0, 8, 8, 8, 8, 0]);
}

#[test]
fn every_repetition_restarts_at_the_fragment() {
    let source: Vec<i32> = (100..120).collect();
    let mut output = vec![0; 20];
    let written = apply(&source, &mut output, 2, &pattern_of(&[(3, 2), (2, 3), (1, 1)]), 100);
    assert_eq!(written, 13);
    let mut expected = vec![0; 20];
    let played = [102, 103, 104, 102, 103, 104, 102, 103, 102, 103, 102, 103, 102];
    expected[2..15].copy_from_slice(&played);
    assert_eq!(output, expected);
}

#[test]
fn budget_is_overrun_by_exactly_one_sample() {
    let source: Vec<i32> = (1..=10).collect();
    let mut output = vec![0; 10];
    let written = apply(&source, &mut output, 0, &pattern_of(&[(2, 4)]), 4);
    assert_eq!(written, 5);
    assert_eq!(output, vec![1, 2, 1, 2, 1, 0, 0, 0, 0, 0]);

    let mut output = vec![0; 10];
    let written = apply(&source, &mut output, 3, &pattern_of(&[(2, 4)]), 0);
    assert_eq!(written, 1);
    assert_eq!(output, vec![0, 0, 0, 4, 0, 0, 0, 0, 0, 0]);

    let mut output = vec![0; 10];
    let written = apply(&source, &mut output, 0, &pattern_of(&[(2, 2)]), 3);
    assert_eq!(written, 4);
    assert_eq!(output, vec![1, 2, 1, 2, 0, 0, 0, 0, 0, 0]);
}

#[test]
fn event_is_cut_off_at_the_end_of_the_buffer() {
    let source: Vec<i32> = (1..=6).collect();
    let mut output = vec![0; 6];
    let written = apply(&source, &mut output, 4, &pattern_of(&[(3, 5)]), 100);
    assert_eq!(written, 2);
    assert_eq!(output, vec![0, 0, 0, 0, 5, 6]);
}

#[test]
fn event_past_the_end_writes_nothing() {
    let source: Vec<i32> = (1..=6).collect();
    let mut output = vec![9; 6];
    assert_eq!(apply(&source, &mut output, 6, &pattern_of(&[(3, 5)]), 100), 0);
    assert_eq!(apply(&source, &mut output, 7, &pattern_of(&[(3, 5)]), 100), 0);
    assert_eq!(apply(&source, &mut output, usize::MAX, &pattern_of(&[(3, 5)]), usize::MAX), 0);
    assert_eq!(output, vec![9; 6]);
}

#[test]
fn empty_pattern_and_empty_buffer_write_nothing() {
    let source: Vec<i32> = (1..=6).collect();
    let mut output = vec![9; 6];
    assert_eq!(apply(&source, &mut output, 0, &Pattern::new(), 100), 0);
    assert_eq!(output, vec![9; 6]);
    let mut empty: Vec<i32> = Vec::new();
    assert_eq!(apply(&Vec::new(), &mut empty, 0, &pattern_of(&[(3, 5)]), 100), 0);
    assert!(empty.is_empty());
}

#[test]
fn largest_budget_does_not_overflow() {
    let source: Vec<i32> = (1..=6).collect();
    let mut output = vec![0; 6];
    let written = apply(&source, &mut output, 1, &pattern_of(&[(2, usize::MAX)]), usize::MAX);
    assert_eq!(written, 5);
    assert_eq!(output, vec![0, 2, 3, 2, 3, 2]);
}

#[test]
fn written_samples_never_exceed_budget_plus_one() {
    let source: Vec<i32> = (0..64).collect();
    for seed in 0..40u64 {
        let mut rng = StdRng::seed_from_u64(seed);
        let half = Probability::from_threshold(1u64 << 52).unwrap();
        let budget = 1 + (seed as usize % 40);
        let start = (seed as usize * 7) % 70;
        let pattern = generate(&mut rng, half, 32, 1, 2);
        let mut output = vec![-1; 64];
        let written = apply(&source, &mut output, start, &pattern, budget);
        assert!(written <= budget + 1);
        assert_eq!(output.len(), 64);
        for (i, &sample) in output.iter().enumerate() {
            if i >= start && i < start + written {
                assert!(sample >= start as i32 && sample <= i as i32);
            } else {
                assert_eq!(sample, -1);
            }
        }
    }
}
