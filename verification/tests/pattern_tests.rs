use percussiveglitchbpm::pattern::{Pattern, Segment};
use percussiveglitchbpm::probability::{unit_draw, Probability, DRAW_RANGE};
use percussiveglitchbpm::subdivide::{decide_leaf, generate, generate_scripted, DEPTH_FLOOR};
use rand::rngs::StdRng;
use rand::{Rng, SeedableRng};

fn seg(length: usize, repeat: usize) -> Segment {
    Segment { length, repeat }
}

#[test]
fn probability_thresholds() {
    assert_eq!(Probability::never().get_threshold(), 0);
    assert_eq!(Probability::always().get_threshold(), DRAW_RANGE);
    assert_eq!(DRAW_RANGE, 1u64 << 53);
    assert_eq!(Probability::from_threshold(17).unwrap().get_threshold(), 17);
    assert!(Probability::from_threshold(DRAW_RANGE).is_some());
    assert!(Probability::from_threshold(DRAW_RANGE + 1).is_none());
    assert!(Probability::from_threshold(u64::MAX).is_none());
}

#[test]
fn probability_decides_by_threshold() {
    let p = Probability::from_threshold(5).unwrap();
    assert!(p.happens(0));
    assert!(p.happens(4));
    assert!(!p.happens(5));
    assert!(!p.happens(u64::MAX));
    assert!(!Probability::never().happens(0));
    assert!(Probability::always().happens(DRAW_RANGE - 1));
}

#[test]
fn unit_draw_keeps_the_top_53_bits() {
    assert_eq!(unit_draw(0), 0);
    assert_eq!(unit_draw(2047), 0);
    assert_eq!(unit_draw(2048), 1);
    assert_eq!(unit_draw(u64::MAX), DRAW_RANGE - 1);
    assert_eq!(unit_draw(1u64 << 63), 1u64 << 52);
}

#[test]
fn pattern_push_refuses_zeros() {
    let mut pattern = Pattern::new();
    assert_eq!(pattern.len(), 0);
    assert!(pattern.push(3, 2));
    assert!(!pattern.push(0, 2));
    assert!(!pattern.push(3, 0));
    assert!(pattern.push(1, 1));
    assert_eq!(pattern.len(), 2);
    assert_eq!(pattern.get(0), Some(seg(3, 2)));
    assert_eq!(pattern.get(1), Some(seg(1, 1)));
    assert_eq!(pattern.get(2), None);
    assert_eq!(pattern.segments(), &vec![seg(3, 2), seg(1, 1)]);
}

#[test]
fn leaf_decision_follows_draw_floor_and_size() {
    let half = Probability::from_threshold(1u64 << 52).unwrap();
    // the draw refuses
    assert!(decide_leaf(1u64 << 52, half, 1000, 128));
    // the draw recurses and the node is above the floor
    assert!(!decide_leaf((1u64 << 52) - 1, half, 1000, 128));
    assert!(!decide_leaf(0, half, 129, 128));
    // at the floor
    assert!(decide_leaf(0, half, 128, 128));
    // nothing left to halve, whatever the floor
    assert!(decide_leaf(0, half, 1, 0));
    assert!(decide_leaf(0, half, 0, 0));
    assert!(!decide_leaf(0, half, 2, 0));
}

#[test]
fn no_recursion_gives_the_root() {
    for seed in 0..20u64 {
        let mut rng = StdRng::seed_from_u64(seed);
        let pattern = generate(&mut rng, Probability::never(), 44100, 3, DEPTH_FLOOR);
        assert_eq!(pattern.segments(), &vec![seg(44100, 3)]);
    }
}

#[test]
fn at_or_below_the_floor_gives_the_root() {
    for seed in 0..20u64 {
        let mut rng = StdRng::seed_from_u64(seed);
        let pattern = generate(&mut rng, Probability::always(), 128, 1, 128);
        assert_eq!(pattern.segments(), &vec![seg(128, 1)]);
        let pattern = generate(&mut rng, Probability::always(), 5, 2, 128);
        assert_eq!(pattern.segments(), &vec![seg(5, 2)]);
        let half = Probability::from_threshold(1u64 << 52).unwrap();
        let pattern = generate(&mut rng, half, 100, 1, 100);
        assert_eq!(pattern.segments(), &vec![seg(100, 1)]);
    }
}

#[test]
fn full_recursion_of_two_samples_splits_once() {
    let mut rng = StdRng::seed_from_u64(1);
    let pattern = generate(&mut rng, Probability::always(), 2, 1, 1);
    assert_eq!(pattern.segments(), &vec![seg(1, 2), seg(1, 2)]);
    let total: usize = pattern.segments().iter().map(|s| s.length * s.repeat).sum();
    assert_eq!(total, 4);
}

#[test]
fn full_recursion_stops_at_the_floor() {
    let mut rng = StdRng::seed_from_u64(9);
    let pattern = generate(&mut rng, Probability::always(), 1000, 1, 128);
    // 1000 -> 500 -> 250 -> 125
    assert_eq!(pattern.segments(), &vec![seg(125, 8); 8]);
}

#[test]
fn full_recursion_stops_at_one_sample_without_a_floor() {
    let mut rng = StdRng::seed_from_u64(9);
    let pattern = generate(&mut rng, Probability::always(), 5, 1, 0);
    // 5 -> 2 -> 1
    assert_eq!(pattern.segments(), &vec![seg(1, 4); 4]);
}

#[test]
fn scripted_draws_give_the_expected_tree() {
    let p = Probability::from_threshold(5).unwrap();
    // root splits, left child stays, right child splits, script runs out
    let pattern = generate_scripted(&vec![0, 7, 0], p, 1024, 1, 128);
    assert_eq!(pattern.segments(), &vec![seg(512, 2), seg(256, 4), seg(256, 4)]);
    // left child splits first: depth first, left to right
    let pattern = generate_scripted(&vec![4, 3, 9, 9, 9], p, 1024, 1, 128);
    assert_eq!(pattern.segments(), &vec![seg(256, 4), seg(256, 4), seg(512, 2)]);
    // odd durations are halved with rounding down
    let pattern = generate_scripted(&vec![0, 0, 9, 9, 9], p, 1001, 3, 128);
    assert_eq!(pattern.segments(), &vec![seg(250, 12), seg(250, 12), seg(500, 6)]);
    // an empty script never recurses
    let pattern = generate_scripted(&vec![], p, 1024, 1, 128);
    assert_eq!(pattern.segments(), &vec![seg(1024, 1)]);
    // draws that are left over are ignored
    let pattern = generate_scripted(&vec![9, 0, 0, 0], p, 1024, 1, 128);
    assert_eq!(pattern.segments(), &vec![seg(1024, 1)]);
}

#[test]
fn generator_spends_the_words_of_the_random_source_in_order() {
    let half = Probability::from_threshold(1u64 << 52).unwrap();
    for seed in 0..50u64 {
        let mut rng = StdRng::seed_from_u64(seed);
        let mut twin = StdRng::seed_from_u64(seed);
        let pattern = generate(&mut rng, half, 1 << 16, 1, DEPTH_FLOOR);
        let draws: Vec<u64> = (0..2048).map(|_| twin.gen::<u64>() >> 11).collect();
        let expected = generate_scripted(&draws, half, 1 << 16, 1, DEPTH_FLOOR);
        assert_eq!(pattern.segments(), expected.segments());
    }
}

#[test]
fn leaves_are_halvings_of_the_root() {
    let often = Probability::from_threshold(3 * (DRAW_RANGE / 4)).unwrap();
    let mut seen_split = false;
    for seed in 0..50u64 {
        let mut rng = StdRng::seed_from_u64(seed);
        let pattern = generate(&mut rng, often, 1 << 16, 1, DEPTH_FLOOR);
        // at most the 512 leaves of the subdivision that splits down to the floor
        assert!(pattern.len() >= 1 && pattern.len() <= 512);
        let mut total: usize = 0;
        for s in pattern.segments() {
            assert!(s.length >= 1);
            assert!(s.repeat.is_power_of_two());
            assert_eq!(s.length, (1 << 16) / s.repeat);
            assert!(s.length >= DEPTH_FLOOR / 2);
            total += s.length * s.repeat;
        }
        assert!(total >= 1 << 16);
        assert_eq!(total, pattern.len() << 16);
        seen_split = seen_split || pattern.len() > 1;
    }
    assert!(seen_split);
}

#[test]
fn repeat_counts_start_from_the_initial_repeat() {
    let pattern = generate_scripted(&vec![0, 0, 0, 0, 0, 0, 0], Probability::always(), 8, 3, 2);
    assert_eq!(pattern.segments(), &vec![seg(2, 12); 4]);
}
