use percussiveglitchbpm::tempo::{
    beat_spacing, duration_catalog, note_divisor, note_index, samples_per_second,
    ConfigurationError, Spacing, CATALOG_LEN, NOTE_TABLE_LEN,
};

#[test]
fn note_index_is_the_binary_logarithm() {
    assert_eq!(note_index(0), Ok(0));
    assert_eq!(note_index(1), Ok(0));
    assert_eq!(note_index(2), Ok(1));
    assert_eq!(note_index(3), Ok(1));
    assert_eq!(note_index(4), Ok(2));
    assert_eq!(note_index(8), Ok(3));
    assert_eq!(note_index(16), Ok(4));
    assert_eq!(note_index(32), Ok(5));
    assert_eq!(note_index(64), Ok(6));
    assert_eq!(note_index(127), Ok(6));
}

#[test]
fn note_outside_the_table_is_refused() {
    assert_eq!(note_index(128), Err(ConfigurationError::NoteOutOfRange));
    assert_eq!(note_index(usize::MAX), Err(ConfigurationError::NoteOutOfRange));
    assert!(matches!(
        beat_spacing(120, 128, 44100, 1),
        Err(ConfigurationError::NoteOutOfRange)
    ));
    assert!(beat_spacing(120, 127, 44100, 1).is_ok());
}

#[test]
fn note_table_divisors() {
    let divisors: Vec<u64> = (0..NOTE_TABLE_LEN).map(note_divisor).collect();
    assert_eq!(divisors, vec![1, 2, 4, 8, 64, 32, 64]);
}

#[test]
fn stereo_doubles_the_sample_rate() {
    assert_eq!(samples_per_second(44100, 1), 44100);
    assert_eq!(samples_per_second(44100, 2), 88200);
    assert_eq!(samples_per_second(44100, 3), 44100);
    assert_eq!(samples_per_second(u32::MAX, 2), 2 * (u32::MAX as u64));
}

#[test]
fn half_note_grid_at_120_bpm() {
    let spacing = beat_spacing(120, 2, 44100, 1).unwrap();
    assert_eq!(spacing.start_index(0), 0);
    assert_eq!(spacing.start_index(1), 44100);
    assert_eq!(spacing.start_index(3), 132300);
    assert_eq!(spacing.beats_within(100000), 2);
    assert_eq!(spacing.beats_within(88200), 2);
    assert_eq!(spacing.beats_within(88199), 1);
    let stereo = beat_spacing(120, 4, 44100, 2).unwrap();
    assert_eq!(stereo.start_index(1), 44100);
}

#[test]
fn fractional_spacing_is_rounded_down_beat_by_beat() {
    // 240 * 44100 / (137 * 4) = 19313.86... samples
    let spacing = beat_spacing(137, 4, 44100, 1).unwrap();
    assert_eq!(spacing.start_index(1), 19313);
    assert_eq!(spacing.start_index(2), 38627);
    assert_eq!(spacing.start_index(7), 135197);
    // note values 16 and 64 share a spacing of 1378.125 samples at 120 bpm
    let sixteen = beat_spacing(120, 16, 44100, 1).unwrap();
    assert_eq!(sixteen.start_index(1), 1378);
    assert_eq!(sixteen.start_index(8), 11025);
    let sixty_four = beat_spacing(120, 64, 44100, 1).unwrap();
    assert_eq!(sixty_four.start_index(8), 11025);
    let thirty_two = beat_spacing(120, 32, 44100, 1).unwrap();
    assert_eq!(thirty_two.start_index(4), 11025);
}

#[test]
fn spacing_of_three_halves() {
    let spacing = Spacing::new(3, 2);
    let starts: Vec<usize> = (0..5).map(|b| spacing.start_index(b)).collect();
    assert_eq!(starts, vec![0, 1, 3, 4, 6]);
    assert_eq!(spacing.beats_within(10), 6);
    assert_eq!(spacing.beats_within(0), 0);
    for beat in 0..spacing.beats_within(10) {
        assert!(spacing.start_index(beat) < 10);
    }
}

#[test]
fn degenerate_spacings() {
    let wide = Spacing::new(4, 0);
    assert_eq!(wide.beats_within(12), 0);
    assert_eq!(wide.start_index(0), usize::MAX);
    let narrow = Spacing::new(0, 1);
    assert_eq!(narrow.beats_within(12), usize::MAX);
    assert_eq!(narrow.beats_within(0), 0);
    assert_eq!(narrow.start_index(1000), 0);
    let huge = Spacing::new(u64::MAX, 1);
    assert_eq!(huge.start_index(usize::MAX), usize::MAX);
    let tiny = Spacing::new(1, u64::MAX);
    assert_eq!(tiny.beats_within(usize::MAX), usize::MAX);
    assert_eq!(tiny.start_index(usize::MAX), 1);
    let still = beat_spacing(0, 4, 44100, 1).unwrap();
    assert_eq!(still.beats_within(1_000_000), 0);
}

#[test]
fn catalog_holds_whole_to_sixteenth_notes() {
    let catalog = duration_catalog(120, 44100, 1);
    assert_eq!(catalog.len(), CATALOG_LEN);
    assert_eq!(catalog, vec![88200, 44100, 22050, 11025, 5512]);
    assert_eq!(duration_catalog(120, 44100, 2), vec![176400, 88200, 44100, 22050, 11025]);
    assert_eq!(duration_catalog(90, 44100, 1), vec![117600, 58800, 29400, 14700, 7350]);
    assert_eq!(duration_catalog(0, 44100, 1), vec![usize::MAX; 5]);
    assert_eq!(duration_catalog(usize::MAX, 1, 1), vec![0; 5]);
}
