//! Tempo arithmetic: from beats per minute and a note value to the beat
//! grid and the catalog of event lengths, in exact integer fractions.

use vstd::arithmetic::div_mod::lemma_fundamental_div_mod;
use vstd::prelude::*;

verus! {

/// Why a run cannot be configured.
#[derive(Clone, Copy, Debug, PartialEq, Eq, Structural)]
pub enum ConfigurationError {
    /// The note value has no entry in the note table.
    NoteOutOfRange,
}

/// Number of entries of the note table.
pub const NOTE_TABLE_LEN: usize = 7;

/// Number of entries of the catalog of event lengths.
pub const CATALOG_LEN: usize = 5;

/// Seconds per whole note at one beat per minute: at `bpm` quarter notes per
/// minute a whole note lasts `240 / bpm` seconds.
pub const WHOLE_NOTE_SECONDS: u64 = 240;

/// Index of a note value in the note table: the integer binary logarithm of
/// the note value, and 0 for the note value 0.
pub open spec fn note_index_of(note: nat) -> nat
    decreases note,
{
    if note <= 1 {
        0
    } else {
        1 + note_index_of(note / 2)
    }
}

/// Index of a note value in the note table. Note values of 128 and more
/// have no entry.
pub fn note_index(note: usize) -> (index: Result<usize, ConfigurationError>)
    ensures
        index is Ok <==> note_index_of(note as nat) < NOTE_TABLE_LEN,
        index is Ok <==> note < 128,
        index matches Ok(k) ==> k == note_index_of(note as nat),
        index matches Err(e) ==> e == ConfigurationError::NoteOutOfRange,
{
    proof {
        reveal_with_fuel(note_index_of, 9);
    }
    if note < 2 {
        Ok(0)
    } else if note < 4 {
        Ok(1)
    } else if note < 8 {
        Ok(2)
    } else if note < 16 {
        Ok(3)
    } else if note < 32 {
        Ok(4)
    } else if note < 64 {
        Ok(5)
    } else if note < 128 {
        Ok(6)
    } else {
        Err(ConfigurationError::NoteOutOfRange)
    }
}

/// How many beats of the grid make one whole note, for each entry of the
/// note table: whole, half, quarter, eighth, sixty-fourth, thirty-second and
/// sixty-fourth again. The fifth entry is the sixty-fourth note, not the
/// sixteenth.
pub open spec fn note_divisor_of(index: nat) -> nat {
    if index == 0 {
        1
    } else if index == 1 {
        2
    } else if index == 2 {
        4
    } else if index == 3 {
        8
    } else if index == 5 {
        32
    } else {
        64
    }
}

/// The divisor of the whole note for an entry of the note table.
pub fn note_divisor(index: usize) -> (divisor: u64)
    ensures
        divisor == note_divisor_of(index as nat),
        1 <= divisor <= 64,
{
    if index == 0 {
        1
    } else if index == 1 {
        2
    } else if index == 2 {
        4
    } else if index == 3 {
        8
    } else if index == 5 {
        32
    } else {
        64
    }
}

/// Samples per second of playing time: a stereo stream interleaves two
/// samples for every frame.
pub open spec fn samples_per_second_of(sample_rate: nat, channels: nat) -> nat {
    if channels == 2 {
        2 * sample_rate
    } else {
        sample_rate
    }
}

/// Samples per second of playing time for a stream of `channels` channels.
pub fn samples_per_second(sample_rate: u32, channels: u16) -> (rate: u64)
    ensures
        rate == samples_per_second_of(sample_rate as nat, channels as nat),
{
    if channels == 2 {
        2 * (sample_rate as u64)
    } else {
        sample_rate as u64
    }
}

/// The floor of `num / den`, capped at the largest index. A fraction with
/// denominator 0 is infinitely large.
pub open spec fn capped_quotient(num: nat, den: nat) -> nat {
    if den == 0 || num / den > usize::MAX {
        usize::MAX as nat
    } else {
        num / den
    }
}

fn capped_divide(num: u128, den: u128) -> (quotient: usize)
    ensures
        quotient == capped_quotient(num as nat, den as nat),
{
    if den == 0 {
        return usize::MAX;
    }
    let q = num / den;
    if q > usize::MAX as u128 {
        usize::MAX
    } else {
        q as usize
    }
}

/// The distance between two beats of the grid, in samples, as the exact
/// fraction `numerator / denominator`. A denominator of 0 stands for a grid
/// so wide that no beat fits into any buffer.
#[derive(Clone, Copy, Debug)]
pub struct Spacing {
    num: u64,
    den: u128,
}

impl Spacing {
    pub closed spec fn numerator(self) -> nat {
        self.num as nat
    }

    pub closed spec fn denominator(self) -> nat {
        self.den as nat
    }

    /// First sample of beat number `beat`: the floor of `beat` times the
    /// spacing, capped at the largest index.
    pub open spec fn start_of(self, beat: nat) -> nat {
        capped_quotient(beat * self.numerator(), self.denominator())
    }

    /// Number of beats that the grid lays over `total` samples: the floor of
    /// `total` divided by the spacing, capped at the largest index. A
    /// spacing of 0 puts no beat over an empty buffer and beats without end
    /// over any other.
    pub open spec fn beats_in(self, total: nat) -> nat {
        if self.denominator() == 0 || total == 0 {
            0
        } else {
            capped_quotient(total * self.denominator(), self.numerator())
        }
    }

    /// The spacing `numerator / denominator` samples.
    pub fn new(numerator: u64, denominator: u64) -> (spacing: Spacing)
        ensures
            spacing.numerator() == numerator,
            spacing.denominator() == denominator,
    {
        Spacing { num: numerator, den: denominator as u128 }
    }

    /// First sample of beat number `beat`.
    pub fn start_index(&self, beat: usize) -> (start: usize)
        ensures
            start == self.start_of(beat as nat),
    {
        assert(beat * self.num <= u128::MAX) by (nonlinear_arith)
            requires
                beat <= u64::MAX,
                self.num <= u64::MAX,
        ;
        capped_divide((beat as u128) * (self.num as u128), self.den)
    }

    /// Number of beats that the grid lays over a buffer of `total` samples.
    pub fn beats_within(&self, total: usize) -> (beats: usize)
        ensures
            beats == self.beats_in(total as nat),
    {
        if self.den == 0 || total == 0 {
            return 0;
        }
        match (total as u128).checked_mul(self.den) {
            Some(product) => capped_divide(product, self.num as u128),
            None => {
                proof {
                    let p = total * self.den;
                    let n = self.num as int;
                    if n != 0 {
                        lemma_fundamental_div_mod(p, n);
                        assert(p / n > usize::MAX) by (nonlinear_arith)
                            requires
                                p == n * (p / n) + p % n,
                                0 <= p % n < n,
                                0 < n <= u64::MAX,
                                p > u128::MAX,
                                usize::MAX <= u64::MAX,
                        ;
                    }
                }
                usize::MAX
            },
        }
    }
}

/// The beat grid for a tempo and a note value: beats are
/// `240 * samples_per_second / (bpm * divisor)` samples apart, where the
/// divisor belongs to the note's entry of the note table. The note value is
/// refused when it has no entry, and only then.
pub fn beat_spacing(bpm: usize, note: usize, sample_rate: u32, channels: u16) -> (spacing: Result<
    Spacing,
    ConfigurationError,
>)
    ensures
        spacing is Ok <==> note < 128,
        spacing matches Ok(s) ==> s.numerator() == 240 * samples_per_second_of(
            sample_rate as nat,
            channels as nat,
        ) && s.denominator() == bpm * note_divisor_of(note_index_of(note as nat)),
        spacing matches Err(e) ==> e == ConfigurationError::NoteOutOfRange,
{
    match note_index(note) {
        Err(e) => Err(e),
        Ok(index) => {
            let divisor = note_divisor(index);
            let rate = samples_per_second(sample_rate, channels);
            assert(bpm * divisor <= u128::MAX) by (nonlinear_arith)
                requires
                    bpm <= u64::MAX,
                    divisor <= 64,
            ;
            Ok(
                Spacing {
                    num: WHOLE_NOTE_SECONDS * rate,
                    den: (bpm as u128) * (divisor as u128),
                },
            )
        },
    }
}

/// Length in samples of the `k`-th entry of the catalog of event lengths:
/// the whole note for `k = 0`, and half of the entry before for each step,
/// down to the sixteenth note. The length is rounded down and capped at the
/// largest index; at a tempo of 0 every note is infinitely long.
pub open spec fn catalog_entry(k: nat, bpm: nat, samples_per_second: nat) -> nat {
    let units: nat = if k == 0 {
        240
    } else if k == 1 {
        120
    } else if k == 2 {
        60
    } else if k == 3 {
        30
    } else {
        15
    };
    capped_quotient(units * samples_per_second, bpm)
}

/// The catalog of event lengths for a tempo: whole, half, quarter, eighth
/// and sixteenth note, in samples.
pub fn duration_catalog(bpm: usize, sample_rate: u32, channels: u16) -> (catalog: Vec<usize>)
    ensures
        catalog.len() == CATALOG_LEN,
        forall|k: int|
            0 <= k < CATALOG_LEN ==> #[trigger] catalog[k] == catalog_entry(
                k as nat,
                bpm as nat,
                samples_per_second_of(sample_rate as nat, channels as nat),
            ),
{
    let rate = samples_per_second(sample_rate, channels) as u128;
    let den = bpm as u128;
    let mut catalog: Vec<usize> = Vec::new();
    catalog.push(capped_divide(240 * rate, den));
    catalog.push(capped_divide(120 * rate, den));
    catalog.push(capped_divide(60 * rate, den));
    catalog.push(capped_divide(30 * rate, den));
    catalog.push(capped_divide(15 * rate, den));
    catalog
}

/// Every beat that the grid lays over a buffer starts inside the buffer.
pub proof fn law_beats_start_inside(spacing: Spacing, total: nat, beat: nat)
    requires
        total <= usize::MAX,
        beat < spacing.beats_in(total),
    ensures
        spacing.start_of(beat) < total,
{
    let num = spacing.numerator() as int;
    let den = spacing.denominator() as int;
    if num == 0 {
        assert(beat * num == 0) by (nonlinear_arith)
            requires
                num == 0,
        ;
        assert(0int / den == 0);
    } else if den == 0 || total == 0 {
    } else {
        let beats = (total * den) / num;
        lemma_fundamental_div_mod(total * den, num);
        assert(beat * num < total * den) by (nonlinear_arith)
            requires
                beat + 1 <= beats,
                total * den == num * beats + (total * den) % num,
                0 <= (total * den) % num,
                num > 0,
        ;
        lemma_fundamental_div_mod(beat * num, den);
        assert((beat * num) / den < total) by (nonlinear_arith)
            requires
                beat * num < total * den,
                beat * num == den * ((beat * num) / den) + (beat * num) % den,
                0 <= (beat * num) % den,
                den > 0,
                total >= 0,
        ;
    }
}

} // verus!
