//! Composition-wide random parameters: key, time signature and tempo.

use vstd::prelude::*;
use crate::rng::{RandomSource, scaled_draw};
use crate::theory::{Key, Mode, Scale};
use crate::timing::TimeSignature;

verus! {

/// The key a stream decides at a position: the root from the draw there,
/// the scale and the mode from the two draws after it.
pub open spec fn spec_drawn_key(seed: u64, count: int) -> Key {
    Key {
        root: scaled_draw(seed, count as u64, 12) as u8,
        scale: seq![Scale::Major, Scale::NaturalMinor, Scale::MelodicMinor,
            Scale::HarmonicMinor][scaled_draw(seed, (count + 1) as u64, 4)],
        mode: seq![Mode::Ionian, Mode::Dorian, Mode::Phrygian, Mode::Lydian,
            Mode::Mixolydian, Mode::Aeolian, Mode::Locrian][scaled_draw(seed,
            (count + 2) as u64, 7)],
    }
}

/// The model element that draws a random key.
pub struct RandomKey;

impl RandomKey {
    /// Draws a root pitch class, a scale and a mode, uniformly and in that
    /// order.  Consumes exactly three draws; the key is pinned down by the
    /// stream position.
    pub fn generate(rng: &mut RandomSource) -> (r: Key)
        requires
            old(rng).count() + 4 < u64::MAX,
        ensures
            final(rng).seed() == old(rng).seed(),
            final(rng).count() == old(rng).count() + 3,
            r.wf(),
            r.root == scaled_draw(old(rng).seed(), old(rng).count(), 12),
            r.scale == seq![Scale::Major, Scale::NaturalMinor, Scale::MelodicMinor,
                Scale::HarmonicMinor][scaled_draw(old(rng).seed(),
                (old(rng).count() + 1) as u64, 4)],
            r.mode == seq![Mode::Ionian, Mode::Dorian, Mode::Phrygian, Mode::Lydian,
                Mode::Mixolydian, Mode::Aeolian, Mode::Locrian][scaled_draw(
                old(rng).seed(), (old(rng).count() + 2) as u64, 7)],
            r == spec_drawn_key(old(rng).seed(), old(rng).count() as int),
    {
        let root = rng.next_below(12) as u8;
        let scales = Scale::all();
        let si = rng.next_below(4) as usize;
        let scale = scales[si];
        let modes = Mode::all();
        let mi = rng.next_below(7) as usize;
        let mode = modes[mi];
        Key { root, scale, mode }
    }
}

/// The beat counts a time signature may use: two through seven beats per
/// bar, or nine, eleven or thirteen.
pub open spec fn spec_beat_counts() -> Seq<u32> {
    seq![2u32, 3, 4, 5, 6, 7, 9, 11, 13]
}

/// The time signature a stream decides at a position: the beat count from
/// the draw there, the beat length as given.
pub open spec fn spec_drawn_ts(beat_length: u32, seed: u64, count: int) -> TimeSignature {
    TimeSignature {
        beats_per_bar: spec_beat_counts()[scaled_draw(seed, count as u64, 9)],
        beat_length,
    }
}

/// The model element that draws a random time signature.
pub struct RandomTimeSignature;

impl RandomTimeSignature {
    /// Draws the beats per bar uniformly from the admissible beat counts,
    /// keeping the engine-supplied beat length.  Consumes exactly one draw.
    pub fn generate(beat_length: u32, rng: &mut RandomSource) -> (r: TimeSignature)
        requires
            4 <= beat_length <= 0x10000,
            beat_length % 4 == 0,
            old(rng).count() + 2 < u64::MAX,
        ensures
            final(rng).seed() == old(rng).seed(),
            final(rng).count() == old(rng).count() + 1,
            r.wf(),
            r.beat_length == beat_length,
            r.beats_per_bar == spec_beat_counts()[scaled_draw(old(rng).seed(),
                old(rng).count(), 9)],
            r == spec_drawn_ts(beat_length, old(rng).seed(), old(rng).count() as int),
    {
        let counts: [u32; 9] = [2, 3, 4, 5, 6, 7, 9, 11, 13];
        proof {
            assert(counts@ =~= spec_beat_counts());
        }
        let i = rng.next_below(9) as usize;
        let beats_per_bar = counts[i];
        TimeSignature { beats_per_bar, beat_length }
    }
}

/// The model element that draws a random tempo.
pub struct RandomTempo;

impl RandomTempo {
    /// Draws a tempo uniformly from ninety to one hundred and sixty beats
    /// per minute.  Consumes exactly one draw.
    pub fn generate(rng: &mut RandomSource) -> (r: u32)
        requires
            old(rng).count() + 2 < u64::MAX,
        ensures
            final(rng).seed() == old(rng).seed(),
            final(rng).count() == old(rng).count() + 1,
            90 <= r <= 160,
            r == 90 + scaled_draw(old(rng).seed(), old(rng).count(), 71),
    {
        90 + (rng.next_below(71) as u32)
    }
}

} // verus!
