//! Transition weighting between chords.
//!
//! Weights are unitless magnitudes in parts per million (one million is the
//! weight `1`).  A transition's weight combines a base factor that
//! discourages repeating the same root, an exponential decay in the total
//! voice-leading distance, and a harmonic-compatibility term computed from a
//! fixed table of interval strengths in the harmonic series.

use vstd::prelude::*;
use crate::theory::{Chord, Key, spec_pitch_distance, pitch_distance, valid_pitch_class};

verus! {

/// One weight unit: the fixed-point value of `1`.
pub const WEIGHT_UNIT: u64 = 1_000_000;

/// Strength of each simple interval (semitones `0..12`) in the harmonic
/// series, normalized to at most one unit and square-rooted for a more
/// linear perceptual curve.  Unison is strongest, then the fifth, then the
/// major third, down through the minor second.
pub open spec fn spec_presence(iv: int) -> int {
    seq![1_000_000int, 172_301, 300_000, 175_000, 433_733, 148_955, 265_165, 707_107,
        279_508, 171_391, 415_707, 315_734][iv]
}

/// Looks up the harmonic presence of a simple interval.
pub fn harmonic_presence(iv: u8) -> (r: u64)
    requires
        iv < 12,
    ensures
        r == spec_presence(iv as int),
        r <= WEIGHT_UNIT,
{
    let table: [u64; 12] = [1_000_000, 172_301, 300_000, 175_000, 433_733, 148_955,
        265_165, 707_107, 279_508, 171_391, 415_707, 315_734];
    table[iv as usize]
}

/// The ascending interval from pitch class `a` up to pitch class `b`.
pub open spec fn spec_interval_up(a: u8, b: u8) -> int {
    ((b + 12) - a) % 12
}

/// Fixed-point product of two weights of at most one unit.
pub open spec fn spec_mul_unit(a: int, b: int) -> int {
    (a * b) / (WEIGHT_UNIT as int)
}

/// Multiplies two weights of at most one unit.
pub fn mul_unit(a: u64, b: u64) -> (r: u64)
    requires
        a <= WEIGHT_UNIT,
        b <= WEIGHT_UNIT,
    ensures
        r == spec_mul_unit(a as int, b as int),
        r <= WEIGHT_UNIT,
{
    proof {
        assert(a * b <= 1_000_000 * 1_000_000) by (nonlinear_arith)
            requires a <= 1_000_000 && b <= 1_000_000;
    }
    (a * b) / WEIGHT_UNIT
}

/// Harmonic compatibility of a chord heard against a focal pitch class: the
/// mean over the chord's tones of the tone's presence above the chord root,
/// scaled by the weaker of its presences toward and from the focal pitch.
pub open spec fn spec_focal_term(chord: Chord, focal: u8, j: int) -> int {
    let p = chord.spec_pitch(j);
    let own = spec_presence(spec_interval_up(chord.root, p));
    let toward = spec_presence(spec_interval_up(focal, p));
    let from = spec_presence(spec_interval_up(p, focal));
    spec_mul_unit(own, if toward <= from { toward } else { from })
}

/// See [`spec_focal_term`]: the mean of the three tone terms.
pub open spec fn spec_focal_harmony(chord: Chord, focal: u8) -> int {
    (spec_focal_term(chord, focal, 0) + spec_focal_term(chord, focal, 1)
        + spec_focal_term(chord, focal, 2)) / 3
}

/// Computes the harmonic compatibility of a chord against a focal pitch.
pub fn focal_harmony(chord: &Chord, focal: u8) -> (r: u64)
    requires
        chord.wf(),
        valid_pitch_class(focal),
    ensures
        r == spec_focal_harmony(*chord, focal),
        r <= WEIGHT_UNIT,
{
    let pcs = chord.pitch_classes();
    let mut total: u64 = 0;
    let mut j: u8 = 0;
    while j < 3
        invariant
            j <= 3,
            chord.wf(),
            valid_pitch_class(focal),
            pcs@.len() == 3,
            forall|k: int| 0 <= k < 3 ==> pcs@[k] == chord.spec_pitch(k)
                && valid_pitch_class(pcs@[k]),
            total <= j * WEIGHT_UNIT,
            total == spec_partial_focal(*chord, focal, j as int),
        decreases 3 - j,
    {
        let p = pcs[j as usize];
        proof {
            assert(pcs@[j as int] == chord.spec_pitch(j as int));
            assert(p < 12);
        }
        let own = harmonic_presence(((p + 12) - chord.root) % 12);
        let toward = harmonic_presence(((p + 12) - focal) % 12);
        let from = harmonic_presence(((focal + 12) - p) % 12);
        let weaker = if toward <= from { toward } else { from };
        let term = mul_unit(own, weaker);
        proof {
            assert(term == spec_focal_term(*chord, focal, j as int));
        }
        total = total + term;
        j = j + 1;
    }
    proof {
        assert(spec_partial_focal(*chord, focal, 0) == 0);
        assert(spec_partial_focal(*chord, focal, 1)
            == spec_focal_term(*chord, focal, 0));
        assert(spec_partial_focal(*chord, focal, 2)
            == spec_focal_term(*chord, focal, 0) + spec_focal_term(*chord, focal, 1));
        assert(spec_partial_focal(*chord, focal, 3)
            == spec_focal_term(*chord, focal, 0) + spec_focal_term(*chord, focal, 1)
                + spec_focal_term(*chord, focal, 2));
    }
    total / 3
}

/// Sum of the first `j` focal terms.
pub open spec fn spec_partial_focal(chord: Chord, focal: u8, j: int) -> int
    decreases j,
{
    if j <= 0 {
        0
    } else {
        spec_partial_focal(chord, focal, j - 1) + spec_focal_term(chord, focal, j - 1)
    }
}

/// Exponential decay of a weight: `0.6` to the power `steps`, in units.
pub open spec fn spec_decay(steps: int) -> int
    decreases steps,
{
    if steps <= 0 {
        WEIGHT_UNIT as int
    } else {
        spec_mul_unit(spec_decay(steps - 1), 600_000)
    }
}

/// Computes `0.6 ^ steps` in fixed point.
pub fn decay(steps: u8) -> (r: u64)
    ensures
        r == spec_decay(steps as int),
        r <= WEIGHT_UNIT,
{
    let mut r: u64 = WEIGHT_UNIT;
    let mut i: u8 = 0;
    while i < steps
        invariant
            i <= steps,
            r == spec_decay(i as int),
            r <= WEIGHT_UNIT,
        decreases steps - i,
    {
        r = mul_unit(r, 600_000);
        i = i + 1;
    }
    r
}

/// The smaller of the distances from a pitch class to each tone of a chord.
pub open spec fn spec_nearest_tone(pc: u8, chord: Chord) -> int {
    let d0 = spec_pitch_distance(pc, chord.spec_pitch(0));
    let d1 = spec_pitch_distance(pc, chord.spec_pitch(1));
    let d2 = spec_pitch_distance(pc, chord.spec_pitch(2));
    let m = if d0 <= d1 { d0 } else { d1 };
    if m <= d2 { m } else { d2 }
}

/// Total voice-leading distance: the sum, over the candidate's tones, of
/// the minimal semitone distance to the nearest tone of the current chord.
pub open spec fn spec_steps_between(current: Chord, candidate: Chord) -> int {
    spec_nearest_tone(candidate.spec_pitch(0), current)
        + spec_nearest_tone(candidate.spec_pitch(1), current)
        + spec_nearest_tone(candidate.spec_pitch(2), current)
}

/// Computes the minimal distance from a pitch class to a chord's tones.
pub fn nearest_tone(pc: u8, chord: &Chord) -> (r: u8)
    requires
        valid_pitch_class(pc),
        chord.wf(),
    ensures
        r == spec_nearest_tone(pc, *chord),
        r <= 6,
{
    let pcs = chord.pitch_classes();
    proof {
        assert(pcs@[0] == chord.spec_pitch(0));
        assert(pcs@[1] == chord.spec_pitch(1));
        assert(pcs@[2] == chord.spec_pitch(2));
    }
    let d0 = pitch_distance(pc, pcs[0]);
    let d1 = pitch_distance(pc, pcs[1]);
    let d2 = pitch_distance(pc, pcs[2]);
    let m = if d0 <= d1 { d0 } else { d1 };
    if m <= d2 { m } else { d2 }
}

/// Computes the total voice-leading distance between two chords.
pub fn steps_between(current: &Chord, candidate: &Chord) -> (r: u8)
    requires
        current.wf(),
        candidate.wf(),
    ensures
        r == spec_steps_between(*current, *candidate),
        r <= 18,
{
    let pcs = candidate.pitch_classes();
    proof {
        assert(pcs@[0] == candidate.spec_pitch(0));
        assert(pcs@[1] == candidate.spec_pitch(1));
        assert(pcs@[2] == candidate.spec_pitch(2));
    }
    let s0 = nearest_tone(pcs[0], current);
    let s1 = nearest_tone(pcs[1], current);
    let s2 = nearest_tone(pcs[2], current);
    s0 + s1 + s2
}

/// The weight of moving from `current` to `candidate` inside `key`:
/// a base factor of one unit, cut to a tenth when the roots coincide;
/// decayed exponentially in the voice-leading distance; and scaled by the
/// candidate's harmony against its own root and the mean of its harmonies
/// against the key's root and the current root.  With no current chord the
/// candidate is measured against itself with the full base factor.
pub open spec fn spec_transition_weight(key: Key, current: Option<Chord>, candidate: Chord)
    -> int {
    let cur = match current {
        Option::Some(c) => c,
        Option::None => candidate,
    };
    let base = if current is Some && cur.root == candidate.root {
        100_000int
    } else {
        1_000_000int
    };
    let dec = spec_decay(spec_steps_between(cur, candidate));
    let own = spec_focal_harmony(candidate, candidate.root);
    let key_h = spec_focal_harmony(candidate, key.root);
    let cur_h = spec_focal_harmony(candidate, cur.root);
    spec_mul_unit(spec_mul_unit(spec_mul_unit(base, dec), own), (key_h + cur_h) / 2)
}

/// Computes the transition weight.  The result is at most one unit, and in
/// fixed point it can underflow to zero; callers treat zero-weight
/// transitions as inadmissible.
pub fn transition_weight(key: &Key, current: Option<&Chord>, candidate: &Chord) -> (r: u64)
    requires
        key.wf(),
        candidate.wf(),
        current is Some ==> current->0.wf(),
    ensures
        r == spec_transition_weight(*key, match current {
            Option::Some(c) => Option::Some(*c),
            Option::None => Option::None,
        }, *candidate),
        r <= WEIGHT_UNIT,
{
    let cur: &Chord = match current {
        Option::Some(c) => c,
        Option::None => candidate,
    };
    let base: u64 = match current {
        Option::Some(c) => if c.root == candidate.root { 100_000 } else { 1_000_000 },
        Option::None => 1_000_000,
    };
    let steps = steps_between(cur, candidate);
    let dec = decay(steps);
    let own = focal_harmony(candidate, candidate.root);
    let key_h = focal_harmony(candidate, key.root);
    let cur_h = focal_harmony(candidate, cur.root);
    let blend = (key_h + cur_h) / 2;
    mul_unit(mul_unit(mul_unit(base, dec), own), blend)
}

} // verus!
