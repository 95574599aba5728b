//! Instrumentation: which instruments play which parts.
//!
//! Instruments are general-purpose program numbers (`0..128`) and drum kits
//! are kit numbers.  The melodic bank holds every program with a clear tone:
//! the percussive, sound-effect and synth-effect banks are left out, along
//! with a few overly percussive or thin named programs, while the ethnic
//! bank stays in.  One melody, one bass, one drum kit and two extra melodic
//! instruments are picked per composition.

use vstd::prelude::*;
use crate::error::RenderError;
use crate::rng::{RandomSource, scaled_draw};

verus! {

/// Whether a program number is shut out of the melodic bank: the synth-FX
/// bank (programs ninety-six through one hundred and three), the percussive
/// and sound-FX banks (one hundred and twelve upward), and the timpani, the
/// tubular bells, the guitar harmonics, the orchestra hit, the kalimba, the
/// bowed pad and the fifths lead.  The ethnic bank stays in.
pub open spec fn spec_melodic_excluded(p: int) -> bool {
    ||| 96 <= p < 104
    ||| 112 <= p < 128
    ||| p == 14
    ||| p == 31
    ||| p == 47
    ||| p == 55
    ||| p == 86
    ||| p == 92
    ||| p == 108
}

/// Decides melodic-bank exclusion.
pub fn melodic_excluded(p: u8) -> (r: bool)
    ensures
        r == spec_melodic_excluded(p as int),
{
    (96 <= p && p < 104) || (112 <= p && p < 128) || p == 14 || p == 31 || p == 47
        || p == 55 || p == 86 || p == 92 || p == 108
}

/// The melodic instrument bank: every program except the excluded ones, in
/// ascending program order.
pub open spec fn spec_melodic_bank(n: int) -> Seq<u8>
    decreases n,
{
    if n <= 0 {
        Seq::empty()
    } else {
        let s = spec_melodic_bank(n - 1);
        if spec_melodic_excluded(n - 1) {
            s
        } else {
            s.push((n - 1) as u8)
        }
    }
}

/// Enumerates the melodic instrument bank, in strictly ascending program
/// order.
pub fn melodic_bank() -> (r: Vec<u8>)
    ensures
        r@ == spec_melodic_bank(128),
        forall|i: int| 0 <= i < r@.len() ==> #[trigger] r@[i] < 128,
        forall|i: int, j: int| 0 <= i < j < r@.len() ==> #[trigger] r@[i] < #[trigger] r@[j],
        r@.len() >= 3,
{
    let mut v: Vec<u8> = Vec::new();
    let mut p: u8 = 0;
    while p < 128
        invariant
            p <= 128,
            v@ == spec_melodic_bank(p as int),
            forall|i: int| 0 <= i < v@.len() ==> #[trigger] v@[i] < p,
            forall|i: int, j: int| 0 <= i < j < v@.len() ==> #[trigger] v@[i] < #[trigger] v@[j],
            v@.len() <= p,
            p <= 3 ==> v@.len() == p,
            p >= 3 ==> v@.len() >= 3,
        decreases 128 - p,
    {
        if !melodic_excluded(p) {
            v.push(p);
        }
        p = p + 1;
    }
    v
}

/// The bass bank: the bass programs without the slap basses, the organs
/// without the harmonica and the tango accordion, the synth pads without
/// the warm, bowed, metallic and sweep pads, and the synth leads without
/// the fifths lead, in that order.
pub open spec fn spec_bass_bank() -> Seq<u8> {
    seq![32u8, 33, 34, 35, 38, 39,
        16, 17, 18, 19, 20, 21,
        88, 90, 91, 94,
        80, 81, 82, 83, 84, 85, 87]
}

/// Enumerates the bass instrument bank.
pub fn bass_bank() -> (r: Vec<u8>)
    ensures
        r@ == spec_bass_bank(),
        r@.len() == 23,
        forall|i: int| 0 <= i < r@.len() ==> #[trigger] r@[i] < 128,
{
    let entries: [u8; 23] = [32, 33, 34, 35, 38, 39, 16, 17, 18, 19, 20, 21, 88, 90, 91,
        94, 80, 81, 82, 83, 84, 85, 87];
    let mut v: Vec<u8> = Vec::new();
    let mut i: usize = 0;
    while i < 23
        invariant
            i <= 23,
            entries@ == spec_bass_bank(),
            v@ == entries@.take(i as int),
            forall|j: int| 0 <= j < v@.len() ==> #[trigger] v@[j] < 128,
        decreases 23 - i,
    {
        v.push(entries[i]);
        i = i + 1;
    }
    proof {
        assert(entries@.take(23) =~= entries@);
    }
    v
}

/// The drum kit bank: kit numbers zero through nineteen, twenty-four
/// through thirty, thirty-two through thirty-six and forty through
/// forty-two.
pub open spec fn spec_kit_allowed(k: int) -> bool {
    ||| 0 <= k <= 19
    ||| 24 <= k <= 30
    ||| 32 <= k <= 36
    ||| 40 <= k <= 42
}

/// The drum kit bank in ascending kit order.
pub open spec fn spec_kit_bank(n: int) -> Seq<u8>
    decreases n,
{
    if n <= 0 {
        Seq::empty()
    } else {
        let s = spec_kit_bank(n - 1);
        if spec_kit_allowed(n - 1) {
            s.push((n - 1) as u8)
        } else {
            s
        }
    }
}

/// Enumerates the drum kit bank.
pub fn kit_bank() -> (r: Vec<u8>)
    ensures
        r@ == spec_kit_bank(43),
        r@.len() > 0,
        forall|i: int| 0 <= i < r@.len() ==> #[trigger] r@[i] < 128,
{
    let mut v: Vec<u8> = Vec::new();
    let mut k: u8 = 0;
    while k < 43
        invariant
            k <= 43,
            v@ == spec_kit_bank(k as int),
            forall|i: int| 0 <= i < v@.len() ==> #[trigger] v@[i] < 128,
            v@.len() <= k,
            k >= 1 ==> v@.len() > 0,
        decreases 43 - k,
    {
        let allowed = k <= 19 || (24 <= k && k <= 30) || (32 <= k && k <= 36)
            || (40 <= k && k <= 42);
        if allowed {
            v.push(k);
        }
        k = k + 1;
    }
    v
}

/// The instruments a composition plays with: a drum kit, a bass, a lead
/// melody and two extra melodic instruments.
pub struct Instrumentation {
    /// Drum kit number.
    pub drums: u8,
    /// Bass program number.
    pub bass: u8,
    /// Lead melody program number.
    pub melody: u8,
    /// Extra melodic program numbers.
    pub extras: Vec<u8>,
}

/// The model element that draws a random instrumentation.
pub struct RandomInstrumentation;

impl RandomInstrumentation {
    /// Picks the composition's instruments: one melody, one bass and one
    /// drum kit uniformly from their banks, and two extras uniformly from
    /// the melodic bank with the lead and the first extra excluded.
    /// Consumes exactly five draws; every picked program comes from its
    /// bank, and the extras differ from the melody and from each other.
    pub fn generate(rng: &mut RandomSource) -> (r: Instrumentation)
        requires
            old(rng).count() + 8 < u64::MAX,
        ensures
            final(rng).seed() == old(rng).seed(),
            final(rng).count() == old(rng).count() + 5,
            spec_melodic_bank(128).contains(r.melody),
            spec_bass_bank().contains(r.bass),
            spec_kit_bank(43).contains(r.drums),
            r.extras@.len() == 2,
            spec_melodic_bank(128).contains(r.extras@[0]),
            spec_melodic_bank(128).contains(r.extras@[1]),
            r.extras@[0] != r.melody,
            r.extras@[1] != r.melody,
            r.extras@[1] != r.extras@[0],
    {
        let melodic = melodic_bank();
        let bass_list = bass_bank();
        let kits = kit_bank();
        let mi = rng.next_below(melodic.len() as u64) as usize;
        let melody = melodic[mi];
        let bi = rng.next_below(bass_list.len() as u64) as usize;
        let bass = bass_list[bi];
        let ki = rng.next_below(kits.len() as u64) as usize;
        let drums = kits[ki];
        let first = Self::pick_avoiding(&melodic, melody, melody, rng);
        let second = Self::pick_avoiding(&melodic, melody, first, rng);
        let mut extras: Vec<u8> = Vec::new();
        extras.push(first);
        extras.push(second);
        Instrumentation { drums, bass, melody, extras }
    }

    /// Draws a bank position uniformly and takes the first of the three
    /// positions from there (wrapping) whose program avoids both given
    /// programs; with pairwise distinct bank entries one of any three
    /// consecutive entries must qualify.
    fn pick_avoiding(bank: &Vec<u8>, avoid_a: u8, avoid_b: u8, rng: &mut RandomSource)
        -> (r: u8)
        requires
            bank@.len() >= 3,
            forall|i: int, j: int| 0 <= i < j < bank@.len() ==> #[trigger] bank@[i] < #[trigger] bank@[j],
            old(rng).count() < u64::MAX,
        ensures
            final(rng).seed() == old(rng).seed(),
            final(rng).count() == old(rng).count() + 1,
            bank@.contains(r),
            r != avoid_a,
            r != avoid_b,
    {
        let n = bank.len();
        let start = rng.next_below(n as u64) as usize;
        let i1 = if start + 1 < n { start + 1 } else { start + 1 - n };
        let i2 = if i1 + 1 < n { i1 + 1 } else { i1 + 1 - n };
        let c0 = bank[start];
        proof {
            assert(bank@.contains(bank@[start as int]));
        }
        if c0 != avoid_a && c0 != avoid_b {
            return c0;
        }
        let c1 = bank[i1];
        proof {
            assert(bank@.contains(bank@[i1 as int]));
        }
        if c1 != avoid_a && c1 != avoid_b {
            return c1;
        }
        let c2 = bank[i2];
        proof {
            assert(bank@.contains(bank@[i2 as int]));
            assert(start != i1 && i1 != i2 && start != i2);
            assert(c0 != c1 && c1 != c2 && c0 != c2);
        }
        c2
    }
}

/// The per-part arrangement marker: one part bound to its activation
/// windows.
pub struct PartArrangement {
    /// The instrument program the part plays.
    pub instrument: u8,
    /// The windows during which the part is audible.
    pub windows: Vec<crate::timing::TimeSpan>,
}

/// A missing-context error for an empty instrument bank; the built-in banks
/// are never empty, so this serves callers that supply their own banks.
pub fn pick_from_bank(bank: &Vec<u8>, rng: &mut RandomSource)
    -> (r: Result<u8, RenderError>)
    requires
        old(rng).count() < u64::MAX,
    ensures
        final(rng).seed() == old(rng).seed(),
        match r {
            Result::Ok(p) => {
                &&& bank@.contains(p)
                &&& final(rng).count() == old(rng).count() + 1
                &&& p == bank@[scaled_draw(old(rng).seed(), old(rng).count(),
                    bank@.len() as u64)]
            },
            Result::Err(_) => bank@.len() == 0 && final(rng).count() == old(rng).count(),
        },
{
    if bank.len() == 0 {
        return Result::Err(RenderError::MissingContext(
            "No available instruments.".to_owned()));
    }
    let i = rng.next_below(bank.len() as u64) as usize;
    Result::Ok(bank[i])
}

} // verus!
