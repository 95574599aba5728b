//! Part planners: what the bass and the extra melodic parts aim for.
//!
//! The bass plans one approach run and one held key note per chord marker:
//! the run target is a chord-related pitch class (the root, its fourth or
//! its fifth) that lies in the key, realized in the bass octave band; the
//! key note is the chord root itself in that band.  A melodic part plans
//! one key-note start per phrase divider from the chord tones of a higher
//! band, thinning choices that sibling parts already hold, and aims runs
//! between consecutive starts.

use vstd::prelude::*;
use crate::melody::PlacedNote;
use crate::rng::RandomSource;
use crate::theory::{Chord, Key, note_pitch_class};
use crate::timing::TimeSpan;

verus! {

/// A target handed to the melody line of a part: run toward a note, or
/// hold a key note.
#[derive(Clone, Copy, Debug, PartialEq, Eq, Structural)]
pub enum MelodyDirective {
    /// Approach this note over the directive's span.
    RunTo(u8),
    /// Hold this note at the directive's span.
    KeyNote(u8),
}

impl MelodyDirective {
    /// The note the directive speaks of.
    pub open spec fn spec_note(self) -> u8 {
        match self {
            MelodyDirective::RunTo(n) => n,
            MelodyDirective::KeyNote(n) => n,
        }
    }

    /// Turns the directive into weighted note choices.  A key note offers
    /// its own note with weight one.  A run toward a note offers every
    /// scale-conformant note strictly between the previous note and one
    /// step past the target, the `i`-th candidate carrying the cube of its
    /// distance from the run's end as weight, so the line is drawn through
    /// the scale toward the target; without a previous note, when the
    /// target repeats it, or when the run holds no scale note, the target
    /// itself is the only choice, with weight one.  The result is pinned
    /// exactly, so the translation is deterministic and consults no
    /// randomness.
    pub fn apply(&self, prev_note: Option<u8>, key: &Key) -> (r: Vec<(u8, u64)>)
        requires
            key.wf(),
            self.spec_note() <= 125,
        ensures
            forall|i: int| 0 <= i < r@.len() ==> 0 < (#[trigger] r@[i]).1 <= 0x20_0000,
            0 < r@.len() <= 128,
            forall|i: int| 0 <= i < r@.len() ==> {
                let n = (#[trigger] r@[i]).0;
                n == self.spec_note() || key.spec_contains(note_pitch_class(n))
            },
            match *self {
                MelodyDirective::KeyNote(n) => r@ == seq![(n, 1u64)],
                MelodyDirective::RunTo(n) => {
                    if prev_note is None || prev_note->0 == n || prev_note->0 > 125 {
                        r@ == seq![(n, 1u64)]
                    } else {
                        let p = prev_note->0;
                        let lo = if p < n { p } else { n };
                        let hi = if p < n { n } else { p };
                        let cands = crate::theory::spec_scale_notes(*key, lo + 1,
                            (hi - lo + 1) as nat);
                        if cands.len() == 0 {
                            r@ == seq![(n, 1u64)]
                        } else {
                            r@.len() == cands.len()
                                && forall|i: int| 0 <= i < r@.len() ==> #[trigger] r@[i]
                                    == (cands[i], spec_cube(cands.len() - i) as u64)
                        }
                    }
                },
            },
    {
        match self {
            MelodyDirective::KeyNote(n) => {
                let mut v: Vec<(u8, u64)> = Vec::new();
                v.push((*n, 1));
                proof {
                    assert(v@ =~= seq![(*n, 1u64)]);
                }
                v
            },
            MelodyDirective::RunTo(n) => {
                let prev = match prev_note {
                    Option::Some(p) => p,
                    Option::None => *n,
                };
                if prev == *n || prev > 125 {
                    let mut v: Vec<(u8, u64)> = Vec::new();
                    v.push((*n, 1));
                    proof {
                        assert(v@ =~= seq![(*n, 1u64)]);
                    }
                    return v;
                }
                let lo = if prev < *n { prev } else { *n };
                let hi = if prev < *n { *n } else { prev };
                let run_notes = crate::theory::scale_notes_in_range(key, lo + 1, hi + 1);
                if run_notes.len() == 0 {
                    let mut v: Vec<(u8, u64)> = Vec::new();
                    v.push((*n, 1));
                    proof {
                        assert(v@ =~= seq![(*n, 1u64)]);
                    }
                    return v;
                }
                let m = run_notes.len();
                proof {
                    crate::theory::lemma_scale_notes_len(*key, lo as int + 1,
                        ((hi + 1) - (lo + 1) + 1) as nat);
                }
                let mut v: Vec<(u8, u64)> = Vec::new();
                let mut i: usize = 0;
                while i < m
                    invariant
                        i <= m,
                        m == run_notes@.len(),
                        m <= 128,
                        key.wf(),
                        forall|k: int| 0 <= k < run_notes@.len() ==> {
                            let rn = #[trigger] run_notes@[k];
                            key.spec_contains(note_pitch_class(rn))
                        },
                        v@.len() == i,
                        forall|k: int| 0 <= k < v@.len() ==> #[trigger] v@[k]
                            == (run_notes@[k], spec_cube(m - k) as u64),
                        forall|k: int| 0 <= k < v@.len()
                            ==> 0 < (#[trigger] v@[k]).1 <= 0x20_0000,
                    decreases m - i,
                {
                    let rank: u64 = (m - i) as u64;
                    proof {
                        assert(rank * rank <= 128u64 * 128) by (nonlinear_arith)
                            requires 1 <= rank <= 128;
                        assert(rank * rank * rank >= 1) by (nonlinear_arith)
                            requires rank >= 1;
                        assert(rank * rank * rank <= 128u64 * 128 * 128) by (nonlinear_arith)
                            requires 1 <= rank <= 128;
                    }
                    let w = rank * rank * rank;
                    v.push((run_notes[i], w));
                    i = i + 1;
                }
                v
            },
        }
    }
}

/// The cube of a count, used as a run weight.
pub open spec fn spec_cube(k: int) -> int {
    k * k * k
}

/// The notes of `lo..lo + len` whose pitch class is one of the wanted
/// classes, in ascending order.
pub open spec fn spec_band_notes(wanted: Seq<u8>, lo: int, len: nat) -> Seq<u8>
    decreases len,
{
    if len == 0 {
        Seq::empty()
    } else {
        let s = spec_band_notes(wanted, lo, (len - 1) as nat);
        let n = lo + len - 1;
        if wanted.contains(note_pitch_class(n as u8)) {
            s.push(n as u8)
        } else {
            s
        }
    }
}

/// Every collected band note lies in the band and has a wanted class, and
/// there are no more notes than the band holds.
proof fn lemma_band_notes_sound(wanted: Seq<u8>, lo: int, len: nat)
    requires
        lo >= 0,
        lo + len <= 128,
    ensures
        spec_band_notes(wanted, lo, len).len() <= len,
        forall|i: int| 0 <= i < spec_band_notes(wanted, lo, len).len() ==> {
            let n = #[trigger] spec_band_notes(wanted, lo, len)[i];
            lo <= n < lo + len && wanted.contains(note_pitch_class(n))
        },
    decreases len,
{
    if len > 0 {
        lemma_band_notes_sound(wanted, lo, (len - 1) as nat);
    }
}

/// Every band note with a wanted class is collected.
proof fn lemma_band_notes_complete(wanted: Seq<u8>, lo: int, len: nat, m: u8)
    requires
        lo >= 0,
        lo + len <= 128,
        lo <= m < lo + len,
        wanted.contains(note_pitch_class(m)),
    ensures
        spec_band_notes(wanted, lo, len).contains(m),
    decreases len,
{
    if len > 0 {
        let s = spec_band_notes(wanted, lo, (len - 1) as nat);
        if m < lo + len - 1 {
            lemma_band_notes_complete(wanted, lo, (len - 1) as nat, m);
            let ix = choose|ix: int| 0 <= ix < s.len() && s[ix] == m;
            assert(spec_band_notes(wanted, lo, len)[ix] == m);
        } else {
            let full = spec_band_notes(wanted, lo, len);
            assert(full[full.len() - 1] == m);
        }
    }
}

/// Collects the notes of a band whose pitch class matches one of the
/// wanted pitch classes: exactly the band notes with a wanted class, in
/// ascending order.
fn notes_with_classes(lo: u8, hi: u8, wanted: &Vec<u8>) -> (r: Vec<u8>)
    requires
        lo <= hi,
        hi <= 127,
    ensures
        r@ == spec_band_notes(wanted@, lo as int, (hi - lo + 1) as nat),
        forall|i: int| 0 <= i < r@.len() ==> {
            let n = #[trigger] r@[i];
            lo <= n <= hi && wanted@.contains(note_pitch_class(n))
        },
        forall|n: u8| lo <= n <= hi && wanted@.contains(note_pitch_class(n))
            ==> r@.contains(n),
        r@.len() <= hi - lo + 1,
{
    let mut v: Vec<u8> = Vec::new();
    let mut n = lo;
    while n <= hi
        invariant
            lo <= n <= hi + 1,
            hi <= 127,
            v@ == spec_band_notes(wanted@, lo as int, (n - lo) as nat),
        decreases hi + 1 - n,
    {
        let pc = n % 12;
        let mut j: usize = 0;
        let mut hit = false;
        while j < wanted.len()
            invariant
                j <= wanted@.len(),
                pc == note_pitch_class(n),
                hit == exists|k: int| 0 <= k < j && wanted@[k] == pc,
            decreases wanted@.len() - j,
        {
            if wanted[j] == pc {
                proof {
                    assert(wanted@[j as int] == pc);
                }
                hit = true;
            }
            j = j + 1;
        }
        proof {
            assert(hit == wanted@.contains(pc)) by {
                if wanted@.contains(pc) {
                    let wj = choose|wj: int| 0 <= wj < wanted@.len() && wanted@[wj] == pc;
                }
            }
        }
        if hit {
            v.push(n);
        }
        n = n + 1;
    }
    proof {
        lemma_band_notes_sound(wanted@, lo as int, (hi - lo + 1) as nat);
        assert forall|m: u8| lo <= m <= hi && wanted@.contains(note_pitch_class(m))
            implies v@.contains(m) by {
            lemma_band_notes_complete(wanted@, lo as int, (hi - lo + 1) as nat, m);
        }
    }
    v
}

/// Any twelve consecutive notes hold every pitch class once./// Any twelve consecutive notes hold every pitch class once.
proof fn lemma_pc_in_band(lo: u8, pc: u8)
    requires
        lo <= 115,
        pc < 12,
    ensures
        exists|n: u8| lo <= n <= lo + 11 && #[trigger] note_pitch_class(n) == pc,
{
    let base = (lo % 12) as int;
    let d = if pc >= base { pc - base } else { pc + 12 - base };
    let n = (lo + d) as u8;
    assert(note_pitch_class(n) == pc) by {
        vstd::arithmetic::div_mod::lemma_fundamental_div_mod(lo as int, 12);
        vstd::arithmetic::div_mod::lemma_fundamental_div_mod_converse(
            lo as int + d, 12, lo as int / 12 + (if pc >= base { 0int } else { 1int }), pc as int);
    }
    assert(lo <= n <= lo + 11 && note_pitch_class(n) == pc);
}

/// The chord of the last marker whose span contains the tick, if any.
pub open spec fn spec_marker_at(markers: Seq<(Chord, TimeSpan)>, t: u32) -> Option<Chord>
    decreases markers.len(),
{
    if markers.len() == 0 {
        Option::None
    } else if markers.last().1.spec_contains(t) {
        Option::Some(markers.last().0)
    } else {
        spec_marker_at(markers.drop_last(), t)
    }
}

/// Computes the chord of the last marker whose span contains the tick.
pub fn marker_at(markers: &Vec<(Chord, TimeSpan)>, t: u32) -> (r: Option<Chord>)
    ensures
        r == spec_marker_at(markers@, t),
{
    let mut i: usize = 0;
    let mut found: Option<Chord> = Option::None;
    proof {
        assert(markers@.take(0) =~= Seq::<(Chord, TimeSpan)>::empty());
    }
    while i < markers.len()
        invariant
            i <= markers@.len(),
            found == spec_marker_at(markers@.take(i as int), t),
        decreases markers@.len() - i,
    {
        let (c, sp) = markers[i];
        proof {
            assert(markers@.take(i as int + 1).drop_last() =~= markers@.take(i as int));
            assert(markers@.take(i as int + 1).last() == markers@[i as int]);
        }
        if sp.start <= t && t < sp.end {
            found = Option::Some(c);
        }
        i = i + 1;
    }
    proof {
        assert(markers@.take(markers@.len() as int) =~= markers@);
    }
    found
}

/// The last divider whose span contains the tick, if any.
pub open spec fn spec_divider_at(dividers: Seq<TimeSpan>, t: u32) -> Option<TimeSpan>
    decreases dividers.len(),
{
    if dividers.len() == 0 {
        Option::None
    } else if dividers.last().spec_contains(t) {
        Option::Some(dividers.last())
    } else {
        spec_divider_at(dividers.drop_last(), t)
    }
}

/// Computes the last divider whose span contains the tick.
pub fn divider_at(dividers: &Vec<TimeSpan>, t: u32) -> (r: Option<TimeSpan>)
    ensures
        r == spec_divider_at(dividers@, t),
{
    let mut i: usize = 0;
    let mut found: Option<TimeSpan> = Option::None;
    proof {
        assert(dividers@.take(0) =~= Seq::<TimeSpan>::empty());
    }
    while i < dividers.len()
        invariant
            i <= dividers@.len(),
            found == spec_divider_at(dividers@.take(i as int), t),
        decreases dividers@.len() - i,
    {
        let d = dividers[i];
        proof {
            assert(dividers@.take(i as int + 1).drop_last() =~= dividers@.take(i as int));
            assert(dividers@.take(i as int + 1).last() == dividers@[i as int]);
        }
        if d.start <= t && t < d.end {
            found = Option::Some(d);
        }
        i = i + 1;
    }
    proof {
        assert(dividers@.take(dividers@.len() as int) =~= dividers@);
    }
    found
}

/// The last divider whose span ends exactly at the tick, if any.
pub open spec fn spec_divider_ending(dividers: Seq<TimeSpan>, t: u32) -> Option<TimeSpan>
    decreases dividers.len(),
{
    if dividers.len() == 0 {
        Option::None
    } else if dividers.last().end == t {
        Option::Some(dividers.last())
    } else {
        spec_divider_ending(dividers.drop_last(), t)
    }
}

/// Computes the last divider whose span ends exactly at the tick.
pub fn divider_ending(dividers: &Vec<TimeSpan>, t: u32) -> (r: Option<TimeSpan>)
    ensures
        r == spec_divider_ending(dividers@, t),
{
    let mut i: usize = 0;
    let mut found: Option<TimeSpan> = Option::None;
    proof {
        assert(dividers@.take(0) =~= Seq::<TimeSpan>::empty());
    }
    while i < dividers.len()
        invariant
            i <= dividers@.len(),
            found == spec_divider_ending(dividers@.take(i as int), t),
        decreases dividers@.len() - i,
    {
        let d = dividers[i];
        proof {
            assert(dividers@.take(i as int + 1).drop_last() =~= dividers@.take(i as int));
            assert(dividers@.take(i as int + 1).last() == dividers@[i as int]);
        }
        if d.end == t {
            found = Option::Some(d);
        }
        i = i + 1;
    }
    proof {
        assert(dividers@.take(dividers@.len() as int) =~= dividers@);
    }
    found
}

/// The bass part: plays the chord roots and approaches them through
/// key-conformant runs.
pub struct BassPart {
    /// The bass instrument program.
    pub instrument: u8,
}

impl BassPart {
    /// Wraps an instrument program into a bass part.
    pub fn new(instrument: u8) -> (r: BassPart)
        ensures
            r.instrument == instrument,
    {
        BassPart { instrument }
    }

    /// Plans the bass directives of one window: for each chord marker, one
    /// run toward a chord-related, key-conformant note over the divider
    /// ending at the marker's start (when such a divider and such a note
    /// exist), and one held key note with the chord's root pitch class over
    /// the divider containing the marker's start.  Every planned note lies
    /// in the bass band, the twenty-one semitones from two octaves below
    /// the key's root; and whenever some divider contains a marker's start,
    /// a key note with that marker's root pitch class is planned on that
    /// divider.  Consumes at most two draws per marker.
    #[verifier::rlimit(100)]
    #[verifier::spinoff_prover]
    pub fn plan_directives(
        &self,
        key: &Key,
        markers: &Vec<(Chord, TimeSpan)>,
        dividers: &Vec<TimeSpan>,
        rng: &mut RandomSource,
    ) -> (r: Vec<(MelodyDirective, TimeSpan)>)
        requires
            key.wf(),
            forall|i: int| 0 <= i < markers@.len() ==> {
                let (c, sp) = #[trigger] markers@[i];
                c.wf() && sp.wf()
            },
            forall|i: int| 0 <= i < dividers@.len() ==> (#[trigger] dividers@[i]).wf(),
            old(rng).count() <= 0x1000_0000_0000_0000,
            markers@.len() <= 0x10000,
        ensures
            final(rng).seed() == old(rng).seed(),
            final(rng).count() <= old(rng).count() + 2 * markers@.len(),
            forall|e: int| 0 <= e < r@.len() ==> {
                let (d, sp) = #[trigger] r@[e];
                &&& sp.wf()
                &&& 36 + key.root <= d.spec_note() <= 56 + key.root
                &&& (d is RunTo ==> key.spec_contains(note_pitch_class(d.spec_note())))
            },
            forall|m: int| 0 <= m < markers@.len()
                && spec_divider_at(dividers@, (#[trigger] markers@[m]).1.start) is Some
                ==> exists|e: int| 0 <= e < r@.len()
                    && (#[trigger] r@[e]).0 is KeyNote
                    && note_pitch_class(r@[e].0.spec_note()) == markers@[m].0.root % 12
                    && Option::Some(r@[e].1)
                        == spec_divider_at(dividers@, markers@[m].1.start),
    {
        let mut out: Vec<(MelodyDirective, TimeSpan)> = Vec::new();
        let mut i: usize = 0;
        let lo: u8 = 36 + key.root;
        let hi: u8 = lo + 20;
        while i < markers.len()
            invariant
                i <= markers@.len() <= 0x10000,
                key.wf(),
                lo == 36 + key.root,
                hi == lo + 20,
                forall|k: int| 0 <= k < markers@.len() ==> {
                    let (c, sp) = #[trigger] markers@[k];
                    c.wf() && sp.wf()
                },
                forall|k: int| 0 <= k < dividers@.len() ==> (#[trigger] dividers@[k]).wf(),
                rng.seed() == old(rng).seed(),
                rng.count() <= old(rng).count() + 2 * i,
                old(rng).count() <= 0x1000_0000_0000_0000,
                forall|e: int| 0 <= e < out@.len() ==> {
                    let (d, sp) = #[trigger] out@[e];
                    &&& sp.wf()
                    &&& 36 + key.root <= d.spec_note() <= 56 + key.root
                    &&& (d is RunTo ==> key.spec_contains(note_pitch_class(d.spec_note())))
                },
                forall|m: int| 0 <= m < i
                    && spec_divider_at(dividers@, (#[trigger] markers@[m]).1.start) is Some
                    ==> exists|e: int| 0 <= e < out@.len()
                        && (#[trigger] out@[e]).0 is KeyNote
                        && note_pitch_class(out@[e].0.spec_note())
                            == markers@[m].0.root % 12
                        && Option::Some(out@[e].1)
                            == spec_divider_at(dividers@, markers@[m].1.start),
            decreases markers@.len() - i,
        {
            let ghost pre_out = out@;
            let (chord, msp) = markers[i];
            let mut wanted: Vec<u8> = Vec::new();
            let root = chord.root % 12;
            if key.contains(root) {
                wanted.push(root);
            }
            let fourth = (root + 5) % 12;
            if key.contains(fourth) {
                wanted.push(fourth);
            }
            let fifth = (root + 7) % 12;
            if key.contains(fifth) {
                wanted.push(fifth);
            }
            proof {
                assert(forall|w: int| 0 <= w < wanted@.len()
                    ==> key.spec_contains(#[trigger] wanted@[w]));
            }
            let run_choices = notes_with_classes(lo, hi, &wanted);
            if run_choices.len() > 0 {
                let ri = rng.next_below(run_choices.len() as u64) as usize;
                let run_note = run_choices[ri];
                proof {
                    assert(key.spec_contains(note_pitch_class(run_note))) by {
                        let wi = choose|w: int| 0 <= w < wanted@.len()
                            && wanted@[w] == note_pitch_class(run_note);
                    }
                }
                proof {
                    lemma_divider_ending_wf(dividers@, msp.start);
                }
                match divider_ending(dividers, msp.start) {
                    Option::Some(prev_div) => {
                        out.push((MelodyDirective::RunTo(run_note), prev_div));
                        proof {
                            let e = out@.len() - 1;
                            assert(out@[e].0 == MelodyDirective::RunTo(run_note));
                            assert(spec_divider_ending(dividers@,
                                markers@[i as int].1.start) == Option::Some(out@[e].1));
                        }
                    },
                    Option::None => {},
                }
            }
            let mut root_pc: Vec<u8> = Vec::new();
            root_pc.push(root);
            proof {
                lemma_divider_at_wf(dividers@, msp.start);
            }
            let cur_div = divider_at(dividers, msp.start);
            let key_choices = notes_with_classes(lo, hi, &root_pc);
            proof {
                lemma_pc_in_band(lo, root);
                let wn = choose|wn: u8| lo <= wn <= lo + 11
                    && note_pitch_class(wn) == root;
                assert(root_pc@.contains(note_pitch_class(wn))) by {
                    assert(root_pc@[0] == root);
                }
                assert(key_choices@.contains(wn));
                assert(key_choices@.len() > 0);
            }
            let ki = rng.next_below(key_choices.len() as u64) as usize;
            let key_note = key_choices[ki];
            proof {
                assert(root_pc@.contains(note_pitch_class(key_note)));
                assert(root_pc@[0] == root);
                assert(note_pitch_class(key_note) == (markers@[i as int]).0.root % 12);
            }
            match cur_div {
                Option::Some(d) => {
                    out.push((MelodyDirective::KeyNote(key_note), d));
                },
                Option::None => {},
            }
            proof {
                assert forall|m: int| 0 <= m < i + 1
                    && spec_divider_at(dividers@, (#[trigger] markers@[m]).1.start) is Some
                    implies exists|e: int| 0 <= e < out@.len()
                        && (#[trigger] out@[e]).0 is KeyNote
                        && note_pitch_class(out@[e].0.spec_note())
                            == markers@[m].0.root % 12
                        && Option::Some(out@[e].1)
                            == spec_divider_at(dividers@, markers@[m].1.start)
                by {
                    if m < i {
                        let e = choose|e: int| 0 <= e < pre_out.len()
                            && (#[trigger] pre_out[e]).0 is KeyNote
                            && note_pitch_class(pre_out[e].0.spec_note())
                                == markers@[m].0.root % 12
                            && Option::Some(pre_out[e].1)
                                == spec_divider_at(dividers@, markers@[m].1.start);
                        assert(out@[e] == pre_out[e]);
                    } else {
                        let e = out@.len() - 1;
                        assert(out@[e].0 == MelodyDirective::KeyNote(key_note));
                        assert(Option::Some(out@[e].1)
                            == spec_divider_at(dividers@, markers@[m].1.start));
                    }
                }
            }
            i = i + 1;
        }
        out
    }
}

/// A melodic part: one instrument bound to the melodic weight model.
pub struct MelodyPart {
    /// The part's instrument program.
    pub instrument: u8,
}

impl MelodyPart {
    /// Wraps an instrument program into a melodic part.
    pub fn new(instrument: u8) -> (r: MelodyPart)
        ensures
            r.instrument == instrument,
    {
        MelodyPart { instrument }
    }

    /// Plans one key-note start per phrase divider: the chord covering the
    /// divider's start supplies the candidate tones of the band from the
    /// chord root's third octave to its fifth, candidates whose pitch class
    /// `k` sibling notes already hold over the divider survive a thinning
    /// draw with probability one half to the `k`-th power, and a uniform
    /// draw picks the start among what is left.  Every planned start is a
    /// tone of the chord covering its divider's start and lies in that
    /// chord's band.  Consumes at most fifty draws per divider.
    #[verifier::rlimit(100)]
    #[verifier::spinoff_prover]
    pub fn plan_starts(
        &self,
        markers: &Vec<(Chord, TimeSpan)>,
        dividers: &Vec<TimeSpan>,
        taken: &Vec<(u8, TimeSpan)>,
        rng: &mut RandomSource,
    ) -> (r: Vec<(u8, TimeSpan)>)
        requires
            forall|i: int| 0 <= i < markers@.len() ==> {
                let (c, sp) = #[trigger] markers@[i];
                c.wf() && sp.wf()
            },
            forall|i: int| 0 <= i < dividers@.len() ==> (#[trigger] dividers@[i]).wf(),
            old(rng).count() <= 0x1000_0000_0000_0000,
            dividers@.len() <= 0x10000,
        ensures
            final(rng).seed() == old(rng).seed(),
            final(rng).count() <= old(rng).count() + 50 * dividers@.len(),
            forall|e: int| 0 <= e < r@.len() ==> {
                let (n, sp) = #[trigger] r@[e];
                &&& spec_marker_at(markers@, sp.start) is Some
                &&& {
                    let c = spec_marker_at(markers@, sp.start)->0;
                    c.spec_contains(note_pitch_class(n))
                        && 48 + c.root <= n <= 72 + c.root
                }
            },
    {
        let mut out: Vec<(u8, TimeSpan)> = Vec::new();
        let mut i: usize = 0;
        while i < dividers.len()
            invariant
                i <= dividers@.len() <= 0x10000,
                forall|k: int| 0 <= k < markers@.len() ==> {
                    let (c, sp) = #[trigger] markers@[k];
                    c.wf() && sp.wf()
                },
                forall|k: int| 0 <= k < dividers@.len() ==> (#[trigger] dividers@[k]).wf(),
                rng.seed() == old(rng).seed(),
                rng.count() <= old(rng).count() + 50 * i,
                old(rng).count() <= 0x1000_0000_0000_0000,
                forall|e: int| 0 <= e < out@.len() ==> {
                    let (n, sp) = #[trigger] out@[e];
                    &&& spec_marker_at(markers@, sp.start) is Some
                    &&& {
                        let c = spec_marker_at(markers@, sp.start)->0;
                        c.spec_contains(note_pitch_class(n))
                            && 48 + c.root <= n <= 72 + c.root
                    }
                },
            decreases dividers@.len() - i,
        {
            let div = dividers[i];
            match marker_at(markers, div.start) {
                Option::Some(chord) => {
                    let ghost chord_wf_witness = spec_marker_at(markers@, div.start);
                    proof {
                        lemma_marker_at_wf(markers@, div.start);
                    }
                    let pcs = chord.pitch_classes();
                    let lo: u8 = 48 + chord.root;
                    let hi: u8 = lo + 24;
                    let choices = notes_with_classes(lo, hi, &pcs);
                    let mut kept: Vec<u8> = Vec::new();
                    let mut j: usize = 0;
                    while j < choices.len()
                        invariant
                            j <= choices@.len(),
                            choices@.len() <= 49,
                            rng.seed() == old(rng).seed(),
                            rng.count() <= old(rng).count() + 50 * i + j,
                            old(rng).count() <= 0x1000_0000_0000_0000,
                            i < 0x10000,
                            forall|k: int| 0 <= k < kept@.len()
                                ==> choices@.contains(#[trigger] kept@[k]),
                        decreases choices@.len() - j,
                    {
                        let c = choices[j];
                        let overlaps = Self::count_taken(taken, &div, c % 12);
                        let e: u64 = if overlaps >= 30 { 30 } else { overlaps as u64 };
                        let p: u64 = 1_000_000 / crate::melody::pow2(e);
                        let keep = rng.next_event_ppm(p);
                        if keep {
                            proof {
                                assert(choices@[j as int] == c);
                            }
                            kept.push(c);
                        }
                        j = j + 1;
                    }
                    if kept.len() > 0 {
                        let pickv = rng.next_below(kept.len() as u64) as usize;
                        let note = kept[pickv];
                        proof {
                            assert(chord == spec_marker_at(markers@, div.start)->0);
                            assert(kept@.contains(kept@[pickv as int]));
                            let ci = choose|ci: int| 0 <= ci < choices@.len()
                                && choices@[ci] == note;
                            assert(pcs@.contains(note_pitch_class(note)));
                            let pj = choose|pj: int| 0 <= pj < pcs@.len()
                                && pcs@[pj] == note_pitch_class(note);
                            assert(pcs@[pj] == chord.spec_pitch(pj));
                            assert(chord.spec_contains(note_pitch_class(note)));
                        }
                        out.push((note, div));
                    }
                },
                Option::None => {},
            }
            i = i + 1;
        }
        out
    }

    /// How many sibling notes with this pitch class intersect the divider.
    fn count_taken(taken: &Vec<(u8, TimeSpan)>, div: &TimeSpan, pc: u8) -> (r: usize)
        ensures
            r <= taken@.len(),
    {
        let mut i: usize = 0;
        let mut n: usize = 0;
        while i < taken.len()
            invariant
                i <= taken@.len(),
                n <= i,
            decreases taken@.len() - i,
        {
            let (note, sp) = taken[i];
            if note % 12 == pc && sp.start < div.end && div.start < sp.end {
                n = n + 1;
            }
            i = i + 1;
        }
        n
    }
}

/// A found containing divider inherits well-formedness from its list.
pub proof fn lemma_divider_at_wf(dividers: Seq<TimeSpan>, t: u32)
    requires
        forall|i: int| 0 <= i < dividers.len() ==> (#[trigger] dividers[i]).wf(),
    ensures
        spec_divider_at(dividers, t) is Some ==> (spec_divider_at(dividers, t)->0).wf(),
    decreases dividers.len(),
{
    if dividers.len() > 0 {
        assert(forall|i: int| 0 <= i < dividers.drop_last().len()
            ==> (#[trigger] dividers.drop_last()[i]).wf());
        lemma_divider_at_wf(dividers.drop_last(), t);
    }
}

/// A found ending divider inherits well-formedness from its list.
pub proof fn lemma_divider_ending_wf(dividers: Seq<TimeSpan>, t: u32)
    requires
        forall|i: int| 0 <= i < dividers.len() ==> (#[trigger] dividers[i]).wf(),
    ensures
        spec_divider_ending(dividers, t) is Some
            ==> (spec_divider_ending(dividers, t)->0).wf(),
    decreases dividers.len(),
{
    if dividers.len() > 0 {
        assert(forall|i: int| 0 <= i < dividers.drop_last().len()
            ==> (#[trigger] dividers.drop_last()[i]).wf());
        lemma_divider_ending_wf(dividers.drop_last(), t);
    }
}

/// A found marker chord inherits well-formedness from its list.
pub proof fn lemma_marker_at_wf(markers: Seq<(Chord, TimeSpan)>, t: u32)
    requires
        forall|i: int| 0 <= i < markers.len() ==> (#[trigger] markers[i]).0.wf(),
    ensures
        spec_marker_at(markers, t) is Some ==> (spec_marker_at(markers, t)->0).wf(),
    decreases markers.len(),
{
    if markers.len() > 0 {
        assert(forall|i: int| 0 <= i < markers.drop_last().len()
            ==> (#[trigger] markers.drop_last()[i]).0.wf());
        lemma_marker_at_wf(markers.drop_last(), t);
    }
}

/// Realizes planned directives as notes: each directive's weighted choices
/// come from [`MelodyDirective::apply`] against the running previous note,
/// one choice is picked by weight, and a velocity is drawn from the tight
/// band.  Exactly one note is placed per directive, on the directive's
/// span; each pitch is the directive's own note or a scale-conformant run
/// note.  Consumes two draws per directive.
pub fn realize_directives(
    key: &Key,
    directives: &Vec<(MelodyDirective, TimeSpan)>,
    rng: &mut RandomSource,
) -> (r: Vec<PlacedNote>)
    requires
        key.wf(),
        forall|i: int| 0 <= i < directives@.len() ==> {
            let (d, sp) = #[trigger] directives@[i];
            d.spec_note() <= 125 && sp.wf()
        },
        directives@.len() <= 0x20000,
        old(rng).count() <= 0x1000_0000_0000_0000,
    ensures
        final(rng).seed() == old(rng).seed(),
        final(rng).count() == old(rng).count() + 2 * directives@.len(),
        r@.len() == directives@.len(),
        forall|k: int| 0 <= k < r@.len() ==> {
            let n = #[trigger] r@[k];
            &&& n.span == directives@[k].1
            &&& 84 <= n.velocity <= 106
            &&& (n.pitch == directives@[k].0.spec_note()
                || key.spec_contains(note_pitch_class(n.pitch)))
        },
{
    let mut out: Vec<PlacedNote> = Vec::new();
    let mut prev: Option<u8> = Option::None;
    let mut i: usize = 0;
    while i < directives.len()
        invariant
            i <= directives@.len() <= 0x20000,
            key.wf(),
            forall|k: int| 0 <= k < directives@.len() ==> {
                let (d, sp) = #[trigger] directives@[k];
                d.spec_note() <= 125 && sp.wf()
            },
            rng.seed() == old(rng).seed(),
            rng.count() == old(rng).count() + 2 * i,
            old(rng).count() <= 0x1000_0000_0000_0000,
            out@.len() == i,
            forall|k: int| 0 <= k < i ==> {
                let n = #[trigger] out@[k];
                &&& n.span == directives@[k].1
                &&& 84 <= n.velocity <= 106
                &&& (n.pitch == directives@[k].0.spec_note()
                    || key.spec_contains(note_pitch_class(n.pitch)))
            },
        decreases directives@.len() - i,
    {
        let (d, sp) = directives[i];
        let choices = d.apply(prev, key);
        let mut ws: Vec<u64> = Vec::new();
        let mut j: usize = 0;
        while j < choices.len()
            invariant
                j <= choices@.len(),
                forall|k: int| 0 <= k < choices@.len()
                    ==> 0 < (#[trigger] choices@[k]).1 <= 0x20_0000,
                ws@.len() == j,
                forall|k: int| 0 <= k < j ==> #[trigger] ws@[k] == choices@[k].1,
                forall|k: int| 0 <= k < j ==> 0 < #[trigger] ws@[k] <= 0x20_0000,
            decreases choices@.len() - j,
        {
            ws.push(choices[j].1);
            j = j + 1;
        }
        proof {
            crate::progression::lemma_sum_bounded(ws@, 0x20_0000);
            crate::rng::lemma_sum_nonneg(ws@.drop_first());
            assert(crate::rng::sum_of(ws@) > 0);
        }
        let picked = rng.pick_weighted(&ws);
        let pi = match picked {
            Option::Some(pi) => pi,
            Option::None => {
                proof {
                    assert(false);
                }
                0
            },
        };
        let (pitch, _) = choices[pi];
        let velocity: u8 = 84 + (rng.next_below(23) as u8);
        out.push(PlacedNote { pitch, velocity, span: sp });
        prev = Option::Some(pitch);
        i = i + 1;
    }
    out
}

} // verus!
