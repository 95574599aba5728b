//! The melodic weight model.
//!
//! For one rhythmic slot the model scores every scale-conformant pitch of a
//! configured octave band with a signed integer *bump* accumulated from
//! independent heuristics — chord membership, a cosine contour target,
//! next-chord anticipation, previous-chord residue, leap smoothing and
//! cross-part collision — converts each bump to a weight by raising a fixed
//! bump factor of two to the bump's power, and samples one pitch from the
//! weighted distribution.  Every step is fixed point; the sampled note is a
//! pure function of the slot, the context and the random stream position.

use vstd::prelude::*;
use crate::error::RenderError;
use crate::rng::{RandomSource, scaled_draw, spec_pick, sum_of, lemma_sum_nonneg};
use crate::theory::{Chord, Key, note_pitch_class, spec_scale_notes, scale_notes_in_range};
use crate::timing::TimeSpan;
use crate::progression::lemma_sum_bounded;
use crate::rhythm::spec_tick_sum;

verus! {

/// Largest positive bump a candidate can accumulate.
pub const BUMP_CAP: i64 = 30;

/// Largest penalty a candidate can accumulate.
pub const BUMP_FLOOR: i64 = -30;

/// One rhythmic slot handed to the melodic model: where the note goes, the
/// enclosing phrase, and the harmonic surroundings.
#[derive(Clone, Copy, Debug, PartialEq, Eq, Structural)]
pub struct MelodicSlot {
    /// The time the note will occupy.
    pub span: TimeSpan,
    /// The enclosing phrase, used for the contour wave.
    pub phrase: TimeSpan,
    /// The previous note of the same part, if any.
    pub prev_note: Option<u8>,
    /// The chord sounding during the slot.
    pub current_chord: Chord,
    /// The chord that sounded before it, when it differed.
    pub prev_chord: Option<Chord>,
    /// The next chord and its start tick, when one begins soon after.
    pub next_chord: Option<Chord>,
    /// Where the next chord starts; meaningful only with `next_chord`.
    pub next_chord_start: u32,
}

impl MelodicSlot {
    /// A slot is well formed when its spans are ordered, it lies inside its
    /// phrase, the phrase is non-empty, and its chords are well formed.
    pub open spec fn wf(self) -> bool {
        &&& self.span.wf()
        &&& self.phrase.wf()
        &&& self.phrase.start <= self.span.start
        &&& self.phrase.start < self.phrase.end
        &&& self.span.start < self.phrase.end
        &&& self.current_chord.wf()
        &&& self.prev_chord is Some ==> self.prev_chord->0.wf()
        &&& self.next_chord is Some ==> self.next_chord->0.wf()
        &&& self.next_chord is Some ==> self.span.start <= self.next_chord_start
    }
}

/// The read-only surroundings of a slot: the key, the tick grid, the octave
/// band, and what sibling parts are doing.
pub struct MelodicContext {
    /// The active key.
    pub key: Key,
    /// Ticks per half beat.
    pub half_beat: u32,
    /// Lowest admissible note.
    pub low: u8,
    /// Highest admissible note.
    pub high: u8,
    /// Pitch classes that sibling parts sustain through the slot.
    pub sustained: Vec<u8>,
    /// Pitch classes of sibling notes starting at nearly the same time.
    pub colliding: Vec<u8>,
    /// Whether this part uses the loose primary velocity band.
    pub primary: bool,
}

impl MelodicContext {
    /// Well-formedness: a usable key, a positive tick grid and a non-empty
    /// octave band.
    pub open spec fn wf(self) -> bool {
        &&& self.key.wf()
        &&& self.half_beat >= 1
        &&& self.low <= self.high
        &&& self.high <= 127
    }
}

/// A placed note: the model's output for one slot.
#[derive(Clone, Copy, Debug, PartialEq, Eq, Structural)]
pub struct PlacedNote {
    /// MIDI-style pitch.
    pub pitch: u8,
    /// Key velocity.
    pub velocity: u8,
    /// The time the note occupies.
    pub span: TimeSpan,
}

/// Raised-cosine wave over one cycle, sampled in twenty-four steps: the
/// value at step `k` is `(1 - cos(2 pi k / 24)) / 2` in parts per million.
pub open spec fn spec_wave_table(k: int) -> int {
    seq![0int, 17_037, 66_987, 146_447, 250_000, 370_590, 500_000, 629_410, 750_000,
        853_553, 933_013, 982_963, 1_000_000, 982_963, 933_013, 853_553, 750_000,
        629_410, 500_000, 370_590, 250_000, 146_447, 66_987, 17_037][k]
}

/// The contour wave at a phase given as a fraction of the cycle in parts
/// per million.
pub open spec fn spec_wave(f: int) -> int {
    spec_wave_table(f * 24 / 1_000_000)
}

/// Looks up the contour wave.
pub fn wave(f: u64) -> (r: u64)
    requires
        f < 1_000_000,
    ensures
        r == spec_wave(f as int),
        r <= 1_000_000,
{
    let table: [u64; 24] = [0, 17_037, 66_987, 146_447, 250_000, 370_590, 500_000,
        629_410, 750_000, 853_553, 933_013, 982_963, 1_000_000, 982_963, 933_013,
        853_553, 750_000, 629_410, 500_000, 370_590, 250_000, 146_447, 66_987, 17_037];
    let idx = (f * 24) / 1_000_000;
    proof {
        assert(f * 24 < 24_000_000) by (nonlinear_arith)
            requires f < 1_000_000;
    }
    table[idx as usize]
}

/// The contour target pitch for a slot: the wave phase is the slot's
/// position inside the phrase scaled by the harmonic multiplier, shifted by
/// half a cycle; the wave value picks a pitch inside the octave band.
pub open spec fn spec_contour_target(slot: MelodicSlot, low: u8, high: u8, h: int) -> int {
    let phrase_len = slot.phrase.spec_len();
    let pos = slot.span.start - slot.phrase.start;
    let f = (pos * h * 1_000_000 / phrase_len + 500_000) % 1_000_000;
    low + spec_wave(f) * (high - low) / 1_000_000
}

/// Computes the contour target pitch.
pub fn contour_target(slot: &MelodicSlot, ctx: &MelodicContext, h: u64) -> (r: u8)
    requires
        slot.wf(),
        ctx.wf(),
        1 <= h <= 4,
        slot.span.start < 0xF000_0000,
    ensures
        r == spec_contour_target(*slot, ctx.low, ctx.high, h as int),
        ctx.low <= r <= ctx.high,
{
    let phrase_len: u64 = (slot.phrase.end - slot.phrase.start) as u64;
    let pos: u64 = (slot.span.start - slot.phrase.start) as u64;
    proof {
        assert(pos * h * 1_000_000 <= 0xF000_0000u64 * 4 * 1_000_000) by (nonlinear_arith)
            requires pos <= 0xF000_0000u64 && h <= 4;
        assert(pos * h * 1_000_000 / (phrase_len as int) >= 0);
    }
    let f = (pos * h * 1_000_000 / phrase_len + 500_000) % 1_000_000;
    let w = wave(f);
    let spread: u64 = (ctx.high - ctx.low) as u64;
    proof {
        assert(w * spread <= 1_000_000 * 127) by (nonlinear_arith)
            requires w <= 1_000_000 && spread <= 127;
        assert(w * spread / 1_000_000 <= spread) by (nonlinear_arith)
            requires w <= 1_000_000 && 0 <= w * spread && spread >= 0;
    }
    ctx.low + (w * spread / 1_000_000) as u8
}

/// Two to the power `n`, for bump-to-weight conversion.
pub open spec fn spec_pow2(n: nat) -> int
    decreases n,
{
    if n == 0 {
        1
    } else {
        2 * spec_pow2((n - 1) as nat)
    }
}

/// Powers of two grow with the exponent.
pub proof fn lemma_pow2_mono(a: nat, b: nat)
    requires
        a <= b,
    ensures
        1 <= spec_pow2(a) <= spec_pow2(b),
    decreases b,
{
    if a < b {
        lemma_pow2_mono(a, (b - 1) as nat);
    } else if b > 0 {
        lemma_pow2_mono((a - 1) as nat, (b - 1) as nat);
    }
}

/// Powers of two stay small for capped bumps.
pub proof fn lemma_pow2_bound(n: nat)
    requires
        n <= 30,
    ensures
        1 <= spec_pow2(n) <= 0x4000_0000,
{
    lemma_pow2_mono(n, 30nat);
    assert(spec_pow2(30nat) == 0x4000_0000) by {
        reveal_with_fuel(spec_pow2, 32);
    }
}

/// Computes two to the power `n`.
pub fn pow2(n: u64) -> (r: u64)
    requires
        n <= 30,
    ensures
        r == spec_pow2(n as nat),
        1 <= r <= 0x4000_0000,
{
    let mut r: u64 = 1;
    let mut i: u64 = 0;
    while i < n
        invariant
            i <= n <= 30,
            r == spec_pow2(i as nat),
            1 <= r <= 0x4000_0000,
        decreases n - i,
    {
        proof {
            lemma_pow2_bound(i as nat + 1);
        }
        r = 2 * r;
        i = i + 1;
    }
    r
}

/// A bump clamped into the admissible range.
pub open spec fn spec_clamp_bump(b: int) -> int {
    if b > BUMP_CAP as int {
        BUMP_CAP as int
    } else if b < BUMP_FLOOR as int {
        BUMP_FLOOR as int
    } else {
        b
    }
}

/// The weight of a clamped bump: the bump factor two raised to the bump, in
/// parts per million.
pub open spec fn spec_bump_weight(b: int) -> int {
    let c = spec_clamp_bump(b);
    if c >= 0 {
        1_000_000 * spec_pow2(c as nat)
    } else {
        1_000_000int / spec_pow2((-c) as nat)
    }
}

/// Converts a bump to its weight.
pub fn bump_weight(b: i64) -> (r: u64)
    ensures
        r == spec_bump_weight(b as int),
        r <= 0x4000_0000 * 1_000_000,
{
    let c: i64 = if b > BUMP_CAP { BUMP_CAP } else if b < BUMP_FLOOR { BUMP_FLOOR } else { b };
    if c >= 0 {
        let p = pow2(c as u64);
        proof {
            assert(1_000_000 * p <= 0x4000_0000 * 1_000_000) by (nonlinear_arith)
                requires p <= 0x4000_0000;
        }
        1_000_000 * p
    } else {
        let p = pow2((-c) as u64);
        1_000_000 / p
    }
}

/// Whether a pitch class occurs in a list.
pub open spec fn spec_has_pc(s: Seq<u8>, pc: u8) -> bool {
    exists|i: int| 0 <= i < s.len() && s[i] == pc
}

/// Decides whether a pitch class occurs in a list.
pub fn has_pc(v: &Vec<u8>, pc: u8) -> (r: bool)
    ensures
        r == spec_has_pc(v@, pc),
{
    let mut i: usize = 0;
    let mut found = false;
    while i < v.len()
        invariant
            i <= v@.len(),
            found == exists|j: int| 0 <= j < i && v@[j] == pc,
        decreases v@.len() - i,
    {
        if v[i] == pc {
            found = true;
        }
        i = i + 1;
    }
    found
}

/// Magnitude of the chord-membership bump: the square of one less than the
/// slot's duration in half beats, capped at sixteen.
pub open spec fn spec_membership_magnitude(slot: MelodicSlot, half_beat: u32) -> int {
    let d = slot.span.spec_len() / (half_beat as int);
    let m = if d < 1 { 0int } else if d - 1 > 4 { 4int } else { d - 1 };
    m * m
}

/// The signed bump score of one candidate note: the sum of the six
/// heuristics.
pub open spec fn spec_bump(
    slot: MelodicSlot,
    half_beat: u32,
    sustained: Seq<u8>,
    colliding: Seq<u8>,
    nt: u8,
    target: int,
) -> int {
    let pc = note_pitch_class(nt);
    let m = spec_membership_magnitude(slot, half_beat);
    let membership = if slot.current_chord.spec_contains(pc) {
        if spec_has_pc(sustained, pc) {
            -m
        } else {
            m
        }
    } else {
        -3
    };
    let dist = if nt >= target { nt - target } else { target - nt };
    let contour = -(if dist * dist / 2 > 18 { 18int } else { dist * dist / 2 });
    let anticipation = match slot.next_chord {
        Option::Some(nc) => {
            let gap = slot.next_chord_start - slot.span.start;
            if gap <= 2 * half_beat {
                let td = crate::harmony::spec_nearest_tone(pc, nc);
                let pb = if td <= 2 { 2 - td } else { 0int };
                let tb = if gap <= half_beat { 2int } else { 1int };
                if pb > 0 {
                    pb + tb
                } else {
                    0int
                }
            } else {
                0int
            }
        },
        Option::None => 0int,
    };
    let residue = match slot.prev_chord {
        Option::Some(p) => {
            if p != slot.current_chord && p.spec_contains(pc)
                && !slot.current_chord.spec_contains(pc) {
                -2int
            } else {
                0int
            }
        },
        Option::None => 0int,
    };
    let leap = match slot.prev_note {
        Option::Some(pn) => {
            let d = if nt >= pn { nt - pn } else { pn - nt };
            (if d > 2 { -(d - 2) } else { 0int }) + (if d == 0 { -3int } else { 0int })
        },
        Option::None => 0int,
    };
    let collision = if spec_has_pc(colliding, pc) { -4int } else { 0int };
    membership + contour + anticipation + residue + leap + collision
}

/// Computes one candidate's bump score.
#[verifier::rlimit(100)]
pub fn bump_for(slot: &MelodicSlot, ctx: &MelodicContext, nt: u8, target: u8) -> (r: i64)
    requires
        slot.wf(),
        ctx.wf(),
        nt <= 127,
    ensures
        r == spec_bump(*slot, ctx.half_beat, ctx.sustained@, ctx.colliding@, nt,
            target as int),
{
    let pc = nt % 12;
    let d_halves: u32 = (slot.span.end - slot.span.start) / ctx.half_beat;
    let m_base: i64 = if d_halves < 1 {
        0
    } else if d_halves - 1 > 4 {
        4
    } else {
        (d_halves - 1) as i64
    };
    proof {
        assert(0 <= m_base <= 4);
        assert(m_base * m_base <= 16) by (nonlinear_arith)
            requires 0 <= m_base <= 4;
    }
    let m: i64 = m_base * m_base;
    let membership: i64 = if slot.current_chord.contains(pc) {
        if has_pc(&ctx.sustained, pc) {
            -m
        } else {
            m
        }
    } else {
        -3
    };
    let dist: i64 = if nt >= target { (nt - target) as i64 } else { (target - nt) as i64 };
    proof {
        assert(dist * dist <= 65025) by (nonlinear_arith)
            requires 0 <= dist <= 255;
        assert(dist * dist >= 0) by (nonlinear_arith)
            requires 0 <= dist;
    }
    let q = dist * dist / 2;
    let contour: i64 = -(if q > 18 { 18 } else { q });
    let anticipation: i64 = match &slot.next_chord {
        Option::Some(nc) => {
            let gap: u64 = (slot.next_chord_start - slot.span.start) as u64;
            if gap <= 2 * (ctx.half_beat as u64) {
                let td = crate::harmony::nearest_tone(pc, nc);
                let pb: i64 = if td <= 2 { (2 - td) as i64 } else { 0 };
                let tb: i64 = if gap <= ctx.half_beat as u64 { 2 } else { 1 };
                if pb > 0 {
                    pb + tb
                } else {
                    0
                }
            } else {
                0
            }
        },
        Option::None => 0,
    };
    let residue: i64 = match &slot.prev_chord {
        Option::Some(p) => {
            if !(*p == slot.current_chord) && p.contains(pc)
                && !slot.current_chord.contains(pc) {
                -2
            } else {
                0
            }
        },
        Option::None => 0,
    };
    let leap: i64 = match &slot.prev_note {
        Option::Some(pn) => {
            let d: i64 = if nt >= *pn { (nt - *pn) as i64 } else { (*pn - nt) as i64 };
            (if d > 2 { -(d - 2) } else { 0 }) + (if d == 0 { -3 } else { 0 })
        },
        Option::None => 0,
    };
    let collision: i64 = if has_pc(&ctx.colliding, pc) { -4 } else { 0 };
    membership + contour + anticipation + residue + leap + collision
}

/// The weight list of every scale-conformant candidate in the octave band.
pub open spec fn spec_slot_weights(
    slot: MelodicSlot,
    key: Key,
    half_beat: u32,
    sustained: Seq<u8>,
    colliding: Seq<u8>,
    low: u8,
    high: u8,
    target: int,
) -> Seq<u64> {
    let cands = spec_scale_notes(key, low as int, (high - low + 1) as nat);
    Seq::new(cands.len(), |i: int| spec_bump_weight(spec_bump(slot, half_beat, sustained,
        colliding, cands[i], target)) as u64)
}

/// Computes the candidates and their weights.
fn slot_weights(slot: &MelodicSlot, ctx: &MelodicContext, target: u8)
    -> (r: (Vec<u8>, Vec<u64>))
    requires
        slot.wf(),
        ctx.wf(),
    ensures
        r.0@ == spec_scale_notes(ctx.key, ctx.low as int, (ctx.high - ctx.low + 1) as nat),
        r.1@ == spec_slot_weights(*slot, ctx.key, ctx.half_beat, ctx.sustained@,
            ctx.colliding@, ctx.low, ctx.high, target as int),
        r.0@.len() == r.1@.len(),
        forall|i: int| 0 <= i < r.0@.len() ==> {
            let n = #[trigger] r.0@[i];
            ctx.low <= n <= ctx.high && ctx.key.spec_contains(note_pitch_class(n))
        },
        forall|i: int| 0 <= i < r.1@.len() ==> #[trigger] r.1@[i] <= 0x4000_0000 * 1_000_000,
{
    let cands = scale_notes_in_range(&ctx.key, ctx.low, ctx.high);
    let mut ws: Vec<u64> = Vec::new();
    let mut i: usize = 0;
    while i < cands.len()
        invariant
            i <= cands@.len(),
            slot.wf(),
            ctx.wf(),
            forall|j: int| 0 <= j < cands@.len() ==> {
                let n = #[trigger] cands@[j];
                ctx.low <= n <= ctx.high && ctx.key.spec_contains(note_pitch_class(n))
            },
            ws@.len() == i,
            forall|j: int| 0 <= j < i ==> #[trigger] ws@[j]
                == spec_bump_weight(spec_bump(*slot, ctx.half_beat, ctx.sustained@,
                    ctx.colliding@, cands@[j], target as int)) as u64,
            forall|j: int| 0 <= j < i ==> #[trigger] ws@[j] <= 0x4000_0000 * 1_000_000,
        decreases cands@.len() - i,
    {
        let b = bump_for(slot, ctx, cands[i], target);
        let w = bump_weight(b);
        ws.push(w);
        i = i + 1;
    }
    proof {
        assert(ws@ =~= spec_slot_weights(*slot, ctx.key, ctx.half_beat, ctx.sustained@,
            ctx.colliding@, ctx.low, ctx.high, target as int));
    }
    (cands, ws)
}

/// Everything the melodic model decides for one slot, as a pure function of
/// the slot, the context and the random stream position: the placed note,
/// or `None` when every candidate's weight vanished.  Consumes three draws
/// on success: the contour multiplier, the pick and the velocity.
pub open spec fn spec_sample_note(
    slot: MelodicSlot,
    key: Key,
    half_beat: u32,
    sustained: Seq<u8>,
    colliding: Seq<u8>,
    low: u8,
    high: u8,
    primary: bool,
    seed: u64,
    count: int,
) -> Option<PlacedNote> {
    let h = 1 + scaled_draw(seed, count as u64, 4);
    let target = spec_contour_target(slot, low, high, h);
    let ws = spec_slot_weights(slot, key, half_beat, sustained, colliding, low, high, target);
    if sum_of(ws) == 0 {
        Option::None
    } else {
        let i = spec_pick(ws, seed, (count + 1) as u64);
        let cands = spec_scale_notes(key, low as int, (high - low + 1) as nat);
        let velocity = if primary {
            80 + scaled_draw(seed, (count + 2) as u64, 31)
        } else {
            84 + scaled_draw(seed, (count + 2) as u64, 23)
        };
        Option::Some(PlacedNote { pitch: cands[i], velocity: velocity as u8, span: slot.span })
    }
}

/// The melodic weight model: scores and samples one pitch for one slot.
///
/// On success the note is pinned down exactly by [`spec_sample_note`], its
/// pitch lies in the octave band and in the key's scale, its velocity lies
/// in the part's band, and it occupies the slot's span.  When every
/// candidate weight vanished — or the octave band holds no scale note — the
/// model reports missing context instead of crashing.
pub fn sample_note(slot: &MelodicSlot, ctx: &MelodicContext, rng: &mut RandomSource)
    -> (r: Result<PlacedNote, RenderError>)
    requires
        slot.wf(),
        ctx.wf(),
        slot.span.start < 0xF000_0000,
        old(rng).count() + 8 < u64::MAX,
    ensures
        final(rng).seed() == old(rng).seed(),
        match r {
            Result::Ok(n) => {
                &&& Option::Some(n) == spec_sample_note(*slot, ctx.key, ctx.half_beat,
                    ctx.sustained@, ctx.colliding@, ctx.low, ctx.high, ctx.primary,
                    old(rng).seed(), old(rng).count() as int)
                &&& final(rng).count() == old(rng).count() + 3
                &&& ctx.low <= n.pitch <= ctx.high
                &&& ctx.key.spec_contains(note_pitch_class(n.pitch))
                &&& n.span == slot.span
                &&& (ctx.primary ==> 80 <= n.velocity <= 110)
                &&& (!ctx.primary ==> 84 <= n.velocity <= 106)
            },
            Result::Err(_) => {
                &&& spec_sample_note(*slot, ctx.key, ctx.half_beat, ctx.sustained@,
                    ctx.colliding@, ctx.low, ctx.high, ctx.primary, old(rng).seed(),
                    old(rng).count() as int) is None
                &&& final(rng).count() == old(rng).count() + 2
            },
        },
{
    let ghost seed = rng.seed();
    let ghost c0 = rng.count() as int;
    let h = 1 + rng.next_below(4);
    let target = contour_target(slot, ctx, h);
    let (cands, ws) = slot_weights(slot, ctx, target);
    proof {
        crate::theory::lemma_scale_notes_len(ctx.key, ctx.low as int,
            (ctx.high - ctx.low + 1) as nat);
        lemma_sum_bounded(ws@, 0x4000_0000_000_000u64);
        lemma_sum_nonneg(ws@);
        assert(ws@.len() <= 128);
    }
    match rng.pick_weighted(&ws) {
        Option::None => {
            Result::Err(RenderError::MissingContext("No melodic candidates.".to_owned()))
        },
        Option::Some(i) => {
            let pitch = cands[i];
            let velocity: u8 = if ctx.primary {
                80 + (rng.next_below(31) as u8)
            } else {
                84 + (rng.next_below(23) as u8)
            };
            Result::Ok(PlacedNote { pitch, velocity, span: slot.span })
        },
    }
}

/// Determinism of the melodic weight model: two invocations with the same
/// slot, context and stream position decide the same note.
pub proof fn lemma_sample_deterministic(
    slot: MelodicSlot,
    key: Key,
    half_beat: u32,
    sustained: Seq<u8>,
    colliding: Seq<u8>,
    low: u8,
    high: u8,
    primary: bool,
    seed: u64,
    count: int,
    a: Option<PlacedNote>,
    b: Option<PlacedNote>,
)
    requires
        a == spec_sample_note(slot, key, half_beat, sustained, colliding, low, high,
            primary, seed, count),
        b == spec_sample_note(slot, key, half_beat, sustained, colliding, low, high,
            primary, seed, count),
    ensures
        a == b,
{
}

/// The melodic duration menu: runs of one to four half beats, with longer
/// durations exponentially more likely.
pub open spec fn spec_melody_menu(half_beat: u32) -> Seq<(Seq<u32>, u32)> {
    Seq::new(4nat, |n: int| (seq![((n + 1) * half_beat) as u32],
        seq![1u32, 2, 4, 8][n]))
}

/// The melodic duration menu always fills a window that is a positive
/// multiple of at least four half beats.
proof fn lemma_melody_menu_fills(half_beat: u32, length: u32, menu: Seq<(Vec<u32>, u32)>)
    requires
        2 <= half_beat <= 0x8000,
        crate::rhythm::spec_menu_view(menu) == spec_melody_menu(half_beat),
        length as int % (half_beat as int) == 0,
        length >= 4 * half_beat,
    ensures
        crate::rhythm::spec_menu_fills(crate::rhythm::spec_menu_view(menu), length),
        forall|i: int, j: int| 0 <= i < menu.len() && 0 <= j < menu[i].0@.len()
            ==> #[trigger] menu[i].0@[j] <= length,
{
    let m = crate::rhythm::spec_menu_view(menu);
    let hb = half_beat as int;
    assert forall|i: int| 0 <= i < m.len() implies (#[trigger] m[i]).1 > 0 by {
        assert(m[i] == (seq![(((i + 1) * hb) as u32)], seq![1u32, 2, 4, 8][i]));
    }
    assert(crate::rhythm::spec_weight_total(m) <= 0x7FFF_FFFF) by {
        assert forall|i: int| 0 <= i < m.len() implies (#[trigger] m[i]).1 <= 8u32 by {
            assert(m[i] == (seq![(((i + 1) * hb) as u32)], seq![1u32, 2, 4, 8][i]));
        }
        crate::rhythm::lemma_weight_total_bounded(m, 8);
    }
    assert forall|i: int| 0 <= i < m.len() implies
        spec_tick_sum((#[trigger] m[i]).0) <= 0x7FFF_FFFF by {
        assert(m[i] == (seq![(((i + 1) * hb) as u32)], seq![1u32, 2, 4, 8][i]));
        assert(0 <= (i + 1) * hb <= 4 * 0x8000) by (nonlinear_arith)
            requires 0 <= i && i + 1 <= 4 && 0 <= hb <= 0x8000;
        assert(spec_tick_sum(seq![(((i + 1) * hb) as u32)]) == (i + 1) * hb) by {
            assert(seq![(((i + 1) * hb) as u32)].drop_first() =~= Seq::<u32>::empty());
            assert(spec_tick_sum(Seq::<u32>::empty()) == 0);
        }
    }
    assert forall|i: int| 0 <= i < m.len() implies
        0 < (#[trigger] m[i]).0.len() <= 0x1000 by {
        assert(m[i] == (seq![(((i + 1) * hb) as u32)], seq![1u32, 2, 4, 8][i]));
    }
    assert forall|i: int, j: int| 0 <= i < m.len() && 0 <= j < m[i].0.len() implies
        #[trigger] m[i].0[j] > 0 by {
        assert(m[i] == (seq![(((i + 1) * hb) as u32)], seq![1u32, 2, 4, 8][i]));
        assert((i + 1) * hb >= hb) by (nonlinear_arith)
            requires i >= 0 && hb >= 0;
        assert((i + 1) * hb <= 4 * 0x8000) by (nonlinear_arith)
            requires i + 1 <= 4 && 0 <= hb <= 0x8000;
    }
    assert(m[0] == (seq![(((0 + 1) * hb) as u32)], 1u32));
    assert((0 + 1) * hb == hb) by (nonlinear_arith);
    assert(m[0].0 =~= seq![half_beat]);
    assert(spec_tick_sum(seq![half_beat]) == hb) by {
        assert(seq![half_beat].drop_first() =~= Seq::<u32>::empty());
        assert(spec_tick_sum(Seq::<u32>::empty()) == 0);
    }
    assert forall|i: int| 0 <= i < m.len() implies
        spec_tick_sum((#[trigger] m[i]).0) % hb == 0 by {
        assert(m[i] == (seq![(((i + 1) * hb) as u32)], seq![1u32, 2, 4, 8][i]));
        assert(0 <= (i + 1) * hb <= 4 * 0x8000) by (nonlinear_arith)
            requires 0 <= i && i + 1 <= 4 && 0 <= hb <= 0x8000;
        assert(spec_tick_sum(seq![(((i + 1) * hb) as u32)]) == (i + 1) * hb) by {
            assert(seq![(((i + 1) * hb) as u32)].drop_first() =~= Seq::<u32>::empty());
            assert(spec_tick_sum(Seq::<u32>::empty()) == 0);
        }
        assert(((i + 1) * hb) % hb == 0) by (nonlinear_arith)
            requires hb > 0 && i + 1 >= 0;
    }
    assert(0 <= 0 < m.len() && {
        let mm = spec_tick_sum(m[0].0);
        mm > 0 && length as int % mm == 0
            && forall|i: int| 0 <= i < m.len()
                ==> spec_tick_sum((#[trigger] m[i]).0) % mm == 0
    });
    assert forall|i: int, j: int| 0 <= i < menu.len() && 0 <= j < menu[i].0@.len() implies
        #[trigger] menu[i].0@[j] <= length by {
        assert(m[i] == (seq![(((i + 1) * hb) as u32)], seq![1u32, 2, 4, 8][i]));
        assert(m[i].0 == menu[i].0@);
        assert((i + 1) * hb <= 4 * hb) by (nonlinear_arith)
            requires 0 <= i && i + 1 <= 4 && hb >= 0;
    }
}

/// Subdivides a window's length by the melodic duration menu: exactly the
/// spans the rhythm collaborator names for the menu at this sub-seed.
#[verifier::rlimit(100)]
fn melodic_pattern(length: u32, half_beat: u32, rhythm_seed: u64) -> (r: Vec<TimeSpan>)
    requires
        2 <= half_beat <= 0x8000,
        0 < length <= 8 * 13 * 0x10000,
        length as int % (half_beat as int) == 0,
        length >= 4 * half_beat,
    ensures
        r@.len() <= 0xF000_0001,
        r@.len() == crate::rhythm::menu_spans(length, spec_melody_menu(half_beat),
            rhythm_seed).len(),
        forall|k: int| 0 <= k < r@.len() ==> #[trigger] r@[k] == (TimeSpan {
            start: crate::rhythm::menu_spans(length, spec_melody_menu(half_beat),
                rhythm_seed)[k].0,
            end: crate::rhythm::menu_spans(length, spec_melody_menu(half_beat),
                rhythm_seed)[k].1,
        }),
        forall|k: int| 0 <= k < r@.len() ==> {
            let sp = #[trigger] r@[k];
            sp.start < sp.end && sp.end <= length
        },
{
    let hb = half_beat;
    let mut menu: Vec<(Vec<u32>, u32)> = Vec::new();
    let mut n: u32 = 0;
    while n < 4
        invariant
            n <= 4,
            2 <= hb <= 0x8000,
            menu@.len() == n,
            forall|i: int| 0 <= i < menu@.len() ==> (#[trigger] menu@[i]).0@
                == seq![(((i + 1) * (hb as int)) as u32)]
                && menu@[i].1 == seq![1u32, 2, 4, 8][i],
        decreases 4 - n,
    {
        proof {
            assert((n + 1) * hb <= 4 * 0x8000) by (nonlinear_arith)
                requires n + 1 <= 4 && hb <= 0x8000;
            assert((n + 1) * hb >= 0) by (nonlinear_arith)
                requires n >= 0 && hb >= 0;
        }
        let mut run: Vec<u32> = Vec::new();
        run.push((n + 1) * hb);
        proof {
            assert(run@ =~= seq![(((n as int + 1) * (hb as int)) as u32)]);
        }
        let weights: [u32; 4] = [1, 2, 4, 8];
        menu.push((run, weights[n as usize]));
        n = n + 1;
    }
    proof {
        assert(crate::rhythm::spec_menu_view(menu@) =~= spec_melody_menu(hb));
        lemma_melody_menu_fills(hb, length, menu@);
    }
    let pattern = crate::rhythm::menu_spans_in(length, &menu, rhythm_seed);
    proof {
        crate::structure::lemma_chain_count(pattern@);
        assert forall|k: int| 0 <= k < pattern@.len() implies
            (#[trigger] pattern@[k]).end <= length by {
            crate::structure::lemma_chain_end_bound(pattern@, k);
        }
    }
    pattern
}

/// The first marker starting strictly after the tick — the earliest such
/// start, the earliest marker among ties — if any.
pub open spec fn spec_marker_after(markers: Seq<(Chord, TimeSpan)>, t: u32)
    -> Option<(Chord, u32)>
    decreases markers.len(),
{
    if markers.len() == 0 {
        Option::None
    } else {
        let best = spec_marker_after(markers.drop_last(), t);
        let m = markers.last();
        if m.1.start > t && (best is None || m.1.start < (best->0).1) {
            Option::Some((m.0, m.1.start))
        } else {
            best
        }
    }
}

/// Computes the first marker starting strictly after the tick.
pub fn marker_after(markers: &Vec<(Chord, TimeSpan)>, t: u32) -> (r: Option<(Chord, u32)>)
    ensures
        r == spec_marker_after(markers@, t),
{
    let mut i: usize = 0;
    let mut best: Option<(Chord, u32)> = Option::None;
    proof {
        assert(markers@.take(0) =~= Seq::<(Chord, TimeSpan)>::empty());
    }
    while i < markers.len()
        invariant
            i <= markers@.len(),
            best == spec_marker_after(markers@.take(i as int), t),
        decreases markers@.len() - i,
    {
        let (c, sp) = markers[i];
        proof {
            assert(markers@.take(i as int + 1).drop_last() =~= markers@.take(i as int));
            assert(markers@.take(i as int + 1).last() == markers@[i as int]);
        }
        if sp.start > t {
            match &best {
                Option::Some(b) => {
                    if sp.start < b.1 {
                        best = Option::Some((c, sp.start));
                    }
                },
                Option::None => {
                    best = Option::Some((c, sp.start));
                },
            }
        }
        i = i + 1;
    }
    proof {
        assert(markers@.take(markers@.len() as int) =~= markers@);
    }
    best
}

/// A found next marker starts after the tick and carries a well-formed
/// chord.
pub proof fn lemma_marker_after_wf(markers: Seq<(Chord, TimeSpan)>, t: u32)
    requires
        forall|i: int| 0 <= i < markers.len() ==> (#[trigger] markers[i]).0.wf(),
    ensures
        spec_marker_after(markers, t) is Some ==> {
            let (c, s) = spec_marker_after(markers, t)->0;
            c.wf() && s > t
        },
    decreases markers.len(),
{
    if markers.len() > 0 {
        assert(forall|i: int| 0 <= i < markers.drop_last().len()
            ==> (#[trigger] markers.drop_last()[i]).0.wf());
        lemma_marker_after_wf(markers.drop_last(), t);
    }
}

/// One line state: the notes placed so far, the previous note and chord,
/// and the stream position.
pub struct LineState {
    /// The notes placed so far, in slot order.
    pub notes: Seq<PlacedNote>,
    /// The previous placed pitch, if any.
    pub prev_note: Option<u8>,
    /// The chord of the previous covered slot, if any.
    pub prev_chord: Option<Chord>,
    /// The stream position after the slots so far.
    pub count: int,
}

/// What the melody line decides over the first `upto` pattern spans, as a
/// pure function of the pattern, the window, the markers, the context and
/// the random stream: each covered slot consults the marker at its start
/// (and the next one after it) and samples the melodic weight model; a slot
/// no marker covers is skipped, and a slot whose candidate weights all
/// vanish advances the stream by two draws but places nothing.
pub open spec fn spec_line(
    raw: Seq<(u32, u32)>,
    window: TimeSpan,
    markers: Seq<(Chord, TimeSpan)>,
    key: Key,
    half_beat: u32,
    sustained: Seq<u8>,
    colliding: Seq<u8>,
    low: u8,
    high: u8,
    primary: bool,
    seed: u64,
    count: int,
    upto: int,
) -> LineState
    decreases upto,
{
    if upto <= 0 {
        LineState { notes: Seq::empty(), prev_note: Option::None,
            prev_chord: Option::None, count }
    } else {
        let st = spec_line(raw, window, markers, key, half_beat, sustained, colliding,
            low, high, primary, seed, count, upto - 1);
        let sp = raw[upto - 1];
        let slot_span = TimeSpan {
            start: (window.start + sp.0) as u32,
            end: (window.start + sp.1) as u32,
        };
        match crate::parts::spec_marker_at(markers, slot_span.start) {
            Option::None => st,
            Option::Some(chord) => {
                let (next_chord, next_chord_start) =
                    match spec_marker_after(markers, slot_span.start) {
                        Option::Some((c, t)) => (Option::Some(c), t),
                        Option::None => (Option::None, slot_span.start),
                    };
                let slot = MelodicSlot {
                    span: slot_span,
                    phrase: window,
                    prev_note: st.prev_note,
                    current_chord: chord,
                    prev_chord: match st.prev_chord {
                        Option::Some(p) => if p == chord {
                            Option::None
                        } else {
                            Option::Some(p)
                        },
                        Option::None => Option::None,
                    },
                    next_chord,
                    next_chord_start,
                };
                match spec_sample_note(slot, key, half_beat, sustained, colliding, low,
                    high, primary, seed, st.count) {
                    Option::Some(note) => LineState {
                        notes: st.notes.push(note),
                        prev_note: Option::Some(note.pitch),
                        prev_chord: Option::Some(chord),
                        count: st.count + 3,
                    },
                    Option::None => LineState {
                        notes: st.notes,
                        prev_note: st.prev_note,
                        prev_chord: Option::Some(chord),
                        count: st.count + 2,
                    },
                }
            },
        }
    }
}

/// Whether two consecutive notes can merge into one longer note: the same
/// pitch, played back to back.
pub open spec fn spec_mergeable(a: PlacedNote, b: PlacedNote) -> bool {
    a.pitch == b.pitch && a.span.end == b.span.start
}

/// The first `upto` notes with adjacent equal contiguous notes merged, and
/// the stream position after: at every merge opportunity one draw decides,
/// with seven-tenths probability, whether the later note extends the
/// earlier one instead of sounding again.
pub open spec fn spec_merged(notes: Seq<PlacedNote>, seed: u64, count: int, upto: int)
    -> (Seq<PlacedNote>, int)
    decreases upto,
{
    if upto <= 0 {
        (Seq::empty(), count)
    } else {
        let (acc, cnt) = spec_merged(notes, seed, count, upto - 1);
        let n = notes[upto - 1];
        if acc.len() > 0 && spec_mergeable(acc.last(), n) {
            if scaled_draw(seed, cnt as u64, 1_000_000) < 700_000 {
                (acc.update(acc.len() - 1, PlacedNote {
                    pitch: acc.last().pitch,
                    velocity: acc.last().velocity,
                    span: TimeSpan { start: acc.last().span.start, end: n.span.end },
                }), cnt + 1)
            } else {
                (acc.push(n), cnt + 1)
            }
        } else {
            (acc.push(n), cnt)
        }
    }
}

/// Merging consumes at most one draw per note.
proof fn lemma_merged_count(notes: Seq<PlacedNote>, seed: u64, count: int, upto: int)
    requires
        upto >= 0,
    ensures
        count <= spec_merged(notes, seed, count, upto).1 <= count + upto,
    decreases upto,
{
    if upto > 0 {
        lemma_merged_count(notes, seed, count, upto - 1);
    }
}

/// Merging preserves per-note bounds: pitches and velocities come from the
/// inputs, and spans stay inside any window that contains every input span.
proof fn lemma_merged_bounds(
    notes: Seq<PlacedNote>,
    seed: u64,
    count: int,
    upto: int,
    key: Key,
    low: u8,
    high: u8,
    window: TimeSpan,
)
    requires
        0 <= upto <= notes.len(),
        forall|k: int| 0 <= k < notes.len() ==> {
            let n = #[trigger] notes[k];
            &&& low <= n.pitch <= high
            &&& key.spec_contains(note_pitch_class(n.pitch))
            &&& window.start <= n.span.start < n.span.end <= window.end
        },
    ensures
        forall|k: int| 0 <= k < spec_merged(notes, seed, count, upto).0.len() ==> {
            let n = #[trigger] spec_merged(notes, seed, count, upto).0[k];
            &&& low <= n.pitch <= high
            &&& key.spec_contains(note_pitch_class(n.pitch))
            &&& window.start <= n.span.start < n.span.end <= window.end
        },
    decreases upto,
{
    if upto > 0 {
        lemma_merged_bounds(notes, seed, count, upto - 1, key, low, high, window);
        let (acc, cnt) = spec_merged(notes, seed, count, upto - 1);
        let n = notes[upto - 1];
        if acc.len() > 0 && spec_mergeable(acc.last(), n)
            && scaled_draw(seed, cnt as u64, 1_000_000) < 700_000 {
            let extended = PlacedNote {
                pitch: acc.last().pitch,
                velocity: acc.last().velocity,
                span: TimeSpan { start: acc.last().span.start, end: n.span.end },
            };
            let merged = acc.update(acc.len() - 1, extended);
            assert(acc.last() == acc[acc.len() - 1]);
            assert(window.start <= extended.span.start < extended.span.end
                <= window.end);
            assert forall|k: int| 0 <= k < merged.len() implies {
                let m = #[trigger] merged[k];
                &&& low <= m.pitch <= high
                &&& key.spec_contains(note_pitch_class(m.pitch))
                &&& window.start <= m.span.start < m.span.end <= window.end
            } by {
                if k < merged.len() - 1 {
                    assert(merged[k] == acc[k]);
                }
            }
        }
    }
}

/// Merges adjacent equal contiguous notes, each opportunity surviving the
/// seven-tenths merge draw.  The result and the consumed draws are pinned
/// exactly by [`spec_merged`].
fn merge_adjacent(notes: Vec<PlacedNote>, rng: &mut RandomSource) -> (r: Vec<PlacedNote>)
    requires
        notes@.len() <= 0xF000_0001,
        old(rng).count() <= 0x2000_0000_0000_0000,
    ensures
        final(rng).seed() == old(rng).seed(),
        (r@, final(rng).count() as int) == spec_merged(notes@, old(rng).seed(),
            old(rng).count() as int, notes@.len() as int),
{
    let ghost seed = rng.seed();
    let ghost c0 = rng.count() as int;
    let mut out: Vec<PlacedNote> = Vec::new();
    let mut i: usize = 0;
    while i < notes.len()
        invariant
            i <= notes@.len() <= 0xF000_0001,
            rng.seed() == seed,
            seed == old(rng).seed(),
            c0 == old(rng).count(),
            c0 <= 0x2000_0000_0000_0000,
            rng.count() <= c0 + i,
            (out@, rng.count() as int) == spec_merged(notes@, seed, c0, i as int),
        decreases notes@.len() - i,
    {
        let n = notes[i];
        let ghost pre_out = out@;
        if out.len() > 0 {
            let last = out[out.len() - 1];
            if last.pitch == n.pitch && last.span.end == n.span.start {
                let merge = rng.next_event_ppm(700_000);
                if merge {
                    let extended = PlacedNote {
                        pitch: last.pitch,
                        velocity: last.velocity,
                        span: TimeSpan { start: last.span.start, end: n.span.end },
                    };
                    let li = out.len() - 1;
                    out.set(li, extended);
                    proof {
                        assert(out@ =~= pre_out.update(pre_out.len() - 1, extended));
                    }
                } else {
                    out.push(n);
                }
            } else {
                out.push(n);
            }
        } else {
            out.push(n);
        }
        i = i + 1;
    }
    out
}

/// The melody line element: renders the notes of one activation window.
pub struct MelodyLine;

impl MelodyLine {
    /// Subdivides the window by the melodic duration menu at a freshly
    /// drawn sub-seed, builds one slot per subdivision — consulting the
    /// chord markers for the current, previous and next chord and carrying
    /// the previous note — and samples each slot with the melodic weight
    /// model; slots whose candidate weights all vanish, or that no marker
    /// covers, yield no note; finally adjacent equal contiguous notes merge
    /// with seven-tenths probability per boundary.  The note list is pinned
    /// down exactly by [`spec_merged`] over [`spec_line`] over the drawn
    /// pattern, so two invocations with the same window, markers, context
    /// and stream position return the same notes; every placed note lies in
    /// the octave band, in the key's scale and inside the window.
    #[verifier::rlimit(100)]
    #[verifier::spinoff_prover]
    pub fn generate(
        window: &TimeSpan,
        markers: &Vec<(Chord, TimeSpan)>,
        ctx: &MelodicContext,
        rng: &mut RandomSource,
    ) -> (r: Vec<PlacedNote>)
        requires
            window.wf(),
            window.start < window.end,
            window.end <= 0xF000_0000,
            window.spec_len() <= 8 * 13 * 0x10000,
            ctx.wf(),
            2 <= ctx.half_beat <= 0x8000,
            window.spec_len() % (ctx.half_beat as int) == 0,
            window.spec_len() >= 4 * ctx.half_beat,
            forall|i: int| 0 <= i < markers@.len() ==> {
                let (c, sp) = #[trigger] markers@[i];
                c.wf() && sp.wf()
            },
            old(rng).count() <= 0x1000_0000_0000_0000,
        ensures
            final(rng).seed() == old(rng).seed(),
            final(rng).count() <= old(rng).count() + 1 + 4 * 0xF000_0001,
            ({
                let raw = crate::rhythm::menu_spans(window.spec_len() as u32,
                    spec_melody_menu(ctx.half_beat),
                    crate::rng::draw_at(old(rng).seed(), old(rng).count()));
                let line = spec_line(raw, *window, markers@, ctx.key, ctx.half_beat,
                    ctx.sustained@, ctx.colliding@, ctx.low, ctx.high, ctx.primary,
                    old(rng).seed(), old(rng).count() + 1, raw.len() as int);
                r@ == spec_merged(line.notes, old(rng).seed(), line.count,
                    line.notes.len() as int).0
            }),
            forall|i: int| 0 <= i < r@.len() ==> {
                let n = #[trigger] r@[i];
                &&& ctx.low <= n.pitch <= ctx.high
                &&& ctx.key.spec_contains(note_pitch_class(n.pitch))
                &&& window.start <= n.span.start < n.span.end <= window.end
            },
    {
        let ghost seed = rng.seed();
        let ghost c0 = rng.count() as int;
        let rhythm_seed = rng.next_raw();
        let length = window.end - window.start;
        let pattern = melodic_pattern(length, ctx.half_beat, rhythm_seed);
        let ghost raw = crate::rhythm::menu_spans(length, spec_melody_menu(ctx.half_beat),
            rhythm_seed);
        let mut notes: Vec<PlacedNote> = Vec::new();
        let mut prev_note: Option<u8> = Option::None;
        let mut prev_chord: Option<Chord> = Option::None;
        let mut i: usize = 0;
        while i < pattern.len()
            invariant
                i <= pattern@.len(),
                pattern@.len() <= 0xF000_0001,
                pattern@.len() == raw.len(),
                raw == crate::rhythm::menu_spans(length, spec_melody_menu(ctx.half_beat),
                    rhythm_seed),
                rhythm_seed == crate::rng::draw_at(seed, c0 as u64),
                length == window.spec_len() as u32,
                window.wf(),
                window.start < window.end,
                window.end <= 0xF000_0000,
                ctx.wf(),
                forall|k: int| 0 <= k < pattern@.len() ==> #[trigger] pattern@[k]
                    == (TimeSpan { start: raw[k].0, end: raw[k].1 }),
                forall|k: int| 0 <= k < pattern@.len() ==> {
                    let sp = #[trigger] pattern@[k];
                    sp.start < sp.end && sp.end <= window.spec_len()
                },
                forall|k: int| 0 <= k < markers@.len() ==> {
                    let (c, sp) = #[trigger] markers@[k];
                    c.wf() && sp.wf()
                },
                seed == old(rng).seed(),
                c0 == old(rng).count(),
                rng.seed() == seed,
                rng.count() <= c0 + 1 + 3 * i,
                c0 <= 0x1000_0000_0000_0000,
                prev_chord is Some ==> prev_chord->0.wf(),
                notes@.len() <= i,
                ({
                    let st = spec_line(raw, *window, markers@, ctx.key, ctx.half_beat,
                        ctx.sustained@, ctx.colliding@, ctx.low, ctx.high, ctx.primary,
                        seed, c0 + 1, i as int);
                    notes@ == st.notes && prev_note == st.prev_note
                        && prev_chord == st.prev_chord && rng.count() == st.count
                }),
                forall|k: int| 0 <= k < notes@.len() ==> {
                    let nn = #[trigger] notes@[k];
                    &&& ctx.low <= nn.pitch <= ctx.high
                    &&& ctx.key.spec_contains(note_pitch_class(nn.pitch))
                    &&& window.start <= nn.span.start < nn.span.end <= window.end
                },
            decreases pattern@.len() - i,
        {
            let raw_span = pattern[i];
            let slot_span = TimeSpan {
                start: window.start + raw_span.start,
                end: window.start + raw_span.end,
            };
            let current = crate::parts::marker_at(markers, slot_span.start);
            proof {
                crate::parts::lemma_marker_at_wf(markers@, slot_span.start);
                lemma_marker_after_wf(markers@, slot_span.start);
            }
            match current {
                Option::Some(chord) => {
                    let next = marker_after(markers, slot_span.start);
                    let (next_chord, next_chord_start) = match next {
                        Option::Some((c, t)) => (Option::Some(c), t),
                        Option::None => (Option::None, slot_span.start),
                    };
                    let slot = MelodicSlot {
                        span: slot_span,
                        phrase: *window,
                        prev_note,
                        current_chord: chord,
                        prev_chord: match &prev_chord {
                            Option::Some(p) => if *p == chord {
                                Option::None
                            } else {
                                Option::Some(*p)
                            },
                            Option::None => Option::None,
                        },
                        next_chord,
                        next_chord_start,
                    };
                    match sample_note(&slot, ctx, rng) {
                        Result::Ok(note) => {
                            notes.push(note);
                            prev_note = Option::Some(note.pitch);
                        },
                        Result::Err(_) => {},
                    }
                    prev_chord = Option::Some(chord);
                },
                Option::None => {},
            }
            i = i + 1;
        }
        proof {
            let line = spec_line(raw, *window, markers@, ctx.key, ctx.half_beat,
                ctx.sustained@, ctx.colliding@, ctx.low, ctx.high, ctx.primary,
                seed, c0 + 1, raw.len() as int);
            assert(notes@ == line.notes && rng.count() as int == line.count);
            assert(rng.count() <= c0 + 1 + 3 * 0xF000_0001);
            lemma_merged_bounds(line.notes, seed, line.count,
                line.notes.len() as int, ctx.key, ctx.low, ctx.high, *window);
            lemma_merged_count(line.notes, seed, line.count, line.notes.len() as int);
        }
        merge_adjacent(notes, rng)
    }
}

} // verus!
