//! The percussion pattern model.
//!
//! Phrase dividers are grouped by duration; every duration owns one body
//! pattern, derived from a sub-seed that depends on the duration alone, so
//! dividers of equal length play the same cycled pattern.  A pattern is a
//! run of quarter-beat steps that rest with a probability that rises with
//! the remaining length (shaped by a square curve) and otherwise strike a
//! hit drawn from a fixed categorical distribution.  The first step of every
//! divider is forced to a deterministic downbeat hit keyed by the divider's
//! position, so the downbeat is reproducible even though the body pattern is
//! shared.

use vstd::prelude::*;
use crate::rng::{RandomSource, derived_seed, scaled_draw, spec_pick, sum_of,
    lemma_sum_nonneg};
use crate::timing::TimeSpan;
use crate::progression::lemma_sum_bounded;

verus! {

/// The hit palette, weighted one-one-eight-four.
#[derive(Clone, Copy, Debug, PartialEq, Eq, Structural)]
pub enum DrumHitKind {
    BassDrum,
    Snare,
    ClosedHiHat,
    PedalHiHat,
}

/// The categorical weights of the hit palette.
pub open spec fn spec_hit_weights() -> Seq<u64> {
    seq![1u64, 1u64, 8u64, 4u64]
}

/// The palette entry at an index.
pub open spec fn spec_hit_kind(i: int) -> DrumHitKind {
    seq![DrumHitKind::BassDrum, DrumHitKind::Snare, DrumHitKind::ClosedHiHat,
        DrumHitKind::PedalHiHat][i]
}

/// The rest probability of step `i` out of `n`, in parts per million: the
/// base rest level scaled by the square of the remaining fraction.
pub open spec fn spec_rest_prob(base: int, i: int, n: int) -> int {
    let f = (n - i) * 1_000_000 / n;
    (base * f / 1_000_000) * f / 1_000_000
}

/// What the body pattern says at step `i`: `None` rests, `Some` strikes.
/// Each step consumes two draws of the pattern's stream — the rest event at
/// position `1 + 2 i` and the hit pick at position `2 + 2 i`; position `0`
/// draws the base rest level.
pub open spec fn spec_pattern_step(pseed: u64, base: int, i: int, n: int)
    -> Option<DrumHitKind> {
    if scaled_draw(pseed, (1 + 2 * i) as u64, 1_000_000) < spec_rest_prob(base, i, n) {
        Option::None
    } else {
        Option::Some(spec_hit_kind(spec_pick(spec_hit_weights(), pseed, (2 + 2 * i) as u64)))
    }
}

/// The base rest level of a pattern stream: uniform over `0.3..0.9`.
pub open spec fn spec_rest_base(pseed: u64) -> int {
    300_000 + scaled_draw(pseed, 0, 600_000)
}

/// The whole body pattern of a duration: one step per whole quarter beat.
pub open spec fn spec_pattern(pseed: u64, n: int) -> Seq<Option<DrumHitKind>> {
    Seq::new(n as nat, |i: int| spec_pattern_step(pseed, spec_rest_base(pseed), i, n))
}

/// Generates the body pattern for `n` quarter-beat steps.
pub fn generate_pattern(pseed: u64, n: u32) -> (r: Vec<Option<DrumHitKind>>)
    requires
        1 <= n <= 0x10000,
    ensures
        r@ == spec_pattern(pseed, n as int),
        r@.len() == n,
{
    let mut src = RandomSource::from_seed(pseed);
    let base = 300_000 + src.next_below(600_000);
    let mut steps: Vec<Option<DrumHitKind>> = Vec::new();
    let mut i: u32 = 0;
    while i < n
        invariant
            i <= n <= 0x10000,
            src.seed() == pseed,
            src.count() == 1 + 2 * i,
            base == spec_rest_base(pseed),
            300_000 <= base < 900_000,
            steps@.len() == i,
            forall|j: int| 0 <= j < i ==> #[trigger] steps@[j]
                == spec_pattern_step(pseed, spec_rest_base(pseed), j, n as int),
        decreases n - i,
    {
        let nf: u64 = n as u64;
        let rem: u64 = (n - i) as u64;
        proof {
            assert(rem * 1_000_000 <= 0x10000u64 * 1_000_000) by (nonlinear_arith)
                requires rem <= 0x10000;
            assert(rem * 1_000_000 / (nf as int) <= 1_000_000) by (nonlinear_arith)
                requires 0 < nf && rem <= nf;
            assert(rem * 1_000_000 / (nf as int) >= 0);
        }
        let f: u64 = rem * 1_000_000 / nf;
        proof {
            assert(base * f <= 900_000u64 * 1_000_000) by (nonlinear_arith)
                requires base < 900_000 && f <= 1_000_000;
            assert(base * f / 1_000_000int <= 900_000) by (nonlinear_arith)
                requires 0 <= base * f <= 900_000u64 * 1_000_000;
        }
        let scaled_once: u64 = base * f / 1_000_000;
        proof {
            assert(scaled_once * f <= 900_000u64 * 1_000_000) by (nonlinear_arith)
                requires scaled_once <= 900_000 && f <= 1_000_000;
        }
        let p: u64 = scaled_once * f / 1_000_000;
        let is_rest = src.next_event_ppm(p);
        let step: Option<DrumHitKind> = if is_rest {
            let _ = src.next_raw();
            Option::None
        } else {
            let mut palette_weights: Vec<u64> = Vec::new();
            palette_weights.push(1);
            palette_weights.push(1);
            palette_weights.push(8);
            palette_weights.push(4);
            proof {
                assert(palette_weights@ =~= spec_hit_weights());
                lemma_sum_bounded(palette_weights@, 8);
                lemma_sum_nonneg(palette_weights@);
            }
            let picked = src.pick_weighted(&palette_weights);
            match picked {
                Option::Some(pi) => {
                    let kinds: [DrumHitKind; 4] = [DrumHitKind::BassDrum, DrumHitKind::Snare,
                        DrumHitKind::ClosedHiHat, DrumHitKind::PedalHiHat];
                    Option::Some(kinds[pi])
                },
                Option::None => {
                    proof {
                        assert(sum_of(spec_hit_weights()) == 14) by {
                            assert(spec_hit_weights().drop_first()
                                =~= seq![1u64, 8u64, 4u64]);
                            assert(seq![1u64, 8u64, 4u64].drop_first()
                                =~= seq![8u64, 4u64]);
                            assert(seq![8u64, 4u64].drop_first() =~= seq![4u64]);
                            assert(seq![4u64].drop_first() =~= Seq::<u64>::empty());
                            assert(sum_of(Seq::<u64>::empty()) == 0);
                            assert(sum_of(seq![4u64]) == 4);
                            assert(sum_of(seq![8u64, 4u64]) == 12);
                            assert(sum_of(seq![1u64, 8u64, 4u64]) == 13);
                        }
                        assert(false);
                    }
                    Option::None
                },
            }
        };
        steps.push(step);
        i = i + 1;
    }
    proof {
        assert(steps@ =~= spec_pattern(pseed, n as int));
    }
    steps
}

/// The forced downbeat hit of a divider: the bass drum on bar-aligned
/// dividers, otherwise a deterministic pick between snare and bass drum
/// keyed by the divider's index.
pub open spec fn spec_forced_hit(fseed: u64, idx: int, aligned: bool) -> DrumHitKind {
    if aligned {
        DrumHitKind::BassDrum
    } else if scaled_draw(derived_seed(fseed, idx as u64), 0, 2) == 0 {
        DrumHitKind::Snare
    } else {
        DrumHitKind::BassDrum
    }
}

/// Computes the forced downbeat hit.
pub fn forced_hit(fseed: u64, idx: u64, aligned: bool) -> (r: DrumHitKind)
    ensures
        r == spec_forced_hit(fseed, idx as int, aligned),
{
    if aligned {
        DrumHitKind::BassDrum
    } else {
        let mut src = RandomSource::from_seed(crate::rng::derive_seed(fseed, idx));
        let pickv = src.next_below(2);
        if pickv == 0 {
            DrumHitKind::Snare
        } else {
            DrumHitKind::BassDrum
        }
    }
}

/// One placed percussion hit.
#[derive(Clone, Copy, Debug, PartialEq, Eq, Structural)]
pub struct DrumHit {
    /// What is struck.
    pub kind: DrumHitKind,
    /// Key velocity.
    pub velocity: u8,
    /// The quarter-beat step the hit occupies.
    pub span: TimeSpan,
}

/// The hits of one divider: step zero always strikes the forced downbeat
/// hit; later steps follow the shared body pattern of the divider's
/// duration.  Velocities are keyed by the divider's stream and the step.
pub open spec fn spec_divider_hits(
    div: TimeSpan,
    idx: int,
    q: u32,
    bar_aligned: bool,
    pattern: Seq<Option<DrumHitKind>>,
    fseed: u64,
    upto: int,
) -> Seq<DrumHit>
    decreases upto,
{
    if upto <= 0 {
        Seq::empty()
    } else {
        let s = spec_divider_hits(div, idx, q, bar_aligned, pattern, fseed, upto - 1);
        let i = upto - 1;
        let span = TimeSpan {
            start: (div.start + i * q) as u32,
            end: (div.start + i * q + q) as u32,
        };
        let vel = (90 + scaled_draw(derived_seed(fseed, idx as u64), (1 + i) as u64,
            20)) as u8;
        if i == 0 {
            s.push(DrumHit { kind: spec_forced_hit(fseed, idx, bar_aligned), velocity: vel,
                span })
        } else {
            match pattern[i] {
                Option::Some(kind) => s.push(DrumHit { kind, velocity: vel, span }),
                Option::None => s,
            }
        }
    }
}

/// The pattern stream seed of a duration: derived from the percussion
/// seed's pattern namespace and the duration alone, so equal durations
/// share one body pattern.
pub open spec fn spec_pattern_seed(seed: u64, duration: u32) -> u64 {
    derived_seed(derived_seed(seed, 0), duration as u64)
}

/// The shared body pattern of a duration, one step per whole quarter beat.
pub open spec fn spec_pattern_for(seed: u64, duration: u32, q: u32) -> Seq<Option<DrumHitKind>> {
    spec_pattern(spec_pattern_seed(seed, duration), duration as int / q as int)
}

/// Percussion reproducibility, first half: two phrase dividers of equal
/// duration play the same cycled body pattern, whatever their position.
pub proof fn lemma_same_duration_same_pattern(seed: u64, d1: TimeSpan, d2: TimeSpan, q: u32)
    requires
        d1.spec_len() == d2.spec_len(),
        d1.wf(),
        d2.wf(),
    ensures
        spec_pattern_for(seed, (d1.end - d1.start) as u32, q)
            == spec_pattern_for(seed, (d2.end - d2.start) as u32, q),
{
}

/// Percussion reproducibility, second half: whatever the shared body
/// pattern says, the first step of every divider strikes the forced
/// downbeat hit, which depends only on the seed, the divider's index and
/// its bar alignment.
pub proof fn lemma_forced_downbeat(
    div: TimeSpan,
    idx: int,
    q: u32,
    aligned: bool,
    pattern: Seq<Option<DrumHitKind>>,
    fseed: u64,
    upto: int,
)
    requires
        upto >= 1,
    ensures
        spec_divider_hits(div, idx, q, aligned, pattern, fseed, upto).len() >= 1,
        spec_divider_hits(div, idx, q, aligned, pattern, fseed, upto)[0].kind
            == spec_forced_hit(fseed, idx, aligned),
    decreases upto,
{
    if upto > 1 {
        lemma_forced_downbeat(div, idx, q, aligned, pattern, fseed, upto - 1);
    } else {
        assert(spec_divider_hits(div, idx, q, aligned, pattern, fseed, 0)
            =~= Seq::<DrumHit>::empty());
    }
}

/// The hits of a run of dividers, in order: each divider contributes its
/// own hits, keyed by its index.
pub open spec fn spec_part_hits(
    dividers: Seq<TimeSpan>,
    part_start: u32,
    bar: u32,
    q: u32,
    seed: u64,
    upto: int,
) -> Seq<DrumHit>
    decreases upto,
{
    if upto <= 0 {
        Seq::empty()
    } else {
        let div = dividers[upto - 1];
        let duration = (div.end - div.start) as u32;
        let n = duration as int / q as int;
        let aligned = (div.start - part_start) % (bar as int) == 0;
        spec_part_hits(dividers, part_start, bar, q, seed, upto - 1)
            + spec_divider_hits(div, upto - 1, q, aligned,
                spec_pattern_for(seed, duration, q), derived_seed(seed, 1), n)
    }
}

/// The percussion part element: renders hits for all phrase dividers.
pub struct DrumPart;

impl DrumPart {
    /// Places the hits of every divider: the shared body pattern of the
    /// divider's duration, cycled at quarter-beat steps, with the forced
    /// downbeat at each divider's first step.  The result is pinned down
    /// exactly by [`spec_part_hits`]: reproducible from the seed alone.
    pub fn place_hits(
        dividers: &Vec<TimeSpan>,
        part_start: u32,
        bar: u32,
        q: u32,
        seed: u64,
    ) -> (r: Vec<DrumHit>)
        requires
            q >= 1,
            bar >= 1,
            forall|i: int| 0 <= i < dividers@.len() ==> {
                let d = #[trigger] dividers@[i];
                d.wf() && part_start <= d.start && d.end <= 0xF000_0000
                    && d.spec_len() <= (q as int) * 0x10000
            },
        ensures
            r@ == spec_part_hits(dividers@, part_start, bar, q, seed,
                dividers@.len() as int),
    {
        let pattern_base = crate::rng::derive_seed(seed, 0);
        let forced_base = crate::rng::derive_seed(seed, 1);
        let mut out: Vec<DrumHit> = Vec::new();
        let mut idx: usize = 0;
        while idx < dividers.len()
            invariant
                idx <= dividers@.len(),
                q >= 1,
                bar >= 1,
                pattern_base == derived_seed(seed, 0),
                forced_base == derived_seed(seed, 1),
                forall|i: int| 0 <= i < dividers@.len() ==> {
                    let d = #[trigger] dividers@[i];
                    d.wf() && part_start <= d.start && d.end <= 0xF000_0000
                        && d.spec_len() <= (q as int) * 0x10000
                },
                out@ == spec_part_hits(dividers@, part_start, bar, q, seed, idx as int),
            decreases dividers@.len() - idx,
        {
            let div = dividers[idx];
            let duration: u32 = div.end - div.start;
            let n: u32 = duration / q;
            proof {
                assert(duration / q <= 0x10000) by (nonlinear_arith)
                    requires q >= 1 && duration <= q * 0x10000;
            }
            let aligned = (div.start - part_start) % bar == 0;
            let ghost dh = spec_divider_hits(div, idx as int, q, aligned,
                spec_pattern_for(seed, duration, q), forced_base, n as int);
            if n == 0 {
                proof {
                    assert(dh =~= Seq::<DrumHit>::empty());
                    assert(out@ + dh =~= out@);
                }
            } else {
                let pseed = crate::rng::derive_seed(pattern_base, duration as u64);
                let pattern = generate_pattern(pseed, n);
                let forced = forced_hit(forced_base, idx as u64, aligned);
                let dseed = crate::rng::derive_seed(forced_base, idx as u64);
                let mut vsrc = RandomSource::from_seed(dseed);
                let _ = vsrc.next_raw();
                let ghost pre = out@;
                let mut i: u32 = 0;
                while i < n
                    invariant
                        i <= n,
                        q >= 1,
                        1 <= n <= 0x10000,
                        div.wf(),
                        div.end <= 0xF000_0000,
                        duration == div.end - div.start,
                        n == duration / q,
                        vsrc.seed() == dseed,
                        dseed == derived_seed(forced_base, idx as u64),
                        vsrc.count() == 1 + i,
                        pattern@ == spec_pattern_for(seed, duration, q),
                        pattern@.len() == n,
                        forced == spec_forced_hit(forced_base, idx as int, aligned),
                        out@ == pre + spec_divider_hits(div, idx as int, q, aligned,
                            pattern@, forced_base, i as int),
                    decreases n - i,
                {
                    proof {
                        assert((i + 1) * q <= n * q) by (nonlinear_arith)
                            requires i + 1 <= n && q >= 1;
                        assert(n * q <= duration) by (nonlinear_arith)
                            requires n == duration / q && q >= 1;
                        assert(i * q + q == (i + 1) * q) by (nonlinear_arith);
                        assert(i * q >= 0) by (nonlinear_arith)
                            requires i >= 0 && q >= 1;
                    }
                    let lo: u32 = div.start + i * q;
                    let hi: u32 = lo + q;
                    let span = TimeSpan { start: lo, end: hi };
                    let vel: u8 = 90 + (vsrc.next_below(20) as u8);
                    if i == 0 {
                        out.push(DrumHit { kind: forced, velocity: vel, span });
                    } else {
                        match pattern[i as usize] {
                            Option::Some(kind) => {
                                out.push(DrumHit { kind, velocity: vel, span });
                            },
                            Option::None => {},
                        }
                    }
                    proof {
                        assert(out@ =~= pre + spec_divider_hits(div, idx as int, q, aligned,
                            pattern@, forced_base, i as int + 1));
                    }
                    i = i + 1;
                }
            }
            idx = idx + 1;
        }
        out
    }
}

} // verus!
