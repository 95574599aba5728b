//! The chord transition model.
//!
//! A progression is grown by a weighted random walk over the key's triads:
//! at each step the candidates are weighted against the latest chord, the
//! weakest are cut at a random percentile (the *echelon*), and one of the
//! survivors is picked by weight.  Once the progression is long enough, each
//! growth step records how well the newest chord resolves back to the first
//! (its *cyclability*); a loop point is then picked by squared-cyclability
//! weight and the progression is truncated there, which makes the loop
//! transition strictly positive.  A balanced rhythm binds the retained
//! chords to time.

use vstd::prelude::*;
use crate::error::RenderError;
use crate::harmony::{WEIGHT_UNIT, spec_transition_weight, transition_weight};
use crate::rng::{RandomSource, draw_at, scaled_draw, spec_pick, sum_of, lemma_sum_nonneg};
use crate::rhythm::{balanced_spans, balanced_spans_in};
use crate::theory::{Chord, Key, spec_triads, triads_in_key};
use crate::structure::{cycle_spans, spec_shifted_span};
use crate::timing::{TimeSignature, TimeSpan, spec_partitions};

verus! {

/// The shortest progression the model returns.
pub const MIN_CHORDS: usize = 2;

/// The longest progression the model returns.
pub const MAX_CHORDS: usize = 6;

/// How many candidates outweigh `v`.
pub open spec fn spec_count_gt(s: Seq<u64>, v: u64) -> int
    decreases s.len(),
{
    if s.len() == 0 {
        0
    } else {
        (if s[0] > v { 1int } else { 0int }) + spec_count_gt(s.drop_first(), v)
    }
}

/// Counting over a prefix grows by the last element's contribution.
pub proof fn lemma_count_gt_take_step(s: Seq<u64>, v: u64, i: int)
    requires
        0 < i <= s.len(),
    ensures
        spec_count_gt(s.take(i), v) == spec_count_gt(s.take(i - 1), v)
            + (if s[i - 1] > v { 1int } else { 0int }),
    decreases i,
{
    if i == 1 {
        assert(s.take(1).drop_first() =~= Seq::<u64>::empty());
        assert(s.take(0) =~= Seq::<u64>::empty());
    } else {
        assert(s.take(i).drop_first() =~= s.drop_first().take(i - 1));
        assert(s.take(i - 1).drop_first() =~= s.drop_first().take(i - 2));
        lemma_count_gt_take_step(s.drop_first(), v, i - 1);
    }
}

/// Counts how many weights exceed `v`.
pub fn count_greater(ws: &Vec<u64>, v: u64) -> (r: usize)
    ensures
        r == spec_count_gt(ws@, v),
        r <= ws@.len(),
{
    let mut n: usize = 0;
    let mut i: usize = 0;
    proof {
        assert(ws@.take(0) =~= Seq::<u64>::empty());
    }
    while i < ws.len()
        invariant
            i <= ws@.len(),
            n == spec_count_gt(ws@.take(i as int), v),
            n <= i,
        decreases ws@.len() - i,
    {
        proof {
            lemma_count_gt_take_step(ws@, v, i as int + 1);
        }
        if ws[i] > v {
            n = n + 1;
        }
        i = i + 1;
    }
    proof {
        assert(ws@.take(ws@.len() as int) =~= ws@);
    }
    n
}

/// The weights that survive the echelon cut at index `k`: a candidate is
/// admitted when fewer than `len - k` candidates outweigh it, that is, when
/// its weight reaches the `k`-th smallest weight.  Cut candidates keep a
/// zero weight, which the weighted pick never selects.
pub open spec fn spec_admissible(s: Seq<u64>, k: int) -> Seq<u64> {
    Seq::new(s.len(), |i: int| if spec_count_gt(s, s[i]) < s.len() - k { s[i] } else { 0u64 })
}

/// Applies the echelon cut to a weight list.
pub fn admissible_mask(ws: &Vec<u64>, k: usize) -> (r: Vec<u64>)
    requires
        ws@.len() <= 0x1000,
        k <= ws@.len(),
    ensures
        r@ == spec_admissible(ws@, k as int),
        r@.len() == ws@.len(),
        forall|i: int| 0 <= i < r@.len() ==> #[trigger] r@[i] <= ws@[i],
{
    let mut v: Vec<u64> = Vec::new();
    let mut i: usize = 0;
    while i < ws.len()
        invariant
            i <= ws@.len() <= 0x1000,
            k <= ws@.len(),
            v@.len() == i,
            forall|j: int| 0 <= j < i ==> #[trigger] v@[j] == spec_admissible(ws@, k as int)[j],
            forall|j: int| 0 <= j < i ==> #[trigger] v@[j] <= ws@[j],
        decreases ws@.len() - i,
    {
        let c = count_greater(ws, ws[i]);
        if c + k < ws.len() {
            let w = ws[i];
            v.push(w);
        } else {
            v.push(0);
        }
        i = i + 1;
    }
    proof {
        assert(v@ =~= spec_admissible(ws@, k as int));
    }
    v
}

/// A sum of weights bounded elementwise is bounded by count times bound.
pub proof fn lemma_sum_bounded(s: Seq<u64>, b: u64)
    requires
        forall|i: int| 0 <= i < s.len() ==> #[trigger] s[i] <= b,
    ensures
        sum_of(s) <= s.len() * b,
    decreases s.len(),
{
    if s.len() > 0 {
        assert(forall|i: int| 0 <= i < s.drop_first().len()
            ==> #[trigger] s.drop_first()[i] <= b);
        lemma_sum_bounded(s.drop_first(), b);
        assert(s.len() * b == (s.len() - 1) * b + b) by (nonlinear_arith);
    }
}

/// The transition weight used while growing: against the latest chord when
/// one exists, and against the candidate itself for the very first pick.
pub open spec fn spec_growth_weight(key: Key, chosen: Seq<Chord>, c: Chord) -> u64 {
    if chosen.len() == 0 {
        spec_transition_weight(key, Option::Some(c), c) as u64
    } else {
        spec_transition_weight(key, Option::Some(chosen.last()), c) as u64
    }
}

/// The weight list of all candidates against the current growth state.
pub open spec fn spec_growth_weights(key: Key, cands: Seq<Chord>, chosen: Seq<Chord>)
    -> Seq<u64> {
    Seq::new(cands.len(), |i: int| spec_growth_weight(key, chosen, cands[i]))
}

/// One growth state: the chords picked so far and the recorded cyclability
/// of each prefix long enough to loop.
pub struct GrowthState {
    /// Chords picked so far, in order.
    pub chosen: Seq<Chord>,
    /// `cyc[j]` is the transition weight from chord `j + 1` back to chord 0:
    /// the cyclability of the prefix of length `j + 2`.
    pub cyc: Seq<u64>,
}

/// Grows the progression for `left` more steps, consuming one draw per
/// step.  Returns the final state, or `None` when every admissible weight
/// is zero at some step.
#[verifier::opaque]
pub open spec fn spec_grow(
    key: Key,
    cands: Seq<Chord>,
    k: int,
    st: GrowthState,
    seed: u64,
    count: int,
    left: nat,
) -> Option<GrowthState>
    decreases left,
{
    if left == 0 {
        Option::Some(st)
    } else {
        let masked = spec_admissible(spec_growth_weights(key, cands, st.chosen), k);
        if sum_of(masked) == 0 {
            Option::None
        } else {
            let i = spec_pick(masked, seed, count as u64);
            let c = cands[i];
            let chosen2 = st.chosen.push(c);
            let cyc2 = if chosen2.len() >= MIN_CHORDS {
                st.cyc.push(spec_transition_weight(key, Option::Some(c), st.chosen[0]) as u64)
            } else {
                st.cyc
            };
            spec_grow(key, cands, k, GrowthState { chosen: chosen2, cyc: cyc2 }, seed,
                count + 1, (left - 1) as nat)
        }
    }
}

/// Unfolding fact: a failing pick ends the growth.
pub proof fn lemma_grow_fail(
    key: Key,
    cands: Seq<Chord>,
    k: int,
    st: GrowthState,
    seed: u64,
    count: int,
    left: nat,
)
    requires
        left > 0,
        sum_of(spec_admissible(spec_growth_weights(key, cands, st.chosen), k)) == 0,
    ensures
        spec_grow(key, cands, k, st, seed, count, left) is None,
{
    reveal(spec_grow);
}

/// Unfolding fact: a successful pick appends the picked chord, records its
/// cyclability once the progression can loop, and recurses.
pub proof fn lemma_grow_step(
    key: Key,
    cands: Seq<Chord>,
    k: int,
    st: GrowthState,
    seed: u64,
    count: int,
    left: nat,
)
    requires
        left > 0,
        sum_of(spec_admissible(spec_growth_weights(key, cands, st.chosen), k)) != 0,
    ensures
        ({
            let masked = spec_admissible(spec_growth_weights(key, cands, st.chosen), k);
            let i = spec_pick(masked, seed, count as u64);
            let c = cands[i];
            let chosen2 = st.chosen.push(c);
            let cyc2 = if chosen2.len() >= MIN_CHORDS {
                st.cyc.push(spec_transition_weight(key, Option::Some(c), st.chosen[0]) as u64)
            } else {
                st.cyc
            };
            spec_grow(key, cands, k, st, seed, count, left)
                == spec_grow(key, cands, k, GrowthState { chosen: chosen2, cyc: cyc2 },
                    seed, count + 1, (left - 1) as nat)
        }),
{
    reveal(spec_grow);
}

/// Unfolding fact: with no steps left, the growth ends in its current
/// state.
pub proof fn lemma_grow_done(
    key: Key,
    cands: Seq<Chord>,
    k: int,
    st: GrowthState,
    seed: u64,
    count: int,
)
    ensures
        spec_grow(key, cands, k, st, seed, count, 0nat) == Option::<GrowthState>::Some(st),
{
    reveal(spec_grow);
}

/// The echelon cut index for a candidate count and an echelon in parts per
/// million.
pub open spec fn spec_cut_index(n: int, echelon: int) -> int {
    n * echelon / (WEIGHT_UNIT as int)
}

/// The squared-cyclability weight list used to pick the loop point.
pub open spec fn spec_cycle_weights(cyc: Seq<u64>) -> Seq<u64> {
    Seq::new(cyc.len(), |i: int| (cyc[i] * cyc[i]) as u64)
}

/// An ordered, cyclic chord progression bound to a time partition.
pub struct ChordProgression {
    /// The chords, in playing order.
    pub chords: Vec<Chord>,
    /// One span per chord, partitioning four bars from tick zero.
    pub rhythm: Vec<TimeSpan>,
}

impl ChordProgression {
    /// Structural invariant: between two and six chords, one rhythm span
    /// per chord, and the spans partition the four-bar frame.
    pub open spec fn wf(self, ts: TimeSignature) -> bool {
        &&& MIN_CHORDS <= self.chords@.len() <= MAX_CHORDS
        &&& self.rhythm@.len() == self.chords@.len()
        &&& spec_partitions(self.rhythm@,
            TimeSpan { start: 0, end: (4 * ts.spec_bar()) as u32 })
    }
}

/// Everything the chord transition model decides, as a pure function of the
/// key, the time signature, and the random stream position: the retained
/// chords and their time partition, or `None` when a weighted pick finds
/// only zero weights.  Consumes nine draws on success.
#[verifier::opaque]
pub open spec fn spec_progression(key: Key, ts: TimeSignature, seed: u64, count: int)
    -> Option<(Seq<Chord>, Seq<TimeSpan>)> {
    let e = 200_000 + scaled_draw(seed, count as u64, 800_000);
    let cands = spec_triads(key);
    let k = spec_cut_index(cands.len() as int, e);
    let st0 = GrowthState { chosen: Seq::empty(), cyc: Seq::empty() };
    match spec_grow(key, cands, k, st0, seed, count + 1, (MAX_CHORDS) as nat) {
        Option::None => Option::None,
        Option::Some(st) => {
            let sq = spec_cycle_weights(st.cyc);
            if sum_of(sq) == 0 {
                Option::None
            } else {
                let idx = spec_pick(sq, seed, (count + 7) as u64);
                let chords = st.chosen.take(MIN_CHORDS + idx);
                let rseed = draw_at(seed, (count + 8) as u64);
                let length = (4 * ts.spec_bar()) as u32;
                let spans = balanced_spans(length, chords.len() as u32, ts.beats_per_bar,
                    ts.beat_length, rseed);
                Option::Some((chords, Seq::new(spans.len(), |i: int| TimeSpan {
                    start: spans[i].0,
                    end: spans[i].1,
                })))
            }
        }
    }
}

/// Computes the weight list of all candidates against the growth state.
fn growth_weights(key: &Key, cands: &Vec<Chord>, chosen: &Vec<Chord>) -> (r: Vec<u64>)
    requires
        key.wf(),
        forall|i: int| 0 <= i < cands@.len() ==> (#[trigger] cands@[i]).wf(),
        forall|i: int| 0 <= i < chosen@.len() ==> (#[trigger] chosen@[i]).wf(),
    ensures
        r@ == spec_growth_weights(*key, cands@, chosen@),
        r@.len() == cands@.len(),
        forall|i: int| 0 <= i < r@.len() ==> #[trigger] r@[i] <= WEIGHT_UNIT,
{
    let cur: Option<Chord> = if chosen.len() == 0 {
        Option::None
    } else {
        Option::Some(chosen[chosen.len() - 1])
    };
    let mut ws: Vec<u64> = Vec::new();
    let mut i: usize = 0;
    while i < cands.len()
        invariant
            i <= cands@.len(),
            key.wf(),
            forall|m: int| 0 <= m < cands@.len() ==> (#[trigger] cands@[m]).wf(),
            cur == (if chosen@.len() == 0 {
                Option::<Chord>::None
            } else {
                Option::<Chord>::Some(chosen@.last())
            }),
            cur is Some ==> cur->0.wf(),
            ws@.len() == i,
            forall|m: int| 0 <= m < i ==> #[trigger] ws@[m]
                == spec_growth_weight(*key, chosen@, cands@[m]),
            forall|m: int| 0 <= m < i ==> #[trigger] ws@[m] <= WEIGHT_UNIT,
        decreases cands@.len() - i,
    {
        let cand = cands[i];
        let w = match &cur {
            Option::Some(c) => transition_weight(key, Option::Some(c), &cand),
            Option::None => transition_weight(key, Option::Some(&cand), &cand),
        };
        proof {
            assert(w == spec_growth_weight(*key, chosen@, cands@[i as int]));
        }
        ws.push(w);
        i = i + 1;
    }
    proof {
        assert(ws@ =~= spec_growth_weights(*key, cands@, chosen@));
    }
    ws
}

/// Squares the cyclability weights.
fn cycle_weights(cyc: &Vec<u64>) -> (r: Vec<u64>)
    requires
        forall|j: int| 0 <= j < cyc@.len() ==> #[trigger] cyc@[j] <= WEIGHT_UNIT,
    ensures
        r@ == spec_cycle_weights(cyc@),
        forall|j: int| 0 <= j < r@.len() ==> #[trigger] r@[j] <= 1_000_000_000_000,
{
    let mut sq: Vec<u64> = Vec::new();
    let mut i: usize = 0;
    while i < cyc.len()
        invariant
            i <= cyc@.len(),
            forall|j: int| 0 <= j < cyc@.len() ==> #[trigger] cyc@[j] <= WEIGHT_UNIT,
            sq@.len() == i,
            forall|j: int| 0 <= j < i ==> #[trigger] sq@[j] == spec_cycle_weights(cyc@)[j],
            forall|j: int| 0 <= j < i ==> #[trigger] sq@[j] <= 1_000_000_000_000,
        decreases cyc@.len() - i,
    {
        let w = cyc[i];
        proof {
            assert(w * w <= 1_000_000_000_000) by (nonlinear_arith)
                requires w <= 1_000_000;
        }
        sq.push(w * w);
        i = i + 1;
    }
    proof {
        assert(sq@ =~= spec_cycle_weights(cyc@));
    }
    sq
}

/// Grows the chord list to [`MAX_CHORDS`] chords, recording cyclability,
/// consuming one draw per step.
#[verifier::rlimit(100)]
fn grow_chords(key: &Key, cands: &Vec<Chord>, k: usize, rng: &mut RandomSource)
    -> (r: Result<(Vec<Chord>, Vec<u64>), RenderError>)
    requires
        key.wf(),
        cands@.len() <= 28,
        k <= cands@.len(),
        forall|i: int| 0 <= i < cands@.len() ==> {
            let c = #[trigger] cands@[i];
            c.spec_in_key(*key) && c.wf()
        },
        old(rng).count() + 8 < u64::MAX,
    ensures
        final(rng).seed() == old(rng).seed(),
        old(rng).count() <= final(rng).count() <= old(rng).count() + MAX_CHORDS,
        match r {
            Result::Ok(grown) => {
                &&& final(rng).count() == old(rng).count() + MAX_CHORDS
                &&& spec_grow(*key, cands@, k as int,
                    GrowthState { chosen: Seq::empty(), cyc: Seq::empty() },
                    old(rng).seed(), old(rng).count() as int, MAX_CHORDS as nat)
                    == Option::Some(GrowthState { chosen: grown.0@, cyc: grown.1@ })
                &&& grown.0@.len() == MAX_CHORDS
                &&& grown.1@.len() == MAX_CHORDS - 1
                &&& forall|i: int| 0 <= i < grown.0@.len() ==> {
                    let c = #[trigger] grown.0@[i];
                    c.spec_in_key(*key) && c.wf()
                }
                &&& forall|j: int| 0 <= j < grown.1@.len() ==> #[trigger] grown.1@[j]
                    == spec_transition_weight(*key, Option::Some(grown.0@[j + 1]),
                        grown.0@[0])
                &&& forall|j: int| 0 <= j < grown.1@.len()
                    ==> #[trigger] grown.1@[j] <= WEIGHT_UNIT
            },
            Result::Err(_) => spec_grow(*key, cands@, k as int,
                GrowthState { chosen: Seq::empty(), cyc: Seq::empty() },
                old(rng).seed(), old(rng).count() as int, MAX_CHORDS as nat) is None,
        },
{
    let ghost seed = rng.seed();
    let ghost c0 = rng.count() as int;
    let ghost st0 = GrowthState { chosen: Seq::empty(), cyc: Seq::empty() };
    let ghost target = spec_grow(*key, cands@, k as int, st0, seed, c0, MAX_CHORDS as nat);
    let mut chosen: Vec<Chord> = Vec::new();
    let mut cyc: Vec<u64> = Vec::new();
    let mut it: usize = 0;
    while it < MAX_CHORDS
        invariant
            0 <= it <= MAX_CHORDS,
            key.wf(),
            c0 + 8 < u64::MAX,
            seed == old(rng).seed(),
            c0 == old(rng).count(),
            rng.seed() == seed,
            rng.count() == c0 + it,
            cands@.len() <= 28,
            k <= cands@.len(),
            target == spec_grow(*key, cands@, k as int, st0, seed, c0, MAX_CHORDS as nat),
            st0 == (GrowthState { chosen: Seq::<Chord>::empty(), cyc: Seq::<u64>::empty() }),
            forall|i: int| 0 <= i < cands@.len() ==> {
                let c = #[trigger] cands@[i];
                c.spec_in_key(*key) && c.wf()
            },
            chosen@.len() == it,
            cyc@.len() == (if it == 0 { 0int } else { it - 1 }),
            forall|i: int| 0 <= i < chosen@.len() ==> {
                let c = #[trigger] chosen@[i];
                c.spec_in_key(*key) && c.wf()
            },
            forall|j: int| 0 <= j < cyc@.len() ==> #[trigger] cyc@[j]
                == spec_transition_weight(*key, Option::Some(chosen@[j + 1]), chosen@[0]),
            forall|j: int| 0 <= j < cyc@.len() ==> #[trigger] cyc@[j] <= WEIGHT_UNIT,
            spec_grow(*key, cands@, k as int, GrowthState { chosen: chosen@, cyc: cyc@ },
                seed, c0 + it, (MAX_CHORDS - it) as nat) == target,
        decreases MAX_CHORDS - it,
    {
        let ghost pre_chosen = chosen@;
        let ghost pre_cyc = cyc@;
        let ghost cnt = c0 + it;
        let ws = growth_weights(key, cands, &chosen);
        let masked = admissible_mask(&ws, k);
        proof {
            lemma_sum_bounded(masked@, 1_000_000);
            lemma_sum_nonneg(masked@);
        }
        let picked = rng.pick_weighted(&masked);
        match picked {
            Option::None => {
                proof {
                    lemma_grow_fail(*key, cands@, k as int,
                        GrowthState { chosen: pre_chosen, cyc: pre_cyc }, seed, cnt,
                        (MAX_CHORDS - it) as nat);
                }
                return Result::Err(RenderError::MissingContext(
                    "No next chords.".to_owned()));
            },
            Option::Some(pi) => {
                let c = cands[pi];
                chosen.push(c);
                if chosen.len() >= MIN_CHORDS {
                    let w = transition_weight(key, Option::Some(&c), &chosen[0]);
                    cyc.push(w);
                }
                proof {
                    let stb = GrowthState { chosen: pre_chosen, cyc: pre_cyc };
                    lemma_grow_step(*key, cands@, k as int, stb, seed, cnt,
                        (MAX_CHORDS - it) as nat);
                    assert(chosen@ == pre_chosen.push(c));
                    assert(cyc@ == if chosen@.len() >= MIN_CHORDS {
                        pre_cyc.push(spec_transition_weight(*key, Option::Some(c),
                            pre_chosen[0]) as u64)
                    } else {
                        pre_cyc
                    });
                }
                it = it + 1;
            },
        }
    }
    proof {
        lemma_grow_done(*key, cands@, k as int,
            GrowthState { chosen: chosen@, cyc: cyc@ }, seed, c0 + MAX_CHORDS);
    }
    Result::Ok((chosen, cyc))
}

/// Unfolding fact: when the growth itself found only zero weights, the
/// model decides nothing.
proof fn lemma_progression_err_grow(key: Key, ts: TimeSignature, seed: u64, count: int)
    requires
        ({
            let e = 200_000 + scaled_draw(seed, count as u64, 800_000);
            let cands = spec_triads(key);
            let k = spec_cut_index(cands.len() as int, e);
            let st0 = GrowthState { chosen: Seq::empty(), cyc: Seq::empty() };
            spec_grow(key, cands, k, st0, seed, count + 1, (MAX_CHORDS) as nat) is None
        }),
    ensures
        spec_progression(key, ts, seed, count) is None,
{
    reveal(spec_progression);
}

/// Unfolding fact: when every recorded cyclability vanished, the model
/// decides nothing.
proof fn lemma_progression_err_cycle(
    key: Key,
    ts: TimeSignature,
    seed: u64,
    count: int,
    st: GrowthState,
)
    requires
        ({
            let e = 200_000 + scaled_draw(seed, count as u64, 800_000);
            let cands = spec_triads(key);
            let k = spec_cut_index(cands.len() as int, e);
            let st0 = GrowthState { chosen: Seq::empty(), cyc: Seq::empty() };
            spec_grow(key, cands, k, st0, seed, count + 1, (MAX_CHORDS) as nat)
                == Option::Some(st)
        }),
        sum_of(spec_cycle_weights(st.cyc)) == 0,
    ensures
        spec_progression(key, ts, seed, count) is None,
{
    reveal(spec_progression);
}

/// Unfolding fact: with a grown state and a positive cycle pick, the model
/// decides exactly the truncated chords and the balanced spans.
proof fn lemma_progression_ok(
    key: Key,
    ts: TimeSignature,
    seed: u64,
    count: int,
    st: GrowthState,
    chords: Seq<Chord>,
    spans: Seq<TimeSpan>,
)
    requires
        ({
            let e = 200_000 + scaled_draw(seed, count as u64, 800_000);
            let cands = spec_triads(key);
            let k = spec_cut_index(cands.len() as int, e);
            let st0 = GrowthState { chosen: Seq::empty(), cyc: Seq::empty() };
            spec_grow(key, cands, k, st0, seed, count + 1, (MAX_CHORDS) as nat)
                == Option::Some(st)
        }),
        sum_of(spec_cycle_weights(st.cyc)) != 0,
        chords == st.chosen.take(
            MIN_CHORDS + spec_pick(spec_cycle_weights(st.cyc), seed, (count + 7) as u64)),
        spans.len() == ({
            let rseed = draw_at(seed, (count + 8) as u64);
            let length = (4 * ts.spec_bar()) as u32;
            balanced_spans(length, chords.len() as u32, ts.beats_per_bar,
                ts.beat_length, rseed).len()
        }),
        forall|i: int| 0 <= i < spans.len() ==> #[trigger] spans[i] == (TimeSpan {
            start: balanced_spans((4 * ts.spec_bar()) as u32, chords.len() as u32,
                ts.beats_per_bar, ts.beat_length, draw_at(seed, (count + 8) as u64))[i].0,
            end: balanced_spans((4 * ts.spec_bar()) as u32, chords.len() as u32,
                ts.beats_per_bar, ts.beat_length, draw_at(seed, (count + 8) as u64))[i].1,
        }),
    ensures
        spec_progression(key, ts, seed, count) == Option::Some((chords, spans)),
{
    reveal(spec_progression);
    let rseed = draw_at(seed, (count + 8) as u64);
    let length = (4 * ts.spec_bar()) as u32;
    let raw = balanced_spans(length, chords.len() as u32, ts.beats_per_bar,
        ts.beat_length, rseed);
    assert(spans =~= Seq::new(raw.len(), |i: int| TimeSpan { start: raw[i].0,
        end: raw[i].1 }));
}

/// The model element that renders a random chord progression for a section.
pub struct RandomChordProgression;

impl RandomChordProgression {
    /// Grows, truncates and times a chord progression for one section.
    ///
    /// On success the progression is pinned down exactly by
    /// [`spec_progression`], so two invocations with the same key, time
    /// signature and stream position return the same progression.  The
    /// result always has between [`MIN_CHORDS`] and [`MAX_CHORDS`] chords,
    /// every chord's pitch classes lie in the key's scale, the rhythm
    /// partitions four bars, and the transition weight from the last chord
    /// back to the first is strictly positive.
    #[verifier::rlimit(100)]
    pub fn generate(key: &Key, ts: &TimeSignature, rng: &mut RandomSource)
        -> (r: Result<ChordProgression, RenderError>)
        requires
            key.wf(),
            ts.wf(),
            old(rng).count() + 16 < u64::MAX,
        ensures
            final(rng).seed() == old(rng).seed(),
            old(rng).count() < final(rng).count() <= old(rng).count() + 9,
            match r {
                Result::Ok(p) => {
                    &&& spec_progression(*key, *ts, old(rng).seed(), old(rng).count() as int)
                        == Option::Some((p.chords@, p.rhythm@))
                    &&& final(rng).count() == old(rng).count() + 9
                    &&& p.wf(*ts)
                    &&& forall|i: int| 0 <= i < p.chords@.len() ==> {
                        let c = #[trigger] p.chords@[i];
                        c.wf() && c.spec_in_key(*key)
                    }
                    &&& spec_transition_weight(*key,
                        Option::Some(p.chords@.last()), p.chords@[0]) > 0
                },
                Result::Err(_) => spec_progression(*key, *ts, old(rng).seed(),
                    old(rng).count() as int) is None,
            },
    {
        let ghost seed = rng.seed();
        let ghost c0 = rng.count() as int;
        let e = 200_000 + rng.next_below(800_000);
        let cands = triads_in_key(key);
        proof {
            crate::theory::lemma_triads_upto_len(*key, 28);
        }
        let n_cands = cands.len();
        proof {
            assert((n_cands as u64) * e <= (n_cands as int) * 1_000_000) by (nonlinear_arith)
                requires e <= 1_000_000 && n_cands >= 0;
        }
        let k_wide: u64 = (n_cands as u64) * e / 1_000_000;
        let k = k_wide as usize;
        proof {
            assert(k_wide <= n_cands) by (nonlinear_arith)
                requires (n_cands as u64) * e <= (n_cands as int) * 1_000_000
                    && k_wide == (n_cands as u64) * e / 1_000_000;
            assert(k == spec_cut_index(cands@.len() as int, e as int));
        }
        let grown = grow_chords(key, &cands, k, rng);
        let (mut chosen, cyc) = match grown {
            Result::Ok(g) => g,
            Result::Err(err) => {
                proof {
                    lemma_progression_err_grow(*key, *ts, seed, c0);
                }
                return Result::Err(err);
            },
        };
        close_progression(key, ts, chosen, cyc, rng, Ghost(seed), Ghost(c0))
    }
}

/// Picks the loop point by squared-cyclability weight: `None` when every
/// cyclability vanished, otherwise an index whose cyclability is positive.
#[verifier::rlimit(100)]
#[verifier::spinoff_prover]
fn pick_cycle_index(cyc: &Vec<u64>, rng: &mut RandomSource) -> (r: Option<usize>)
    requires
        cyc@.len() <= 8,
        forall|j: int| 0 <= j < cyc@.len() ==> #[trigger] cyc@[j] <= WEIGHT_UNIT,
        old(rng).count() < u64::MAX,
    ensures
        final(rng).seed() == old(rng).seed(),
        final(rng).count() == old(rng).count() + 1,
        sum_of(spec_cycle_weights(cyc@)) == 0 <==> r is None,
        r is Some ==> {
            let i = r->0 as int;
            r->0 == spec_pick(spec_cycle_weights(cyc@), old(rng).seed(), old(rng).count())
                && 0 <= i < cyc@.len() && cyc@[i] > 0
        },
{
    let sq = cycle_weights(cyc);
    proof {
        lemma_sum_bounded(sq@, 1_000_000_000_000);
        lemma_sum_nonneg(sq@);
    }
    let picked = rng.pick_weighted(&sq);
    proof {
        if picked is Some {
            let i = picked->0 as int;
            assert(sq@[i] == (cyc@[i] * cyc@[i]) as u64);
            assert(cyc@[i] > 0) by (nonlinear_arith)
                requires cyc@[i] * cyc@[i] > 0;
        }
    }
    picked
}

/// Picks the loop point, truncates the grown chord list there and binds the
/// retained chords to a balanced four-bar rhythm.
#[verifier::rlimit(100)]
#[verifier::spinoff_prover]
fn close_progression(
    key: &Key,
    ts: &TimeSignature,
    grown_chords: Vec<Chord>,
    cyc: Vec<u64>,
    rng: &mut RandomSource,
    Ghost(seed): Ghost<u64>,
    Ghost(c0): Ghost<int>,
) -> (r: Result<ChordProgression, RenderError>)
    requires
        key.wf(),
        ts.wf(),
        c0 >= 0,
        c0 + 16 < u64::MAX,
        old(rng).seed() == seed,
        old(rng).count() == c0 + 7,
        ({
            let e = 200_000 + scaled_draw(seed, c0 as u64, 800_000);
            let cands = spec_triads(*key);
            let k = spec_cut_index(cands.len() as int, e);
            let st0 = GrowthState { chosen: Seq::empty(), cyc: Seq::empty() };
            spec_grow(*key, cands, k, st0, seed, c0 + 1, (MAX_CHORDS) as nat)
                == Option::Some(GrowthState { chosen: grown_chords@, cyc: cyc@ })
        }),
        grown_chords@.len() == MAX_CHORDS,
        cyc@.len() == MAX_CHORDS - 1,
        forall|i: int| 0 <= i < grown_chords@.len() ==> {
            let c = #[trigger] grown_chords@[i];
            c.spec_in_key(*key) && c.wf()
        },
        forall|j: int| 0 <= j < cyc@.len() ==> #[trigger] cyc@[j]
            == spec_transition_weight(*key, Option::Some(grown_chords@[j + 1]),
                grown_chords@[0]),
        forall|j: int| 0 <= j < cyc@.len() ==> #[trigger] cyc@[j] <= WEIGHT_UNIT,
    ensures
        final(rng).seed() == seed,
        c0 + 7 < final(rng).count() <= c0 + 9,
        match r {
            Result::Ok(p) => {
                &&& spec_progression(*key, *ts, seed, c0)
                    == Option::Some((p.chords@, p.rhythm@))
                &&& final(rng).count() == c0 + 9
                &&& p.wf(*ts)
                &&& forall|i: int| 0 <= i < p.chords@.len() ==> {
                    let c = #[trigger] p.chords@[i];
                    c.wf() && c.spec_in_key(*key)
                }
                &&& spec_transition_weight(*key,
                    Option::Some(p.chords@.last()), p.chords@[0]) > 0
            },
            Result::Err(_) => spec_progression(*key, *ts, seed, c0) is None,
        },
{
    let ghost st_grown = GrowthState { chosen: grown_chords@, cyc: cyc@ };
    match pick_cycle_index(&cyc, rng) {
        Option::None => {
            proof {
                lemma_progression_err_cycle(*key, *ts, seed, c0, st_grown);
            }
            Result::Err(RenderError::MissingContext("No cycle choices.".to_owned()))
        },
        Option::Some(idx) => {
            let p = time_progression(key, ts, grown_chords, idx, rng, Ghost(seed),
                Ghost(c0), Ghost(cyc@));
            Result::Ok(p)
        },
    }
}

/// Truncates the grown chord list at the picked loop point and binds the
/// retained chords to a balanced four-bar rhythm.
#[verifier::rlimit(100)]
#[verifier::spinoff_prover]
fn time_progression(
    key: &Key,
    ts: &TimeSignature,
    grown_chords: Vec<Chord>,
    idx: usize,
    rng: &mut RandomSource,
    Ghost(seed): Ghost<u64>,
    Ghost(c0): Ghost<int>,
    Ghost(cyc): Ghost<Seq<u64>>,
) -> (p: ChordProgression)
    requires
        key.wf(),
        ts.wf(),
        c0 >= 0,
        c0 + 16 < u64::MAX,
        old(rng).seed() == seed,
        old(rng).count() == c0 + 8,
        ({
            let e = 200_000 + scaled_draw(seed, c0 as u64, 800_000);
            let cands = spec_triads(*key);
            let k = spec_cut_index(cands.len() as int, e);
            let st0 = GrowthState { chosen: Seq::empty(), cyc: Seq::empty() };
            spec_grow(*key, cands, k, st0, seed, c0 + 1, (MAX_CHORDS) as nat)
                == Option::Some(GrowthState { chosen: grown_chords@, cyc })
        }),
        grown_chords@.len() == MAX_CHORDS,
        cyc.len() == MAX_CHORDS - 1,
        forall|i: int| 0 <= i < grown_chords@.len() ==> {
            let c = #[trigger] grown_chords@[i];
            c.spec_in_key(*key) && c.wf()
        },
        forall|j: int| 0 <= j < cyc.len() ==> #[trigger] cyc[j]
            == spec_transition_weight(*key, Option::Some(grown_chords@[j + 1]),
                grown_chords@[0]),
        sum_of(spec_cycle_weights(cyc)) != 0,
        idx == spec_pick(spec_cycle_weights(cyc), seed, (c0 + 7) as u64),
        0 <= idx < cyc.len(),
        cyc[idx as int] > 0,
    ensures
        final(rng).seed() == seed,
        final(rng).count() == c0 + 9,
        spec_progression(*key, *ts, seed, c0) == Option::Some((p.chords@, p.rhythm@)),
        p.wf(*ts),
        forall|i: int| 0 <= i < p.chords@.len() ==> {
            let c = #[trigger] p.chords@[i];
            c.wf() && c.spec_in_key(*key)
        },
        spec_transition_weight(*key, Option::Some(p.chords@.last()), p.chords@[0]) > 0,
{
    let ghost st_grown = GrowthState { chosen: grown_chords@, cyc };
    let mut chosen = grown_chords;
    let ghost pre_trunc = chosen@;
    chosen.truncate(MIN_CHORDS + idx);
    proof {
        assert(chosen@ =~= pre_trunc.take(MIN_CHORDS + idx as int));
        assert(chosen@.last() == pre_trunc[idx as int + 1]);
        assert(chosen@[0] == pre_trunc[0]);
    }
    let rseed = rng.next_raw();
    let length = ts.bars(4);
    proof {
        lemma_four_bars_quarters(*ts);
    }
    let spans = balanced_spans_in(length, chosen.len() as u32,
        ts.beats_per_bar, ts.beat_length, rseed);
    proof {
        assert(rseed == draw_at(seed, (c0 + 8) as u64));
        assert(length == (4 * ts.spec_bar()) as u32);
        lemma_progression_ok(*key, *ts, seed, c0, st_grown, chosen@, spans@);
    }
    ChordProgression { chords: chosen, rhythm: spans }
}

/// Four bars are a positive multiple of the quarter beat, with room for at
/// least sixteen quarters per bar.
pub proof fn lemma_four_bars_quarters(ts: TimeSignature)
    requires
        ts.wf(),
    ensures
        4 * ts.spec_bar() > 0,
        4 * ts.spec_bar() <= 8 * 13 * 0x10000,
        (4 * ts.spec_bar()) % (ts.beat_length as int / 4) == 0,
        4 * ts.spec_bar() / (ts.beat_length as int / 4) >= 16,
{
    let q = ts.beat_length as int / 4;
    let b = ts.beats_per_bar as int;
    assert(ts.beat_length == 4 * q);
    assert(4 * ts.spec_bar() == (16 * b) * q) by (nonlinear_arith)
        requires ts.spec_bar() == b * ts.beat_length && ts.beat_length == 4 * q;
    assert(((16 * b) * q) % q == 0) by (nonlinear_arith)
        requires q > 0;
    assert(((16 * b) * q) / q == 16 * b) by (nonlinear_arith)
        requires q > 0;
    assert(4 * ts.spec_bar() <= 8 * 13 * 0x10000) by (nonlinear_arith)
        requires ts.spec_bar() == b * ts.beat_length && 2 <= b <= 13
            && 4 <= ts.beat_length <= 0x10000;
    assert((16 * b) * q > 0) by (nonlinear_arith)
        requires b >= 2 && q > 0;
}

/// Determinism of the chord transition model: two invocations with the same
/// key, time signature, seed and stream position decide the same
/// progression.
pub proof fn lemma_progression_deterministic(
    key: Key,
    ts: TimeSignature,
    seed: u64,
    count: int,
    a: Option<(Seq<Chord>, Seq<TimeSpan>)>,
    b: Option<(Seq<Chord>, Seq<TimeSpan>)>,
)
    requires
        a == spec_progression(key, ts, seed, count),
        b == spec_progression(key, ts, seed, count),
    ensures
        a == b,
{
}

/// Echelon boundary, upper end: when the cut index reaches the last
/// position, a candidate keeps its weight only if nothing outweighs it —
/// the admissible set collapses to the top-weighted candidates, and every
/// other candidate is cut to zero.
pub proof fn lemma_echelon_collapses(s: Seq<u64>, i: int)
    requires
        0 <= i < s.len(),
    ensures
        spec_admissible(s, s.len() - 1)[i]
            == (if forall|j: int| 0 <= j < s.len() ==> #[trigger] s[j] <= s[i] {
                s[i]
            } else {
                0u64
            }),
{
    lemma_count_gt_zero(s, s.len() as int, s[i]);
    if spec_count_gt(s, s[i]) < 1 {
        assert(forall|j: int| 0 <= j < s.len() ==> #[trigger] s[j] <= s[i]);
    } else {
        assert(exists|j: int| 0 <= j < s.len() && #[trigger] s[j] > s[i]);
    }
}

/// Echelon boundary, lower end: with the cut index at zero every candidate
/// survives with its full weight — the admissible set is the whole
/// candidate set.
pub proof fn lemma_echelon_admits_all(s: Seq<u64>, i: int)
    requires
        0 <= i < s.len(),
    ensures
        spec_admissible(s, 0)[i] == s[i],
{
    lemma_count_gt_zero(s, s.len() as int, s[i]);
    lemma_count_gt_excludes_self(s, i);
}

/// The strict-majorization count over a prefix is zero exactly when no
/// element of the prefix is larger.
proof fn lemma_count_gt_zero(s: Seq<u64>, n: int, v: u64)
    requires
        0 <= n <= s.len(),
    ensures
        spec_count_gt(s.take(n), v) >= 0,
        spec_count_gt(s.take(n), v) == 0 <==> forall|j: int| 0 <= j < n ==> #[trigger] s[j] <= v,
        spec_count_gt(s.take(n), v) > 0 ==> exists|j: int| 0 <= j < n && #[trigger] s[j] > v,
        n == s.len() ==> spec_count_gt(s, v) == spec_count_gt(s.take(n), v),
    decreases n,
{
    if n == 0 {
        assert(s.take(0) =~= Seq::<u64>::empty());
    } else {
        lemma_count_gt_zero(s, n - 1, v);
        lemma_count_gt_take_step(s, v, n);
    }
    if n == s.len() {
        assert(s.take(n) =~= s);
    }
}

/// An element never outweighs itself, so fewer than all elements outweigh
/// it.
proof fn lemma_count_gt_excludes_self(s: Seq<u64>, i: int)
    requires
        0 <= i < s.len(),
    ensures
        spec_count_gt(s, s[i]) < s.len(),
    decreases s.len(),
{
    if i == 0 {
        lemma_count_gt_nonneg_bound(s.drop_first(), s[0]);
    } else {
        lemma_count_gt_excludes_self(s.drop_first(), i - 1);
        assert(s.drop_first()[i - 1] == s[i]);
    }
}

/// A count of elements is at most the number of elements.
proof fn lemma_count_gt_nonneg_bound(s: Seq<u64>, v: u64)
    ensures
        0 <= spec_count_gt(s, v) <= s.len(),
    decreases s.len(),
{
    if s.len() > 0 {
        lemma_count_gt_nonneg_bound(s.drop_first(), v);
    }
}

/// The chord markers element: lays the progression's chords over a section,
/// cycling the four-bar rhythm until the section is filled.
pub struct ChordMarkers;

impl ChordMarkers {
    /// Places one chord per rhythm span: the four-bar rhythm is cycled
    /// across the section span by span until the next span would cross the
    /// section's end, and the `i`-th placed marker carries chord `i` modulo
    /// the progression's length.  The marker list is pinned exactly: marker
    /// `i` sits on the `i`-th shifted rhythm span, and one more span would
    /// not fit.  Pure: no randomness is consumed.
    pub fn place(progression: &ChordProgression, section: &TimeSpan, ts: &TimeSignature)
        -> (r: Vec<(Chord, TimeSpan)>)
        requires
            progression.wf(*ts),
            ts.wf(),
            section.wf(),
            section.end <= 0xF000_0000,
        ensures
            forall|i: int| 0 <= i < r@.len() ==> (#[trigger] r@[i]).0
                == progression.chords@[i % (progression.chords@.len() as int)],
            forall|i: int| 0 <= i < r@.len() ==> (#[trigger] r@[i]).1
                == spec_shifted_span(progression.rhythm@, 4 * ts.spec_bar(),
                    section.start, i),
            forall|i: int| 0 <= i < r@.len() ==> {
                let sp = (#[trigger] r@[i]).1;
                section.start <= sp.start < sp.end <= section.end
            },
            r@.len() == 0 || spec_shifted_span(progression.rhythm@, 4 * ts.spec_bar(),
                section.start, r@.len() as int).end > section.end,
    {
        proof {
            lemma_four_bars_quarters(*ts);
        }
        let spans = cycle_spans(&progression.rhythm, section);
        let n = progression.chords.len();
        let mut out: Vec<(Chord, TimeSpan)> = Vec::new();
        let mut next: usize = 0;
        let mut i: usize = 0;
        proof {
            vstd::arithmetic::div_mod::lemma_small_mod(0nat, n as nat);
        }
        while i < spans.len()
            invariant
                i <= spans@.len(),
                progression.wf(*ts),
                ts.wf(),
                section.wf(),
                n == progression.chords@.len(),
                0 < n <= MAX_CHORDS,
                next == i as int % (n as int),
                next < n,
                forall|k: int| 0 <= k < spans@.len() ==> #[trigger] spans@[k]
                    == spec_shifted_span(progression.rhythm@, 4 * ts.spec_bar(),
                        section.start, k),
                forall|k: int| 0 <= k < spans@.len() ==> section.start
                    <= (#[trigger] spans@[k]).start && spans@[k].start < spans@[k].end
                    && spans@[k].end <= section.end,
                out@.len() == i,
                forall|k: int| 0 <= k < i ==> (#[trigger] out@[k]).0
                    == progression.chords@[k % (n as int)],
                forall|k: int| 0 <= k < i ==> (#[trigger] out@[k]).1 == spans@[k],
            decreases spans@.len() - i,
        {
            let c = progression.chords[next];
            out.push((c, spans[i]));
            proof {
                let ni = n as int;
                vstd::arithmetic::div_mod::lemma_add_mod_noop(i as int, 1, ni);
                if ni == 1 {
                    vstd::arithmetic::div_mod::lemma_mod_self_0(1);
                    vstd::arithmetic::div_mod::lemma_small_mod(0nat, 1nat);
                } else {
                    vstd::arithmetic::div_mod::lemma_small_mod(1nat, n as nat);
                    if next + 1 == n {
                        vstd::arithmetic::div_mod::lemma_mod_self_0(ni);
                    } else {
                        vstd::arithmetic::div_mod::lemma_small_mod((next + 1) as nat,
                            n as nat);
                    }
                }
            }
            next = if next + 1 == n { 0 } else { next + 1 };
            i = i + 1;
        }
        out
    }
}


} // verus!
