//! Seeded randomness.
//!
//! Every random decision of the library flows through [`RandomSource`], a
//! cursor over the value stream of a `rand` generator seeded from a `u64`.
//! The stream is reproducible: the value at a given position depends on the
//! seed and the position alone, which the spec function [`draw_at`] names.
//! All derived samplers consume exactly one raw draw, so the position of a
//! source after any sequence of calls is known exactly and every sampled
//! value is a pure function of the seed.

use vstd::prelude::*;
use rand::RngCore;
use rand::SeedableRng;

verus! {

/// The raw 64-bit value that a generator seeded with `seed` yields at
/// position `index` of its stream.
pub uninterp spec fn draw_at(seed: u64, index: u64) -> u64;

#[verifier::external_type_specification]
#[verifier::external_body]
pub struct ExStdRng(rand::rngs::StdRng);

/// A deterministic stream of random values, identified by its seed and the
/// number of values already drawn.
pub struct RandomSource {
    rng: rand::rngs::StdRng,
    seed: u64,
    count: u64,
}

impl RandomSource {
    /// The seed the underlying generator was created from.
    pub closed spec fn seed(&self) -> u64 {
        self.seed
    }

    /// How many raw values have been drawn so far.
    pub closed spec fn count(&self) -> u64 {
        self.count
    }

    /// Relies on rand's `SeedableRng::seed_from_u64`, which its documentation
    /// requires to be reproducible: equal seeds give equal generators.
    #[verifier::external_body]
    pub fn from_seed(seed: u64) -> (r: RandomSource)
        ensures
            r.seed() == seed,
            r.count() == 0,
    {
        RandomSource { rng: rand::rngs::StdRng::seed_from_u64(seed), seed, count: 0 }
    }

    /// Relies on rand's `RngCore::next_u64` on `StdRng`: the generator is a
    /// deterministic state machine, so the value at a given position of the
    /// stream is a function of the seed and the position alone.
    #[verifier::external_body]
    pub fn next_raw(&mut self) -> (r: u64)
        requires
            old(self).count() < u64::MAX,
        ensures
            r == draw_at(old(self).seed(), old(self).count()),
            final(self).seed() == old(self).seed(),
            final(self).count() == old(self).count() + 1,
    {
        self.count += 1;
        self.rng.next_u64()
    }
}

/// What [`RandomSource::next_below`] returns: the raw draw scaled from the
/// full 64-bit range down to `0..bound`.
pub open spec fn scaled_draw(seed: u64, index: u64, bound: u64) -> int {
    (draw_at(seed, index) * bound) / 0x1_0000_0000_0000_0000
}

impl RandomSource {
    /// Draws one value uniformly scaled into `0..bound`.
    pub fn next_below(&mut self, bound: u64) -> (r: u64)
        requires
            bound > 0,
            old(self).count() < u64::MAX,
        ensures
            r == scaled_draw(old(self).seed(), old(self).count(), bound),
            r < bound,
            final(self).seed() == old(self).seed(),
            final(self).count() == old(self).count() + 1,
    {
        let d = self.next_raw();
        proof {
            lemma_scale_bound(d as int, bound as int);
            assert((d as int) * (bound as int) <= u128::MAX) by (nonlinear_arith)
                requires d <= u64::MAX && bound <= u64::MAX;
        }
        let wide: u128 = (d as u128) * (bound as u128);
        let r: u64 = (wide / 0x1_0000_0000_0000_0000u128) as u64;
        r
    }
}

impl RandomSource {
    /// Draws one value uniformly from `lo..=hi`.
    pub fn next_in_range(&mut self, lo: u64, hi: u64) -> (r: u64)
        requires
            lo <= hi,
            hi - lo < u64::MAX,
            old(self).count() < u64::MAX,
        ensures
            r == lo + scaled_draw(old(self).seed(), old(self).count(), (hi - lo + 1) as u64),
            lo <= r <= hi,
            final(self).seed() == old(self).seed(),
            final(self).count() == old(self).count() + 1,
    {
        let off = self.next_below(hi - lo + 1);
        lo + off
    }

    /// Draws one event that is true with probability `p` parts per million.
    pub fn next_event_ppm(&mut self, p: u64) -> (r: bool)
        requires
            old(self).count() < u64::MAX,
        ensures
            r == (scaled_draw(old(self).seed(), old(self).count(), 1_000_000) < p),
            final(self).seed() == old(self).seed(),
            final(self).count() == old(self).count() + 1,
    {
        let x = self.next_below(1_000_000);
        x < p
    }
}

/// Sum of a sequence of weights.
pub open spec fn sum_of(s: Seq<u64>) -> int
    decreases s.len(),
{
    if s.len() == 0 {
        0
    } else {
        s[0] + sum_of(s.drop_first())
    }
}

/// The index of the weight bucket that position `x` falls in, when the
/// weights are laid out one after another from position 0.
pub open spec fn index_of_position(s: Seq<u64>, x: int) -> int
    decreases s.len(),
{
    if s.len() == 0 {
        0
    } else if x < s[0] {
        0
    } else {
        1 + index_of_position(s.drop_first(), x - s[0])
    }
}

/// Sum of the first `i` weights.
pub open spec fn prefix_sum(s: Seq<u64>, i: int) -> int {
    sum_of(s.take(i))
}

/// The index that a weighted pick over `s` yields from the draw at the given
/// stream position.
pub open spec fn spec_pick(s: Seq<u64>, seed: u64, index: u64) -> int {
    index_of_position(s, (draw_at(seed, index) * sum_of(s)) / 0x1_0000_0000_0000_0000)
}

/// A weight sum is never negative.
pub proof fn lemma_sum_nonneg(s: Seq<u64>)
    ensures
        sum_of(s) >= 0,
    decreases s.len(),
{
    if s.len() > 0 {
        lemma_sum_nonneg(s.drop_first());
    }
}

/// A weight sum splits around any point: the first `i` weights plus the
/// rest make the whole.
pub proof fn lemma_sum_split(s: Seq<u64>, i: int)
    requires
        0 <= i <= s.len(),
    ensures
        prefix_sum(s, i) + sum_of(s.skip(i)) == sum_of(s),
    decreases i,
{
    if i == 0 {
        assert(s.take(0) =~= Seq::<u64>::empty());
        assert(s.skip(0) =~= s);
    } else {
        lemma_sum_split(s, i - 1);
        assert(s.skip(i - 1).drop_first() =~= s.skip(i));
        assert(s.skip(i - 1).len() > 0);
        assert(s.skip(i - 1)[0] == s[i - 1]);
        lemma_sum_take_step(s, i);
    }
}

/// Extending a prefix by one element adds that element to its sum.
proof fn lemma_sum_take_step(s: Seq<u64>, i: int)
    requires
        0 < i <= s.len(),
    ensures
        sum_of(s.take(i)) == sum_of(s.take(i - 1)) + s[i - 1],
    decreases i,
{
    if i == 1 {
        assert(s.take(1).drop_first() =~= Seq::<u64>::empty());
        assert(s.take(0) =~= Seq::<u64>::empty());
    } else {
        assert(s.take(i).drop_first() =~= s.drop_first().take(i - 1));
        assert(s.take(i - 1).drop_first() =~= s.drop_first().take(i - 2));
        lemma_sum_take_step(s.drop_first(), i - 1);
    }
}

/// The bucket found for an in-range position is a real index whose weight
/// covers that position: `prefix_sum(s, i) <= x < prefix_sum(s, i) + s[i]`.
/// In particular the weight of the chosen index is positive.
pub proof fn lemma_index_of_position_in_bucket(s: Seq<u64>, x: int)
    requires
        0 <= x < sum_of(s),
    ensures
        0 <= index_of_position(s, x) < s.len(),
        ({
            let i = index_of_position(s, x);
            prefix_sum(s, i) <= x < prefix_sum(s, i) + s[i] && s[i] > 0
        }),
    decreases s.len(),
{
    assert(s.len() > 0);
    if x < s[0] {
        assert(s.take(0) =~= Seq::<u64>::empty());
    } else {
        lemma_index_of_position_in_bucket(s.drop_first(), x - s[0]);
        let j = index_of_position(s.drop_first(), x - s[0]);
        lemma_sum_take_step(s, j + 1);
        lemma_sum_take_step(s, 1);
        assert(s.take(1).drop_first() =~= Seq::<u64>::empty());
        assert(s.take(j + 1).drop_first() =~= s.drop_first().take(j));
        assert(s.take(j + 2).drop_first() =~= s.drop_first().take(j + 1));
        lemma_sum_take_step(s, j + 2);
        lemma_sum_take_step(s.drop_first(), j + 1);
    }
}

/// The converse: a position inside the weight span of index `i` is found in
/// bucket `i`.  Together with `lemma_index_of_position_in_bucket` this says
/// that exactly `s[i]` of the `sum_of(s)` equally likely positions select
/// index `i`: the picked index is distributed as the normalized weights.
pub proof fn lemma_bucket_of_index(s: Seq<u64>, x: int, i: int)
    requires
        0 <= i < s.len(),
        prefix_sum(s, i) <= x < prefix_sum(s, i) + s[i],
    ensures
        index_of_position(s, x) == i,
    decreases i,
{
    lemma_sum_nonneg(s.take(i));
    lemma_sum_take_step(s, i + 1);
    if i == 0 {
        assert(s.take(0) =~= Seq::<u64>::empty());
    } else {
        assert(s.take(i).drop_first() =~= s.drop_first().take(i - 1));
        assert(s.take(i + 1).drop_first() =~= s.drop_first().take(i));
        lemma_sum_take_step(s, 1);
        assert(s.take(1).drop_first() =~= Seq::<u64>::empty());
        lemma_sum_nonneg(s.drop_first().take(i - 1));
        lemma_bucket_of_index(s.drop_first(), x - s[0], i - 1);
    }
}

impl RandomSource {
    /// Picks an index with probability proportional to its weight, or `None`
    /// when every weight is zero.  Consumes exactly one draw either way.
    pub fn pick_weighted(&mut self, weights: &Vec<u64>) -> (r: Option<usize>)
        requires
            sum_of(weights@) <= u64::MAX,
            old(self).count() < u64::MAX,
        ensures
            final(self).seed() == old(self).seed(),
            final(self).count() == old(self).count() + 1,
            sum_of(weights@) == 0 <==> r is None,
            r is Some ==> {
                let i = r->0 as int;
                r->0 == spec_pick(weights@, old(self).seed(), old(self).count())
                    && 0 <= i < weights@.len() && weights@[i] > 0
            },
    {
        let ghost s = weights@;
        let mut total: u64 = 0;
        let mut j: usize = 0;
        proof {
            assert(s.take(0) =~= Seq::<u64>::empty());
        }
        while j < weights.len()
            invariant
                0 <= j <= s.len(),
                weights@ == s,
                total == prefix_sum(s, j as int),
                sum_of(s) <= u64::MAX,
            decreases s.len() - j,
        {
            proof {
                lemma_sum_take_step(s, j + 1);
                lemma_sum_split(s, j + 1);
                lemma_sum_nonneg(s.skip(j + 1));
            }
            total = total + weights[j];
            j = j + 1;
        }
        proof {
            assert(s.take(s.len() as int) =~= s);
        }
        if total == 0 {
            let _ = self.next_raw();
            return None;
        }
        let ghost pos = self.count();
        let x = self.next_below(total);
        let ghost xg = x as int;
        let mut acc: u64 = 0;
        let mut i: usize = 0;
        proof {
            assert(s.take(0) =~= Seq::<u64>::empty());
        }
        while weights[i] <= x - acc
            invariant
                0 <= i < s.len(),
                weights@ == s,
                acc == prefix_sum(s, i as int),
                x == xg,
                acc <= xg < sum_of(s),
                sum_of(s) <= u64::MAX,
                xg == scaled_draw(self.seed(), pos, sum_of(s) as u64),
            decreases s.len() - i,
        {
            proof {
                lemma_sum_take_step(s, i + 1);
                lemma_sum_split(s, i + 1);
                lemma_sum_nonneg(s.skip(i + 1));
                assert(weights.len() == s.len());
                if i + 1 == s.len() {
                    assert(s.skip(i + 1) =~= Seq::<u64>::empty());
                    assert(sum_of(s.skip(i + 1)) == 0);
                    assert(prefix_sum(s, i + 1) == sum_of(s));
                    assert(false);
                }
            }
            acc = acc + weights[i];
            i = i + 1;
        }
        proof {
            lemma_sum_take_step(s, i + 1);
            lemma_sum_nonneg(s.take(i as int));
            lemma_bucket_of_index(s, xg, i as int);
        }
        Some(i)
    }
}

/// The sub-seed that a seed and a salt derive: the first value of a
/// generator seeded from the pair.  Reproducible: a pure function of the
/// two arguments.
pub uninterp spec fn derived_seed(seed: u64, salt: u64) -> u64;

/// Relies on rand's `SeedableRng::from_seed` and `RngCore::next_u64` on
/// `StdRng`: seeding is reproducible, so the first value of a stream seeded
/// from the byte images of the pair is a pure function of seed and salt.
#[verifier::external_body]
pub fn derive_seed(seed: u64, salt: u64) -> (r: u64)
    ensures
        r == derived_seed(seed, salt),
{
    let mut bytes = [0u8; 32];
    bytes[..8].copy_from_slice(&seed.to_le_bytes());
    bytes[8..16].copy_from_slice(&salt.to_le_bytes());
    let mut rng = rand::rngs::StdRng::from_seed(bytes);
    rng.next_u64()
}

/// Scaling a 64-bit value into `0..bound` stays below `bound`.
proof fn lemma_scale_bound(d: int, bound: int)
    requires
        0 <= d < 0x1_0000_0000_0000_0000,
        0 < bound,
    ensures
        0 <= (d * bound) / 0x1_0000_0000_0000_0000 < bound,
{
    let m = 0x1_0000_0000_0000_0000int;
    assert(d * bound <= (m - 1) * bound) by (nonlinear_arith)
        requires 0 <= d <= m - 1 && 0 < bound;
    assert((m - 1) * bound == m * bound - bound);
    assert((m * bound - bound) / m < bound) by (nonlinear_arith)
        requires 0 < bound && 0 < m;
    assert(d * bound >= 0) by (nonlinear_arith)
        requires 0 <= d && 0 < bound;
}

} // verus!
