//! Rhythm subdivision, consumed from `redact_composer_musical` as a black
//! box: a duration goes in, a contiguous partition of it comes out.  The
//! partitions are random but reproducible, so each call site passes an
//! explicit sub-seed and the result is named as a pure function of the
//! arguments.

use vstd::prelude::*;
use rand::SeedableRng;
use crate::timing::TimeSpan;

verus! {

/// Sum of a sequence of tick counts.
pub open spec fn spec_tick_sum(s: Seq<u32>) -> int
    decreases s.len(),
{
    if s.len() == 0 {
        0
    } else {
        s[0] + spec_tick_sum(s.drop_first())
    }
}

/// The mathematical view of a subdivision menu: each entry is a run of tick
/// lengths with a selection weight.
pub open spec fn spec_menu_view(m: Seq<(Vec<u32>, u32)>) -> Seq<(Seq<u32>, u32)> {
    Seq::new(m.len(), |i: int| (m[i].0@, m[i].1))
}

/// The spans that the balanced subdivision of `length` into `n` parts
/// yields for a given sub-seed.  Reproducible: a pure function of the
/// arguments.
pub uninterp spec fn balanced_spans(
    length: u32,
    n: u32,
    beats_per_bar: u32,
    beat_length: u32,
    seed: u64,
) -> Seq<(u32, u32)>;

/// Relies on `Rhythm::balanced_timing` of `redact_composer_musical`: it
/// splits `length` into exactly `n` parts by repeatedly halving the longest
/// part on a bar/beat/half/quarter grid and shuffles them; the parts are
/// contiguous from zero, and each is a positive multiple of the quarter
/// beat.  The generator is seeded from `seed`, so the outcome depends on
/// the arguments alone.
#[verifier::external_body]
fn balanced_timing_raw(
    length: u32,
    n: u32,
    beats_per_bar: u32,
    beat_length: u32,
    seed: u64,
) -> (r: Vec<(u32, u32)>)
    requires
        2 <= beats_per_bar <= 13,
        4 <= beat_length <= 0x10000,
        beat_length % 4 == 0,
        length > 0,
        length % (beat_length / 4) == 0,
        length <= 8 * 13 * 0x10000,
        1 <= n,
        n <= length / (beat_length / 4),
    ensures
        r@ == balanced_spans(length, n, beats_per_bar, beat_length, seed),
        r@.len() == n,
        r@[0].0 == 0,
        r@[r@.len() - 1].1 == length,
        forall|i: int| 0 <= i < r@.len() ==> (#[trigger] r@[i]).0 < r@[i].1,
        forall|i: int| 0 < i < r@.len() ==> (#[trigger] r@[i]).0 == r@[i - 1].1,
        forall|i: int| 0 <= i < r@.len() ==>
            ((#[trigger] r@[i]).1 - r@[i].0) % (beat_length as int / 4) == 0,
{
    let ts = redact_composer::musical::TimeSignature {
        beats_per_bar: beats_per_bar as i32,
        beat_length: beat_length as i32,
    };
    let mut rng = rand::rngs::StdRng::seed_from_u64(seed);
    let rhythm = redact_composer::musical::rhythm::Rhythm::balanced_timing(
        length as i32, n as i32, &ts, &mut rng);
    rhythm.0.iter().map(|s| (s.start as u32, s.end as u32)).collect()
}

/// Balanced subdivision of a window into `n` spans, wrapped into the
/// library's time model.
pub fn balanced_spans_in(
    length: u32,
    n: u32,
    beats_per_bar: u32,
    beat_length: u32,
    seed: u64,
) -> (r: Vec<TimeSpan>)
    requires
        2 <= beats_per_bar <= 13,
        4 <= beat_length <= 0x10000,
        beat_length % 4 == 0,
        length > 0,
        length % (beat_length / 4) == 0,
        length <= 8 * 13 * 0x10000,
        1 <= n,
        n <= length / (beat_length / 4),
    ensures
        r@.len() == n,
        r@.len() == balanced_spans(length, n, beats_per_bar, beat_length, seed).len(),
        forall|i: int| 0 <= i < r@.len() ==> {
            let p = #[trigger] balanced_spans(length, n, beats_per_bar, beat_length, seed)[i];
            r@[i] == (TimeSpan { start: p.0, end: p.1 })
        },
        crate::timing::spec_partitions(r@, TimeSpan { start: 0, end: length }),
{
    let raw = balanced_timing_raw(length, n, beats_per_bar, beat_length, seed);
    let mut v: Vec<TimeSpan> = Vec::new();
    let mut i: usize = 0;
    while i < raw.len()
        invariant
            i <= raw@.len(),
            raw@ == balanced_spans(length, n, beats_per_bar, beat_length, seed),
            raw@.len() == n,
            forall|k: int| 0 <= k < raw@.len() ==> (#[trigger] raw@[k]).0 < raw@[k].1,
            v@.len() == i,
            forall|k: int| 0 <= k < i ==> #[trigger] v@[k]
                == (TimeSpan { start: raw@[k].0, end: raw@[k].1 }),
        decreases raw@.len() - i,
    {
        let (s, e) = raw[i];
        v.push(TimeSpan { start: s, end: e });
        i = i + 1;
    }
    proof {
        assert(v@ =~= Seq::new(
            balanced_spans(length, n, beats_per_bar, beat_length, seed).len(),
            |k: int| {
                let p = balanced_spans(length, n, beats_per_bar, beat_length, seed)[k];
                TimeSpan { start: p.0, end: p.1 }
            },
        ));
    }
    v
}

/// The spans that the menu-driven subdivision of `length` yields for a
/// given sub-seed.  Reproducible: a pure function of the arguments.
pub uninterp spec fn menu_spans(
    length: u32,
    menu: Seq<(Seq<u32>, u32)>,
    seed: u64,
) -> Seq<(u32, u32)>;

/// Sum of a menu's selection weights.
pub open spec fn spec_weight_total(menu: Seq<(Seq<u32>, u32)>) -> int
    decreases menu.len(),
{
    if menu.len() == 0 {
        0
    } else {
        menu[0].1 + spec_weight_total(menu.drop_first())
    }
}

/// A weight total over elementwise-bounded weights is at most count times
/// the bound.
pub proof fn lemma_weight_total_bounded(menu: Seq<(Seq<u32>, u32)>, b: u32)
    requires
        forall|i: int| 0 <= i < menu.len() ==> (#[trigger] menu[i]).1 <= b,
    ensures
        0 <= spec_weight_total(menu) <= menu.len() * b,
    decreases menu.len(),
{
    if menu.len() > 0 {
        assert(forall|i: int| 0 <= i < menu.drop_first().len()
            ==> (#[trigger] menu.drop_first()[i]).1 <= b);
        lemma_weight_total_bounded(menu.drop_first(), b);
        assert(menu.len() * b == (menu.len() - 1) * b + b) by (nonlinear_arith);
    }
}

/// Whether a subdivision menu can always fill a window of the given length:
/// weights are positive and their total stays in signed 32-bit range, runs
/// are short and non-empty with positive entries, every run's total stays
/// in signed 32-bit range, and some run's total divides both the window and
/// every other run's total, so the filling loop never strands a remainder
/// it cannot cover.
pub open spec fn spec_menu_fills(menu: Seq<(Seq<u32>, u32)>, length: u32) -> bool {
    &&& forall|i: int| 0 <= i < menu.len() ==> (#[trigger] menu[i]).1 > 0
    &&& spec_weight_total(menu) <= 0x7FFF_FFFF
    &&& forall|i: int| 0 <= i < menu.len() ==> 0 < (#[trigger] menu[i]).0.len() <= 0x1000
    &&& forall|i: int, j: int| 0 <= i < menu.len()
        && 0 <= j < menu[i].0.len() ==> #[trigger] menu[i].0[j] > 0
    &&& forall|i: int| 0 <= i < menu.len()
        ==> spec_tick_sum((#[trigger] menu[i]).0) <= 0x7FFF_FFFF
    &&& exists|b: int| 0 <= b < menu.len() && {
        let m = spec_tick_sum((#[trigger] menu[b]).0);
        m > 0 && length as int % m == 0
            && forall|i: int| 0 <= i < menu.len()
                ==> spec_tick_sum((#[trigger] menu[i]).0) % m == 0
    }
}

/// Relies on `Rhythm::random_with_subdivisions_weights` of
/// `redact_composer_musical`: it repeatedly picks a run from the menu by
/// weight among the runs that still fit, until the runs exactly fill
/// `length`, then shuffles the runs and lays their ticks out contiguously
/// from zero; every span's length is one of the menu's tick lengths.  The
/// generator is seeded from `seed`, so the outcome depends on the
/// arguments alone.  The signed 32-bit bounds that `spec_menu_fills` puts
/// on the weight total and on every run total keep the call's internal
/// weight and tick sums representable, so none of its failure paths is
/// reachable.
#[verifier::external_body]
fn menu_spans_raw(length: u32, menu: &Vec<(Vec<u32>, u32)>, seed: u64) -> (r: Vec<(u32, u32)>)
    requires
        0 < length <= 8 * 13 * 0x10000,
        menu@.len() > 0,
        menu@.len() <= 64,
        spec_menu_fills(spec_menu_view(menu@), length),
        forall|i: int, j: int| 0 <= i < menu@.len()
            && 0 <= j < menu@[i].0@.len() ==> #[trigger] menu@[i].0@[j] <= length,
    ensures
        r@ == menu_spans(length, spec_menu_view(menu@), seed),
        r@.len() > 0,
        r@[0].0 == 0,
        r@[r@.len() - 1].1 == length,
        forall|i: int| 0 <= i < r@.len() ==> (#[trigger] r@[i]).0 < r@[i].1,
        forall|i: int| 0 < i < r@.len() ==> (#[trigger] r@[i]).0 == r@[i - 1].1,
        forall|k: int| 0 <= k < r@.len() ==> exists|i: int, j: int|
            0 <= i < menu@.len() && 0 <= j < menu@[i].0@.len()
                && (#[trigger] r@[k]).1 - r@[k].0 == #[trigger] menu@[i].0@[j],
{
    let converted: Vec<(Vec<i32>, i32)> = menu
        .iter()
        .map(|(run, w)| (run.iter().map(|t| *t as i32).collect(), *w as i32))
        .collect();
    let mut rng = rand::rngs::StdRng::seed_from_u64(seed);
    let rhythm = redact_composer::musical::rhythm::Rhythm::random_with_subdivisions_weights(
        length as i32, &converted, &mut rng);
    rhythm.0.iter().map(|s| (s.start as u32, s.end as u32)).collect()
}

/// Menu-driven subdivision of a window, wrapped into the library's time
/// model.
pub fn menu_spans_in(length: u32, menu: &Vec<(Vec<u32>, u32)>, seed: u64) -> (r: Vec<TimeSpan>)
    requires
        0 < length <= 8 * 13 * 0x10000,
        menu@.len() > 0,
        menu@.len() <= 64,
        spec_menu_fills(spec_menu_view(menu@), length),
        forall|i: int, j: int| 0 <= i < menu@.len()
            && 0 <= j < menu@[i].0@.len() ==> #[trigger] menu@[i].0@[j] <= length,
    ensures
        r@ == Seq::new(
            menu_spans(length, spec_menu_view(menu@), seed).len(),
            |i: int| {
                let p = menu_spans(length, spec_menu_view(menu@), seed)[i];
                TimeSpan { start: p.0, end: p.1 }
            },
        ),
        crate::timing::spec_partitions(r@, TimeSpan { start: 0, end: length }),
{
    let raw = menu_spans_raw(length, menu, seed);
    let mut v: Vec<TimeSpan> = Vec::new();
    let mut i: usize = 0;
    while i < raw.len()
        invariant
            i <= raw@.len(),
            raw@ == menu_spans(length, spec_menu_view(menu@), seed),
            forall|k: int| 0 <= k < raw@.len() ==> (#[trigger] raw@[k]).0 < raw@[k].1,
            v@.len() == i,
            forall|k: int| 0 <= k < i ==> #[trigger] v@[k]
                == (TimeSpan { start: raw@[k].0, end: raw@[k].1 }),
        decreases raw@.len() - i,
    {
        let (s, e) = raw[i];
        v.push(TimeSpan { start: s, end: e });
        i = i + 1;
    }
    proof {
        assert(v@ =~= Seq::new(
            menu_spans(length, spec_menu_view(menu@), seed).len(),
            |k: int| {
                let p = menu_spans(length, spec_menu_view(menu@), seed)[k];
                TimeSpan { start: p.0, end: p.1 }
            },
        ));
    }
    v
}

} // verus!
