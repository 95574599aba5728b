//! The structural arrangement model.
//!
//! Parts enter and leave over the course of a section following periodic
//! ramps: a sawtooth rises linearly from zero to one over its period and
//! wraps around, and two ramps can be blended with a weighted ratio.  Each
//! part index owns an activation band — a sub-range of the ramp's range —
//! that widens or shifts for later parts, staggering their entrances.  A
//! phrase divider belongs to a part's activation when the ramp's values
//! across the divider, with wraparound, meet the part's band; adjacent
//! qualifying dividers merge into contiguous play windows.

use vstd::prelude::*;
use crate::timing::TimeSpan;

verus! {

/// A periodic linear ramp: its value at `t` is the position inside the
/// current period, scaled to parts per million.
#[derive(Clone, Copy, Debug, PartialEq, Eq, Structural)]
pub struct Sawtooth {
    /// The ramp period in ticks.
    pub period: u32,
    /// The phase offset in ticks.
    pub offset: u32,
}

impl Sawtooth {
    /// A ramp is well formed when its period is positive and its offset
    /// lies inside one period.
    pub open spec fn wf(self) -> bool {
        0 < self.period <= 0x4000_0000 && self.offset < self.period
    }

    /// The ramp's value at tick `t`, in parts per million.
    pub open spec fn spec_at(self, t: u32) -> int {
        ((t + self.offset) % (self.period as int)) * 1_000_000 / (self.period as int)
    }

    /// Evaluates the ramp.
    pub fn at(&self, t: u32) -> (r: u64)
        requires
            self.wf(),
        ensures
            r == self.spec_at(t),
            r < 1_000_000,
    {
        let phase: u64 = ((t as u64) + (self.offset as u64)) % (self.period as u64);
        proof {
            assert(phase * 1_000_000 <= 0x4000_0000u64 * 1_000_000) by (nonlinear_arith)
                requires phase <= 0x4000_0000u64;
            assert(phase * 1_000_000 / (self.period as int) < 1_000_000) by (nonlinear_arith)
                requires 0 < self.period && phase < self.period;
            assert(phase * 1_000_000 / (self.period as int) >= 0);
        }
        phase * 1_000_000 / (self.period as u64)
    }
}

/// The value of two ramps blended with ratio `r` parts per million toward
/// the first.
pub open spec fn spec_blend(a: Sawtooth, b: Sawtooth, ratio: u64, t: u32) -> int {
    (a.spec_at(t) * ratio + b.spec_at(t) * (1_000_000 - ratio)) / 1_000_000
}

/// Evaluates a blend of two ramps.
pub fn blend_at(a: &Sawtooth, b: &Sawtooth, ratio: u64, t: u32) -> (r: u64)
    requires
        a.wf(),
        b.wf(),
        ratio <= 1_000_000,
    ensures
        r == spec_blend(*a, *b, ratio, t),
        r < 1_000_000,
{
    let va = a.at(t);
    let vb = b.at(t);
    proof {
        assert(va * ratio + vb * (1_000_000 - ratio) < 1_000_000u64 * 1_000_000)
            by (nonlinear_arith)
            requires va < 1_000_000 && vb < 1_000_000 && ratio <= 1_000_000;
        assert(va * ratio + vb * (1_000_000 - ratio) >= 0) by (nonlinear_arith)
            requires va >= 0 && vb >= 0 && ratio <= 1_000_000;
    }
    (va * ratio + vb * (1_000_000 - ratio)) / 1_000_000
}

/// The activation band of a part index, in parts per million of the ramp's
/// range: the first part plays broadly from the bottom, the second is
/// confined to a narrow later band, and every further part enters only near
/// the ramp's top.
pub open spec fn spec_band(part_index: int) -> (int, int) {
    if part_index == 0 {
        (0int, 700_000int)
    } else if part_index == 1 {
        (600_000int, 800_000int)
    } else {
        (700_000int, 1_000_000int)
    }
}

/// Returns the activation band of a part index.
pub fn band(part_index: u32) -> (r: (u64, u64))
    ensures
        (r.0 as int, r.1 as int) == spec_band(part_index as int),
        r.0 < r.1 <= 1_000_000,
{
    if part_index == 0 {
        (0, 700_000)
    } else if part_index == 1 {
        (600_000, 800_000)
    } else {
        (700_000, 1_000_000)
    }
}

/// Whether two half-open ranges of ramp values meet.
pub open spec fn spec_ranges_meet(a_lo: int, a_hi: int, b_lo: int, b_hi: int) -> bool {
    a_lo < b_hi && b_lo < a_hi
}

/// Whether a divider belongs to a band: the ramp's values at the divider's
/// start and end span a range that meets the band, wrapping past the ramp's
/// top when the end value comes back around below the start value.
pub open spec fn spec_divider_active(lo: int, hi: int, v_start: int, v_end: int) -> bool {
    if v_start > v_end {
        spec_ranges_meet(lo, hi, v_start, 1_000_000) || spec_ranges_meet(lo, hi, 0, v_end)
    } else {
        spec_ranges_meet(lo, hi, v_start, v_end)
    }
}

/// Decides whether a divider belongs to a band.
pub fn divider_active(lo: u64, hi: u64, v_start: u64, v_end: u64) -> (r: bool)
    ensures
        r == spec_divider_active(lo as int, hi as int, v_start as int, v_end as int),
{
    if v_start > v_end {
        (lo < 1_000_000 && v_start < hi) || (lo < v_end && 0 < hi)
    } else {
        lo < v_end && v_start < hi
    }
}

/// Whether the blended ramp admits a divider for a part: the ramp's values
/// across the divider meet the part's band.
pub open spec fn spec_divider_admitted(
    a: Sawtooth,
    b: Sawtooth,
    ratio: u64,
    part_index: int,
    d: TimeSpan,
) -> bool {
    let (lo, hi) = spec_band(part_index);
    spec_divider_active(lo, hi, spec_blend(a, b, ratio, d.start),
        spec_blend(a, b, ratio, d.end))
}

/// Whether a window covers a divider whole.
pub open spec fn spec_covers(w: TimeSpan, d: TimeSpan) -> bool {
    w.start <= d.start && d.end <= w.end
}

/// Whether some window of a list covers a divider whole.
pub open spec fn spec_covered(ws: Seq<TimeSpan>, d: TimeSpan) -> bool {
    exists|w: int| 0 <= w < ws.len() && spec_covers(#[trigger] ws[w], d)
}

/// In a contiguous chain, spans with smaller indices end no later.
pub proof fn lemma_chain_end_mono(divs: Seq<TimeSpan>, k: int, j: int)
    requires
        forall|i: int| 0 <= i < divs.len() ==> (#[trigger] divs[i]).start < divs[i].end,
        forall|i: int| 0 < i < divs.len() ==> (#[trigger] divs[i]).start == divs[i - 1].end,
        0 <= k <= j < divs.len(),
    ensures
        divs[k].end <= divs[j].end,
        k < j ==> divs[k].end <= divs[j].start,
    decreases j - k,
{
    if k < j {
        lemma_chain_end_mono(divs, k, j - 1);
    }
}

/// In a contiguous ascending chain every span starts at or after the first.
pub proof fn lemma_chain_ascending(divs: Seq<TimeSpan>, k: int)
    requires
        forall|i: int| 0 <= i < divs.len() ==> (#[trigger] divs[i]).start < divs[i].end,
        forall|i: int| 0 < i < divs.len() ==> (#[trigger] divs[i]).start == divs[i - 1].end,
        0 <= k < divs.len(),
    ensures
        divs[0].start <= divs[k].start,
    decreases k,
{
    if k > 0 {
        lemma_chain_ascending(divs, k - 1);
    }
}

/// The list of per-part activation windows: the part plays exactly during
/// the dividers its band admits, with adjacent admitted dividers merged
/// into one contiguous window.
pub struct ActivationWindows;

impl ActivationWindows {
    /// Merges the admitted dividers of one part into play windows.
    ///
    /// The dividers must be contiguous and ascending.  The windows are
    /// non-empty, disjoint and ascending, and a divider is covered by some
    /// returned window exactly when the blended ramp's values across it
    /// meet the part's band; each window is the union of a maximal run of
    /// admitted dividers, so adjacent admitted dividers always share a
    /// window.
    #[verifier::rlimit(100)]
    #[verifier::spinoff_prover]
    pub fn windows_for(
        a: &Sawtooth,
        b: &Sawtooth,
        ratio: u64,
        part_index: u32,
        dividers: &Vec<TimeSpan>,
    ) -> (r: Vec<TimeSpan>)
        requires
            a.wf(),
            b.wf(),
            ratio <= 1_000_000,
            forall|i: int| 0 <= i < dividers@.len()
                ==> (#[trigger] dividers@[i]).start < dividers@[i].end,
            forall|i: int| 0 < i < dividers@.len()
                ==> (#[trigger] dividers@[i]).start == dividers@[i - 1].end,
        ensures
            forall|w: int| 0 <= w < r@.len() ==> (#[trigger] r@[w]).start < r@[w].end,
            forall|w: int| 0 < w < r@.len() ==> (#[trigger] r@[w]).start >= r@[w - 1].end,
            dividers@.len() > 0 ==> forall|w: int| 0 <= w < r@.len() ==> {
                let win = #[trigger] r@[w];
                dividers@[0].start <= win.start
                    && win.end <= dividers@[dividers@.len() - 1].end
            },
            dividers@.len() == 0 ==> r@.len() == 0,
            forall|k: int| 0 <= k < dividers@.len() ==> (spec_divider_admitted(*a, *b,
                ratio, part_index as int, #[trigger] dividers@[k])
                <==> spec_covered(r@, dividers@[k])),
    {
        let ghost ds = dividers@;
        let ghost pi = part_index as int;
        let mut out: Vec<TimeSpan> = Vec::new();
        let mut open: Option<TimeSpan> = Option::None;
        let mut i: usize = 0;
        while i < dividers.len()
            invariant
                i <= ds.len(),
                dividers@ == ds,
                a.wf(),
                b.wf(),
                ratio <= 1_000_000,
                pi == part_index as int,
                forall|k: int| 0 <= k < ds.len()
                    ==> (#[trigger] ds[k]).start < ds[k].end,
                forall|k: int| 0 < k < ds.len()
                    ==> (#[trigger] ds[k]).start == ds[k - 1].end,
                forall|w: int| 0 <= w < out@.len() ==> (#[trigger] out@[w]).start < out@[w].end,
                forall|w: int| 0 < w < out@.len()
                    ==> (#[trigger] out@[w]).start >= out@[w - 1].end,
                i == 0 ==> open is None && out@.len() == 0,
                open is Some ==> open->0.start < open->0.end,
                open is Some && out@.len() > 0
                    ==> open->0.start >= out@[out@.len() - 1].end,
                out@.len() > 0 && i > 0 && open is None
                    ==> out@[out@.len() - 1].end <= ds[i - 1].end,
                ds.len() > 0 ==> forall|w: int| 0 <= w < out@.len()
                    ==> ds[0].start <= (#[trigger] out@[w]).start,
                open is Some && ds.len() > 0 ==> ds[0].start <= open->0.start,
                i > 0 && open is Some ==> open->0.end == ds[i - 1].end,
                ds.len() > 0 && i > 0 ==> forall|w: int| 0 <= w < out@.len()
                    ==> (#[trigger] out@[w]).end <= ds[i - 1].end,
                forall|w: int, k: int| 0 <= w < out@.len() && 0 <= k < ds.len()
                    && spec_covers(#[trigger] out@[w], #[trigger] ds[k])
                    ==> k < i && spec_divider_admitted(*a, *b, ratio, pi, ds[k]),
                open is Some ==> forall|k: int| 0 <= k < ds.len()
                    && spec_covers(open->0, #[trigger] ds[k])
                    ==> k < i && spec_divider_admitted(*a, *b, ratio, pi, ds[k]),
                forall|k: int| 0 <= k < i
                    && spec_divider_admitted(*a, *b, ratio, pi, #[trigger] ds[k])
                    ==> spec_covered(out@, ds[k])
                        || (open is Some && spec_covers(open->0, ds[k])),
            decreases ds.len() - i,
        {
            let d = dividers[i];
            proof {
                lemma_chain_ascending(ds, i as int);
            }
            let vs = blend_at(a, b, ratio, d.start);
            let ve = blend_at(a, b, ratio, d.end);
            let (lo, hi) = band(part_index);
            let active = divider_active(lo, hi, vs, ve);
            proof {
                assert(active == spec_divider_admitted(*a, *b, ratio, pi, ds[i as int]));
            }
            let ghost pre_out = out@;
            let ghost pre_open = open;
            if active {
                open = match open {
                    Option::Some(w) => Option::Some(TimeSpan { start: w.start, end: d.end }),
                    Option::None => Option::Some(d),
                };
                proof {
                    let ow = open->0;
                    assert(spec_covers(ow, ds[i as int]));
                    assert forall|k: int| 0 <= k < ds.len() && spec_covers(ow, ds[k])
                        implies k < i + 1 && spec_divider_admitted(*a, *b, ratio, pi, ds[k])
                    by {
                        if k > i {
                            lemma_chain_end_mono(ds, i as int, k);
                            assert(ds[k].end > ow.end);
                            assert(false);
                        } else if k < i {
                            lemma_chain_end_mono(ds, k, i as int - 1);
                            match pre_open {
                                Option::Some(pw) => {
                                    assert(spec_covers(pw, ds[k]));
                                },
                                Option::None => {
                                    lemma_chain_end_mono(ds, i as int - 1, i as int);
                                    assert(ds[k].start < ds[i as int].start) by {
                                        assert(ds[k].end <= ds[i as int].start);
                                    }
                                    assert(false);
                                },
                            }
                        }
                    }
                    assert forall|k: int| 0 <= k < i + 1
                        && spec_divider_admitted(*a, *b, ratio, pi, #[trigger] ds[k])
                        implies spec_covered(out@, ds[k]) || spec_covers(ow, ds[k])
                    by {
                        if k < i {
                            match pre_open {
                                Option::Some(pw) => {
                                    if spec_covers(pw, ds[k]) {
                                        assert(spec_covers(ow, ds[k]));
                                    }
                                },
                                Option::None => {},
                            }
                        }
                    }
                }
            } else {
                match open {
                    Option::Some(w) => {
                        out.push(w);
                        open = Option::None;
                        proof {
                            assert forall|k: int| 0 <= k < i + 1
                                && spec_divider_admitted(*a, *b, ratio, pi,
                                    #[trigger] ds[k])
                                implies spec_covered(out@, ds[k])
                            by {
                                if k < i {
                                    if spec_covered(pre_out, ds[k]) {
                                        let wi = choose|wi: int| 0 <= wi < pre_out.len()
                                            && spec_covers(pre_out[wi], ds[k]);
                                        assert(spec_covers(out@[wi], ds[k]));
                                    } else {
                                        assert(spec_covers(out@[out@.len() - 1], ds[k]));
                                    }
                                }
                            }
                        }
                    },
                    Option::None => {},
                }
            }
            i = i + 1;
        }
        let ghost pre_out = out@;
        match open {
            Option::Some(w) => {
                out.push(w);
                proof {
                    assert forall|k: int| 0 <= k < ds.len()
                        && spec_divider_admitted(*a, *b, ratio, pi, #[trigger] ds[k])
                        implies spec_covered(out@, ds[k])
                    by {
                        if spec_covered(pre_out, ds[k]) {
                            let wi = choose|wi: int| 0 <= wi < pre_out.len()
                                && spec_covers(pre_out[wi], ds[k]);
                            assert(spec_covers(out@[wi], ds[k]));
                        } else {
                            assert(spec_covers(out@[out@.len() - 1], ds[k]));
                        }
                    }
                }
            },
            Option::None => {},
        }
        out
    }
}

} // verus!
