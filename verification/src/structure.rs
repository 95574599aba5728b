//! Composition structure: sections and phrase dividers.
//!
//! A composition window is split into equal sections whose length is a
//! multiple of a minimum section length; inside a section, a two-bar
//! subdivision pattern is cycled across the window to produce the phrase
//! dividers that schedule all note and hit placement, and periodic ramps
//! assign every part its activation windows.

use vstd::prelude::*;
use crate::arrangement::{ActivationWindows, Sawtooth};
use crate::rhythm::{menu_spans, menu_spans_in, spec_menu_view, spec_tick_sum};
use crate::rng::{RandomSource, scaled_draw};
use crate::timing::{TimeSignature, TimeSpan};

verus! {

/// A phrase divider: one scheduling sub-interval of a section.
#[derive(Clone, Copy, Debug, PartialEq, Eq, Structural)]
pub struct PhraseDivider {
    /// The ticks the divider covers.
    pub span: TimeSpan,
}

/// The sections element: splits a composition window into equal sections.
pub struct Sections;

/// How a window was split: one section covering the usable window, or a
/// run of equal sections.
pub enum SectionSplit {
    /// The window is too short to split: one section covers it whole.
    Single(TimeSpan),
    /// The window divides into this many equal sections of this length.
    Divided(Vec<TimeSpan>),
}

impl Sections {
    /// The minimum section length: eight bars.
    pub open spec fn spec_min_section(ts: TimeSignature) -> int {
        8 * ts.spec_bar()
    }

    /// The usable window: the window's length trimmed down to a multiple of
    /// twice the minimum section length.
    pub open spec fn spec_trimmed(len: int, min: int) -> int {
        len - len % (2 * min)
    }

    /// The divisors below `upto` (and at least two) whose section length
    /// fits the trimmed window evenly, in ascending order.
    pub open spec fn spec_qualifying(trimmed: int, min: int, upto: int) -> Seq<u32>
        decreases upto,
    {
        if upto <= 2 {
            Seq::empty()
        } else {
            let s = Sections::spec_qualifying(trimmed, min, upto - 1);
            if trimmed % ((upto - 1) * min) == 0 {
                s.push((upto - 1) as u32)
            } else {
                s
            }
        }
    }

    /// Splits a window into sections.  The window is first trimmed to a
    /// multiple of twice the minimum section length; when the trimmed
    /// length exceeds one minimum section, a divisor between two and six
    /// whose section length fits evenly is picked uniformly among the
    /// qualifying divisors (two always qualifies), and the trimmed window
    /// is divided into that many equal, contiguous sections.  A window
    /// whose trimmed length is at most one minimum section gives a single
    /// section over the whole window.
    pub fn split(window: &TimeSpan, ts: &TimeSignature, rng: &mut RandomSource)
        -> (r: SectionSplit)
        requires
            window.wf(),
            ts.wf(),
            window.end <= 0xF000_0000,
            old(rng).count() + 4 < u64::MAX,
        ensures
            final(rng).seed() == old(rng).seed(),
            match r {
                SectionSplit::Single(s) => {
                    &&& s == *window
                    &&& Sections::spec_trimmed(window.spec_len(),
                        Sections::spec_min_section(*ts))
                        <= Sections::spec_min_section(*ts)
                    &&& final(rng).count() == old(rng).count()
                },
                SectionSplit::Divided(parts) => {
                    let min = Sections::spec_min_section(*ts);
                    let trimmed = Sections::spec_trimmed(window.spec_len(), min);
                    let divs = Sections::spec_qualifying(trimmed, min, 7);
                    &&& trimmed > min
                    &&& divs.len() > 0
                    &&& parts@.len() == divs[scaled_draw(old(rng).seed(),
                        old(rng).count(), divs.len() as u64)]
                    &&& 2 <= parts@.len() <= 6
                    &&& forall|i: int| 0 <= i < parts@.len()
                        ==> (#[trigger] parts@[i]).start
                            == window.start + i * (trimmed / parts@.len() as int)
                    &&& forall|i: int| 0 <= i < parts@.len()
                        ==> (#[trigger] parts@[i]).end
                            == window.start + (i + 1) * (trimmed / parts@.len() as int)
                    &&& forall|i: int| 0 <= i < parts@.len()
                        ==> (#[trigger] parts@[i]).start < parts@[i].end
                    &&& forall|i: int| 0 < i < parts@.len()
                        ==> (#[trigger] parts@[i]).start == parts@[i - 1].end
                    &&& parts@[0].start == window.start
                    &&& parts@[parts@.len() - 1].end <= window.end
                    &&& forall|i: int| 0 <= i < parts@.len()
                        ==> (#[trigger] parts@[i]).spec_len()
                            % Sections::spec_min_section(*ts) == 0
                    &&& final(rng).count() == old(rng).count() + 1
                },
            },
    {
        let min_section = ts.bars(8);
        let len = window.len();
        let md = len % (2 * min_section);
        proof {
            vstd::arithmetic::div_mod::lemma_mod_decreases(len as nat,
                (2 * min_section) as nat);
        }
        let trimmed = len - md;
        if trimmed <= min_section {
            return SectionSplit::Single(*window);
        }
        let mut divisors: Vec<u32> = Vec::new();
        let mut d: u32 = 2;
        proof {
            assert(Sections::spec_qualifying(trimmed as int, min_section as int, 2)
                =~= Seq::<u32>::empty());
        }
        while d <= 6
            invariant
                2 <= d <= 7,
                min_section == Sections::spec_min_section(*ts),
                0 < min_section <= 8 * 13 * 0x10000,
                trimmed <= 0xF000_0000,
                divisors@ == Sections::spec_qualifying(trimmed as int, min_section as int,
                    d as int),
                forall|i: int| 0 <= i < divisors@.len() ==> {
                    let q = #[trigger] divisors@[i];
                    2 <= q <= 6 && trimmed as int % (q * min_section) == 0
                },
            decreases 7 - d,
        {
            proof {
                assert(d * min_section <= 6 * (8 * 13 * 0x10000)) by (nonlinear_arith)
                    requires d <= 6 && 0 < min_section <= 8 * 13 * 0x10000;
                assert(d * min_section > 0) by (nonlinear_arith)
                    requires d >= 2 && min_section > 0;
            }
            if trimmed % (d * min_section) == 0 {
                divisors.push(d);
            }
            d = d + 1;
        }
        proof {
            assert(divisors@.len() > 0) by {
                assert(trimmed as int % (2 * (min_section as int)) == 0) by {
                    vstd::arithmetic::div_mod::lemma_fundamental_div_mod(len as int,
                        2 * (min_section as int));
                    vstd::arithmetic::div_mod::lemma_fundamental_div_mod_converse(
                        trimmed as int, 2 * (min_section as int),
                        (len as int) / (2 * (min_section as int)), 0);
                }
                assert(Sections::spec_qualifying(trimmed as int, min_section as int, 3).len()
                    > 0);
                lemma_qualifying_grows(trimmed as int, min_section as int, 3, 7);
            }
        }
        let pick = rng.next_below(divisors.len() as u64);
        let k = divisors[pick as usize];
        proof {
            assert(k * min_section <= 6 * (8 * 13 * 0x10000)) by (nonlinear_arith)
                requires k <= 6 && 0 < min_section <= 8 * 13 * 0x10000;
            assert(k * min_section > 0) by (nonlinear_arith)
                requires k >= 2 && min_section > 0;
        }
        let t = trimmed / (k * min_section);
        proof {
            vstd::arithmetic::div_mod::lemma_fundamental_div_mod(trimmed as int,
                (k * min_section) as int);
            assert(trimmed == (k * min_section) * t);
            assert(t >= 1) by (nonlinear_arith)
                requires trimmed == ((k * min_section) as int) * t && trimmed > 0
                    && k * min_section > 0 && t >= 0;
        }
        proof {
            assert(t * min_section <= trimmed && (t * min_section) * k == trimmed
                && t * min_section >= min_section) by (nonlinear_arith)
                requires trimmed == ((k * min_section) as int) * t && t >= 1
                    && k >= 2 && min_section > 0;
            assert((t * min_section) as int % (min_section as int) == 0) by (nonlinear_arith)
                requires min_section > 0 && t >= 0;
        }
        let part_len = t * min_section;
        proof {
            assert((part_len as int) * (k as int) == trimmed as int);
            vstd::arithmetic::div_mod::lemma_fundamental_div_mod_converse(
                trimmed as int, k as int, part_len as int, 0);
            assert(part_len as int == trimmed as int / (k as int));
        }
        let mut parts: Vec<TimeSpan> = Vec::new();
        let mut i: u32 = 0;
        while i < k
            invariant
                i <= k,
                2 <= k <= 6,
                window.wf(),
                window.end <= 0xF000_0000,
                part_len >= 1,
                part_len as int % Sections::spec_min_section(*ts) == 0,
                part_len * k <= window.spec_len(),
                ts.wf(),
                parts@.len() == i,
                forall|j: int| 0 <= j < i ==> (#[trigger] parts@[j]).start
                    == window.start + j * part_len,
                forall|j: int| 0 <= j < i ==> (#[trigger] parts@[j]).end
                    == window.start + (j + 1) * part_len,
            decreases k - i,
        {
            proof {
                assert((i + 1) * part_len <= k * part_len) by (nonlinear_arith)
                    requires i + 1 <= k && part_len >= 1;
                assert(i * part_len + part_len == (i + 1) * part_len) by (nonlinear_arith);
                assert(i * part_len >= 0) by (nonlinear_arith)
                    requires i >= 0 && part_len >= 0;
            }
            let lo = window.start + i * part_len;
            let hi = lo + part_len;
            parts.push(TimeSpan { start: lo, end: hi });
            i = i + 1;
        }
        proof {
            assert(parts@.len() == k >= 2);
            assert(parts@[0].start == window.start);
            assert(parts@[parts@.len() - 1].end == window.start + (k as int) * part_len);
            assert((k as int) * part_len == (part_len as int) * k) by (nonlinear_arith);
            assert(parts@[parts@.len() - 1].end <= window.end);
            assert forall|j: int| 0 <= j < parts@.len() implies
                (#[trigger] parts@[j]).spec_len() == part_len by {
                assert((j + 1) * part_len - j * part_len == part_len) by (nonlinear_arith);
            }
        }
        SectionSplit::Divided(parts)
    }
}

/// Growing the divisor bound keeps every qualifying divisor, so a
/// qualifying list that is non-empty at a smaller bound stays non-empty.
proof fn lemma_qualifying_grows(trimmed: int, min: int, a: int, b: int)
    requires
        2 <= a <= b,
        Sections::spec_qualifying(trimmed, min, a).len() > 0,
    ensures
        Sections::spec_qualifying(trimmed, min, b).len() > 0,
    decreases b - a,
{
    if a < b {
        lemma_qualifying_grows(trimmed, min, a + 1, b);
    }
}

/// The shifted copy `i` of a cyclic pattern/// The shifted copy `i` of a cyclic pattern whose full length is `ll`,
/// starting from `start`: copies follow one another, span by span.
pub open spec fn spec_shifted_span(pattern: Seq<TimeSpan>, ll: int, start: u32, i: int)
    -> TimeSpan {
    let m = pattern.len() as int;
    TimeSpan {
        start: (start + (i / m) * ll + pattern[i % m].start) as u32,
        end: (start + (i / m) * ll + pattern[i % m].end) as u32,
    }
}

/// Consecutive shifted spans are contiguous: each starts where the
/// previous one ends.
proof fn lemma_shift_contiguous(pattern: Seq<TimeSpan>, ll: int, start: u32, i: int)
    requires
        pattern.len() > 0,
        pattern[0].start == 0,
        forall|k: int| 0 <= k < pattern.len() ==> (#[trigger] pattern[k]).start < pattern[k].end,
        forall|k: int| 0 < k < pattern.len() ==> (#[trigger] pattern[k]).start == pattern[k - 1].end,
        ll == pattern[pattern.len() - 1].end,
        i > 0,
    ensures
        spec_shifted_span(pattern, ll, start, i).start
            == spec_shifted_span(pattern, ll, start, i - 1).end,
{
    let m = pattern.len() as int;
    let q = i / m;
    let r = i % m;
    vstd::arithmetic::div_mod::lemma_fundamental_div_mod(i, m);
    vstd::arithmetic::div_mod::lemma_mod_division_less_than_divisor(i, m);
    assert(0 <= r < m);
    assert(q >= 0) by (nonlinear_arith)
        requires m > 0 && i > 0 && i == q * m + r && r < m;
    if r == 0 {
        assert(q >= 1) by (nonlinear_arith)
            requires i > 0 && i == q * m && m > 0 && q >= 0;
        assert((q - 1) * m + (m - 1) == i - 1) by (nonlinear_arith)
            requires i == q * m;
        vstd::arithmetic::div_mod::lemma_fundamental_div_mod_converse(
            i - 1, m, q - 1, m - 1);
        assert((q - 1) * ll + ll == q * ll) by (nonlinear_arith);
    } else {
        vstd::arithmetic::div_mod::lemma_fundamental_div_mod_converse(i - 1, m, q, r - 1);
    }
}

/// Cycles a contiguous pattern across a window: shifted copies of the
/// pattern's spans are laid out until the next span would cross the
/// window's end.  The result is the longest prefix of shifted spans that
/// fits: `r[i]` is the `i`-th shifted span, and the next one would not fit.
#[verifier::rlimit(100)]
pub fn cycle_spans(pattern: &Vec<TimeSpan>, window: &TimeSpan) -> (r: Vec<TimeSpan>)
    requires
        window.wf(),
        window.end <= 0xF000_0000,
        0 < pattern@.len() <= 0x20_0000,
        pattern@[0].start == 0,
        forall|i: int| 0 <= i < pattern@.len()
            ==> (#[trigger] pattern@[i]).start < pattern@[i].end,
        forall|i: int| 0 < i < pattern@.len()
            ==> (#[trigger] pattern@[i]).start == pattern@[i - 1].end,
        pattern@[pattern@.len() - 1].end <= 8 * 13 * 0x10000,
    ensures
        forall|i: int| 0 <= i < r@.len() ==> #[trigger] r@[i] == spec_shifted_span(pattern@,
            pattern@[pattern@.len() - 1].end as int, window.start, i),
        forall|i: int| 0 <= i < r@.len() ==> (#[trigger] r@[i]).start < r@[i].end,
        forall|i: int| 0 < i < r@.len() ==> (#[trigger] r@[i]).start == r@[i - 1].end,
        forall|i: int| 0 <= i < r@.len() ==> window.start <= (#[trigger] r@[i]).start
            && r@[i].end <= window.end,
        r@.len() == 0 || spec_shifted_span(pattern@,
            pattern@[pattern@.len() - 1].end as int, window.start, r@.len() as int).end
            > window.end,
{
    let m = pattern.len();
    let ll: u64 = pattern[m - 1].end as u64;
    let win_len: u64 = (window.end - window.start) as u64;
    let copies: u64 = win_len / ll + 1;
    let mut out: Vec<TimeSpan> = Vec::new();
    let mut fitting = true;
    let mut i: u64 = 0;
    proof {
        assert(copies <= 0xF000_0001u64);
        assert(copies * (m as u64) <= 0xF000_0001u64 * 0x20_0000) by (nonlinear_arith)
            requires copies <= 0xF000_0001u64 && m <= 0x20_0000;
        assert(copies * (m as u64) >= 0) by (nonlinear_arith)
            requires copies >= 0 && m >= 0;
    }
    let total: u64 = copies * (m as u64);
    while i < total
        invariant
            i <= total,
            window.wf(),
            window.end <= 0xF000_0000,
            m == pattern@.len(),
            0 < m <= 0x20_0000,
            pattern@[0].start == 0,
            forall|k: int| 0 <= k < pattern@.len()
                ==> (#[trigger] pattern@[k]).start < pattern@[k].end,
            forall|k: int| 0 < k < pattern@.len()
                ==> (#[trigger] pattern@[k]).start == pattern@[k - 1].end,
            ll == pattern@[pattern@.len() - 1].end,
            0 < ll <= 8 * 13 * 0x10000,
            win_len == window.spec_len(),
            copies == win_len / ll + 1,
            total == copies * (m as u64),
            fitting ==> out@.len() == i,
            !fitting ==> out@.len() < i,
            forall|k: int| 0 <= k < out@.len() ==> #[trigger] out@[k]
                == spec_shifted_span(pattern@, ll as int, window.start, k),
            forall|k: int| 0 <= k < out@.len() ==> (#[trigger] out@[k]).start < out@[k].end,
            forall|k: int| 0 < k < out@.len()
                ==> (#[trigger] out@[k]).start == out@[k - 1].end,
            forall|k: int| 0 <= k < out@.len() ==> window.start <= (#[trigger] out@[k]).start
                && out@[k].end <= window.end,
            !fitting ==> spec_shifted_span(pattern@, ll as int, window.start,
                out@.len() as int).end > window.end,
        decreases total - i,
    {
        let copy: u64 = i / (m as u64);
        let j: usize = (i % (m as u64)) as usize;
        proof {
            assert(j < m) by (nonlinear_arith)
                requires m > 0 && j == i % (m as u64);
            assert(copy <= win_len / ll) by (nonlinear_arith)
                requires m > 0 && ll > 0 && i < total
                    && total == (win_len / ll + 1) * (m as u64) && copy == i / (m as u64);
            assert(copy * ll <= win_len) by (nonlinear_arith)
                requires copy <= win_len / ll && ll > 0;
        }
        let base: u64 = (window.start as u64) + copy * ll;
        let sp_start: u64 = base + (pattern[j].start as u64);
        let sp_end: u64 = base + (pattern[j].end as u64);
        proof {
            assert(sp_end < 0x1_0000_0000) by {
                assert(base <= window.end as u64);
                lemma_chain_end_bound(pattern@, j as int);
                assert(pattern@[j as int].end <= ll);
            }
            assert(copy as int == i as int / (m as int));
            assert(j as int == i as int % (m as int));
            assert(spec_shifted_span(pattern@, ll as int, window.start, i as int).start
                == sp_start);
            assert(spec_shifted_span(pattern@, ll as int, window.start, i as int).end
                == sp_end);
        }
        if fitting && sp_end <= (window.end as u64) {
            let sp = TimeSpan { start: sp_start as u32, end: sp_end as u32 };
            proof {
                assert(sp == spec_shifted_span(pattern@, ll as int, window.start, i as int));
                if i > 0 {
                    lemma_shift_contiguous(pattern@, ll as int, window.start, i as int);
                }
            }
            out.push(sp);
        } else {
            fitting = false;
        }
        i = i + 1;
    }
    proof {
        if fitting && out@.len() > 0 {
            let nxt = out@.len() as int;
            let mi = m as int;
            assert(nxt == total);
            vstd::arithmetic::div_mod::lemma_fundamental_div_mod_converse(
                nxt, mi, copies as int, 0);
            assert(copies * ll > win_len) by (nonlinear_arith)
                requires ll > 0 && copies == win_len / ll + 1;
            assert(copies * ll <= win_len + ll) by (nonlinear_arith)
                requires ll > 0 && copies == win_len / ll + 1;
            lemma_chain_end_bound(pattern@, 0);
            assert(window.start + copies * ll + pattern@[0].end
                <= window.end + ll + ll);
            assert(spec_shifted_span(pattern@, ll as int, window.start, nxt).end
                == window.start + copies * ll + pattern@[0].end);
        }
    }
    out
}

/// In a contiguous ascending chain every span ends at or before the last.
pub proof fn lemma_chain_end_bound(divs: Seq<TimeSpan>, k: int)
    requires
        forall|i: int| 0 <= i < divs.len() ==> (#[trigger] divs[i]).start < divs[i].end,
        forall|i: int| 0 < i < divs.len() ==> (#[trigger] divs[i]).start == divs[i - 1].end,
        0 <= k < divs.len(),
    ensures
        divs[k].end <= divs[divs.len() - 1].end,
    decreases divs.len() - k,
{
    if k < divs.len() - 1 {
        lemma_chain_end_bound(divs, k + 1);
    }
}

/// The subdivision menu of a section's phrase dividers: one run per beat
/// count, each a single span of that many half beats, all equally weighted.
pub open spec fn spec_divider_menu(ts: TimeSignature) -> Seq<(Seq<u32>, u32)> {
    Seq::new(ts.beats_per_bar as nat,
        |n: int| (seq![((n + 1) * ts.spec_half_beat()) as u32], 1u32))
}

/// The cyclic divider pattern of a section: a two-bar window subdivided by
/// the menu, as named by the rhythm collaborator.
pub open spec fn spec_divider_pattern(ts: TimeSignature, dseed: u64) -> Seq<TimeSpan> {
    let raw = menu_spans((2 * ts.spec_bar()) as u32, spec_divider_menu(ts), dseed);
    Seq::new(raw.len(), |i: int| TimeSpan { start: raw[i].0, end: raw[i].1 })
}

/// Builds the phrase dividers of a section: a random two-bar subdivision,
/// cycled across the section.  Every divider is the expected shifted copy
/// of the pattern, they are contiguous from the section's start, and all
/// lie inside the section.
#[verifier::rlimit(100)]
pub fn section_dividers(section: &TimeSpan, ts: &TimeSignature, dseed: u64)
    -> (r: Vec<TimeSpan>)
    requires
        section.wf(),
        ts.wf(),
        section.end <= 0xF000_0000,
    ensures
        forall|i: int| 0 <= i < r@.len() ==> #[trigger] r@[i] == spec_shifted_span(
            spec_divider_pattern(*ts, dseed), 2 * ts.spec_bar(), section.start, i),
        forall|i: int| 0 <= i < r@.len() ==> (#[trigger] r@[i]).start < r@[i].end,
        forall|i: int| 0 < i < r@.len() ==> (#[trigger] r@[i]).start == r@[i - 1].end,
        forall|i: int| 0 <= i < r@.len() ==> section.start <= (#[trigger] r@[i]).start
            && r@[i].end <= section.end,
        r@.len() == 0 || spec_shifted_span(spec_divider_pattern(*ts, dseed),
            2 * ts.spec_bar(), section.start, r@.len() as int).end > section.end,
{
    let hb = ts.half_beat();
    let bar2 = 2 * ts.bar();
    let mut menu: Vec<(Vec<u32>, u32)> = Vec::new();
    let mut n: u32 = 1;
    while n <= ts.beats_per_bar
        invariant
            1 <= n <= ts.beats_per_bar + 1,
            ts.wf(),
            hb == ts.spec_half_beat(),
            menu@.len() == n - 1,
            forall|i: int| 0 <= i < menu@.len() ==> (#[trigger] menu@[i]).0@
                == seq![((i + 1) * ts.spec_half_beat()) as u32]
                && menu@[i].1 == 1u32 && menu@[i].0@.len() == 1,
        decreases ts.beats_per_bar + 1 - n,
    {
        proof {
            assert(n * hb <= 13 * 0x8000) by (nonlinear_arith)
                requires n <= 13 && hb <= 0x8000;
            assert(n * hb >= hb) by (nonlinear_arith)
                requires n >= 1 && hb >= 0;
        }
        let mut run: Vec<u32> = Vec::new();
        run.push(n * hb);
        proof {
            assert(run@ =~= seq![((n - 1 + 1) * ts.spec_half_beat()) as u32]);
        }
        menu.push((run, 1));
        n = n + 1;
    }
    proof {
        assert(spec_menu_view(menu@) =~= spec_divider_menu(*ts));
        lemma_divider_menu_fills(*ts, menu@);
    }
    let pattern = menu_spans_in(bar2, &menu, dseed);
    proof {
        assert(pattern@ =~= spec_divider_pattern(*ts, dseed));
        assert(pattern@[pattern@.len() - 1].end == bar2);
        assert(pattern@.len() <= 0x20_0000) by {
            assert(forall|i: int| 0 <= i < pattern@.len()
                ==> (#[trigger] pattern@[i]).start < pattern@[i].end);
            lemma_chain_count(pattern@);
        }
    }
    cycle_spans(&pattern, section)
}

/// A contiguous chain of non-empty spans inside a two-bar window has at
/// most one span per tick.
pub proof fn lemma_chain_count(divs: Seq<TimeSpan>)
    requires
        divs.len() > 0,
        divs[0].start == 0,
        forall|i: int| 0 <= i < divs.len() ==> (#[trigger] divs[i]).start < divs[i].end,
        forall|i: int| 0 < i < divs.len() ==> (#[trigger] divs[i]).start == divs[i - 1].end,
    ensures
        divs.len() <= divs[divs.len() - 1].end + 1,
    decreases divs.len(),
{
    if divs.len() > 1 {
        let head = divs.take(divs.len() - 1);
        assert(forall|i: int| 0 <= i < head.len() ==> head[i] == divs[i]);
        lemma_chain_count(head);
    }
}

/// The divider menu always fills a two-bar window: the one-half-beat run
/// divides the window and every other run.
#[verifier::rlimit(100)]
proof fn lemma_divider_menu_fills(ts: TimeSignature, menu: Seq<(Vec<u32>, u32)>)
    requires
        ts.wf(),
        spec_menu_view(menu) == spec_divider_menu(ts),
    ensures
        crate::rhythm::spec_menu_fills(spec_menu_view(menu), (2 * ts.spec_bar()) as u32),
        menu.len() == ts.beats_per_bar,
        forall|i: int, j: int| 0 <= i < menu.len() && 0 <= j < menu[i].0@.len()
            ==> #[trigger] menu[i].0@[j] <= (2 * ts.spec_bar()) as u32,
{
    let m = spec_menu_view(menu);
    let hb = ts.spec_half_beat();
    assert(m.len() == ts.beats_per_bar);
    assert forall|i: int| 0 <= i < m.len() implies (#[trigger] m[i]).1 > 0 by {
        assert(m[i] == (seq![((i + 1) * hb) as u32], 1u32));
    }
    assert(crate::rhythm::spec_weight_total(m) <= 0x7FFF_FFFF) by {
        assert(forall|i: int| 0 <= i < m.len() ==> (#[trigger] m[i]).1 <= 1u32);
        crate::rhythm::lemma_weight_total_bounded(m, 1);
    }
    assert forall|i: int| 0 <= i < m.len() implies
        spec_tick_sum((#[trigger] m[i]).0) <= 0x7FFF_FFFF by {
        assert(m[i] == (seq![((i + 1) * hb) as u32], 1u32));
        assert(0 <= (i + 1) * hb <= 13 * 0x8000) by (nonlinear_arith)
            requires 0 <= i && i + 1 <= 13 && 0 <= hb <= 0x8000;
        assert(spec_tick_sum(seq![((i + 1) * hb) as u32]) == (i + 1) * hb) by {
            assert(seq![((i + 1) * hb) as u32].drop_first() =~= Seq::<u32>::empty());
            assert(spec_tick_sum(Seq::<u32>::empty()) == 0);
        }
    }
    assert forall|i: int| 0 <= i < m.len() implies
        0 < (#[trigger] m[i]).0.len() <= 0x1000 by {
        assert(m[i] == (seq![((i + 1) * hb) as u32], 1u32));
    }
    assert forall|i: int, j: int| 0 <= i < m.len() && 0 <= j < m[i].0.len() implies
        #[trigger] m[i].0[j] > 0 by {
        assert(m[i] == (seq![((i + 1) * hb) as u32], 1u32));
        assert((i + 1) * hb >= hb) by (nonlinear_arith)
            requires i >= 0 && hb >= 0;
        assert((i + 1) * hb <= 13 * 0x8000) by (nonlinear_arith)
            requires i + 1 <= 13 && 0 <= hb <= 0x8000;
    }
    assert(m[0] == (seq![((0 + 1) * hb) as u32], 1u32));
    assert((0 + 1) * hb == hb) by (nonlinear_arith);
    assert(m[0].0 =~= seq![hb as u32]);
    assert(spec_tick_sum(seq![hb as u32]) == hb) by {
        assert(seq![hb as u32].drop_first() =~= Seq::<u32>::empty());
        assert(spec_tick_sum(Seq::<u32>::empty()) == 0);
        assert(2 <= hb <= 0x8000);
    }
    assert(2 * ts.spec_bar() == (4 * ts.beats_per_bar) * hb) by (nonlinear_arith)
        requires ts.spec_bar() == ts.beats_per_bar * ts.beat_length
            && ts.beat_length == 2 * hb;
    assert(((4 * ts.beats_per_bar) * hb) % hb == 0) by (nonlinear_arith)
        requires hb > 0;
    assert forall|i: int| 0 <= i < m.len() implies
        spec_tick_sum((#[trigger] m[i]).0) % (hb as int) == 0 by {
        assert(m[i] == (seq![((i + 1) * hb) as u32], 1u32));
        assert((i + 1) * hb >= 0 && (i + 1) * hb <= 13 * 0x8000) by (nonlinear_arith)
            requires 0 <= i && i + 1 <= 13 && 0 <= hb <= 0x8000;
        assert(spec_tick_sum(seq![((i + 1) * hb) as u32]) == (i + 1) * hb) by {
            assert(seq![((i + 1) * hb) as u32].drop_first() =~= Seq::<u32>::empty());
            assert(spec_tick_sum(Seq::<u32>::empty()) == 0);
        }
        assert(((i + 1) * hb) % (hb as int) == 0) by (nonlinear_arith)
            requires hb > 0 && i + 1 >= 0;
    }
    assert(0 <= 2 * ts.spec_bar() <= 2 * 13 * 0x10000) by (nonlinear_arith)
        requires ts.spec_bar() == ts.beats_per_bar * ts.beat_length
            && 2 <= ts.beats_per_bar <= 13 && 4 <= ts.beat_length <= 0x10000;
    assert(((2 * ts.spec_bar()) as u32) as int == 2 * ts.spec_bar());
    assert(0 <= 0 < m.len() && {
        let mm = spec_tick_sum(m[0].0);
        mm > 0 && ((2 * ts.spec_bar()) as u32) as int % mm == 0
            && forall|i: int| 0 <= i < m.len()
                ==> spec_tick_sum((#[trigger] m[i]).0) % mm == 0
    });
    assert forall|i: int, j: int| 0 <= i < menu.len() && 0 <= j < menu[i].0@.len() implies
        #[trigger] menu[i].0@[j] <= (2 * ts.spec_bar()) as u32 by {
        assert(m[i] == (seq![((i + 1) * hb) as u32], 1u32));
        assert(m[i].0 == menu[i].0@);
        assert((i + 1) * hb <= (4 * ts.beats_per_bar) * hb) by (nonlinear_arith)
            requires 0 <= i && i + 1 <= ts.beats_per_bar && hb >= 0
                && ts.beats_per_bar >= 2;
    }
}

/// One section's full structural plan.
pub struct SectionPlan {
    /// The phrase dividers, contiguous from the section's start.
    pub dividers: Vec<PhraseDivider>,
    /// Four equal bass windows from the section's start.
    pub bass_windows: Vec<TimeSpan>,
    /// Four equal percussion windows from the section's start.
    pub drum_windows: Vec<TimeSpan>,
    /// Activation windows per melodic part index.
    pub melody_windows: Vec<Vec<TimeSpan>>,
}

/// The section element: plans dividers, part windows and activations.
pub struct Section;

impl Section {
    /// Divides a window into four equal contiguous spans from its start.
    fn quarters(window: &TimeSpan) -> (r: Vec<TimeSpan>)
        requires
            window.wf(),
            window.spec_len() >= 4,
        ensures
            r@.len() == 4,
            forall|i: int| 0 <= i < 4 ==> (#[trigger] r@[i]).start
                == window.start + i * (window.spec_len() / 4),
            forall|i: int| 0 <= i < 4 ==> (#[trigger] r@[i]).end
                == window.start + (i + 1) * (window.spec_len() / 4),
            forall|i: int| 0 <= i < 4 ==> (#[trigger] r@[i]).start < r@[i].end,
            forall|i: int| 0 < i < 4 ==> (#[trigger] r@[i]).start == r@[i - 1].end,
            r@[0].start == window.start,
            r@[3].end <= window.end,
    {
        let q = (window.end - window.start) / 4;
        proof {
            assert(4 * q <= window.spec_len()) by (nonlinear_arith)
                requires q == window.spec_len() / 4 && window.spec_len() >= 0;
        }
        let mut v: Vec<TimeSpan> = Vec::new();
        let mut i: u32 = 0;
        while i < 4
            invariant
                i <= 4,
                window.wf(),
                q >= 1,
                4 * q <= window.spec_len(),
                v@.len() == i,
                forall|j: int| 0 <= j < i ==> (#[trigger] v@[j]).start
                    == window.start + j * q,
                forall|j: int| 0 <= j < i ==> (#[trigger] v@[j]).end
                    == window.start + (j + 1) * q,
            decreases 4 - i,
        {
            proof {
                assert((i + 1) * q <= 4 * q) by (nonlinear_arith)
                    requires i + 1 <= 4 && q >= 0;
                assert(i * q + q == (i + 1) * q) by (nonlinear_arith);
                assert(i * q >= 0) by (nonlinear_arith)
                    requires i >= 0 && q >= 0;
            }
            let lo = window.start + i * q;
            let hi = lo + q;
            v.push(TimeSpan { start: lo, end: hi });
            i = i + 1;
        }
        proof {
            assert forall|j: int| 0 <= j < 4 implies (#[trigger] v@[j]).start < v@[j].end by {
                assert((j + 1) * q - j * q == q) by (nonlinear_arith);
            }
        }
        v
    }

    /// The blend ramp a section's activations follow: its period is a
    /// quarter of the section and its offset is one uniform draw.
    pub open spec fn spec_ramp(section: TimeSpan, seed: u64, count: int) -> Sawtooth {
        let period = (section.spec_len() / 4) as u32;
        Sawtooth {
            period,
            offset: scaled_draw(seed, count as u64, period as u64) as u32,
        }
    }

    /// Plans one section: cycles a fresh two-bar subdivision into phrase
    /// dividers, splits the section into four equal bass and four equal
    /// percussion windows, and assigns each melodic part its activation
    /// windows from two section-spanning ramps blended wholly toward the
    /// first.  Consumes three draws: the divider sub-seed and the two ramp
    /// offsets.  The dividers are pinned to the shifted copies of the
    /// drawn two-bar pattern (and one more copy would not fit); a divider
    /// lies under a part's windows exactly when the ramp admits it for that
    /// part's band.
    pub fn plan(
        section: &TimeSpan,
        ts: &TimeSignature,
        melody_part_count: u32,
        rng: &mut RandomSource,
    ) -> (r: SectionPlan)
        requires
            section.wf(),
            ts.wf(),
            section.end <= 0xF000_0000,
            section.spec_len() >= 4,
            melody_part_count <= 16,
            old(rng).count() + 8 < u64::MAX,
        ensures
            final(rng).seed() == old(rng).seed(),
            final(rng).count() == old(rng).count() + 3,
            forall|i: int| 0 <= i < r.dividers@.len() ==> (#[trigger] r.dividers@[i]).span
                == spec_shifted_span(spec_divider_pattern(*ts,
                    crate::rng::draw_at(old(rng).seed(), old(rng).count())),
                    2 * ts.spec_bar(), section.start, i),
            r.dividers@.len() == 0 || spec_shifted_span(spec_divider_pattern(*ts,
                crate::rng::draw_at(old(rng).seed(), old(rng).count())),
                2 * ts.spec_bar(), section.start, r.dividers@.len() as int).end
                > section.end,
            forall|i: int| 0 <= i < r.dividers@.len() ==> {
                let d = #[trigger] r.dividers@[i];
                d.span.start < d.span.end && section.start <= d.span.start
                    && d.span.end <= section.end
            },
            forall|i: int| 0 < i < r.dividers@.len() ==> (#[trigger] r.dividers@[i]).span.start
                == r.dividers@[i - 1].span.end,
            r.bass_windows@.len() == 4 && r.drum_windows@.len() == 4,
            forall|j: int| 0 <= j < 4 ==> (#[trigger] r.bass_windows@[j]).start
                == section.start + j * (section.spec_len() / 4)
                && r.bass_windows@[j].end
                    == section.start + (j + 1) * (section.spec_len() / 4),
            forall|j: int| 0 <= j < 4 ==> (#[trigger] r.drum_windows@[j]).start
                == section.start + j * (section.spec_len() / 4)
                && r.drum_windows@[j].end
                    == section.start + (j + 1) * (section.spec_len() / 4),
            r.melody_windows@.len() == melody_part_count,
            forall|p: int, w: int| 0 <= p < r.melody_windows@.len()
                && 0 <= w < r.melody_windows@[p]@.len() ==> {
                let win = #[trigger] r.melody_windows@[p]@[w];
                win.start < win.end && section.start <= win.start && win.end <= section.end
            },
            forall|p: int, k: int| 0 <= p < r.melody_windows@.len()
                && 0 <= k < r.dividers@.len()
                ==> (crate::arrangement::spec_divider_admitted(
                    Section::spec_ramp(*section, old(rng).seed(),
                        old(rng).count() as int + 1),
                    Section::spec_ramp(*section, old(rng).seed(),
                        old(rng).count() as int + 2),
                    1_000_000, p, (#[trigger] r.dividers@[k]).span)
                    <==> crate::arrangement::spec_covered(
                        (#[trigger] r.melody_windows@[p])@, r.dividers@[k].span)),
    {
        let dseed = rng.next_raw();
        let spans = section_dividers(section, ts, dseed);
        let mut dividers: Vec<PhraseDivider> = Vec::new();
        let mut i: usize = 0;
        while i < spans.len()
            invariant
                i <= spans@.len(),
                forall|k: int| 0 <= k < spans@.len()
                    ==> (#[trigger] spans@[k]).start < spans@[k].end,
                forall|k: int| 0 < k < spans@.len()
                    ==> (#[trigger] spans@[k]).start == spans@[k - 1].end,
                forall|k: int| 0 <= k < spans@.len()
                    ==> section.start <= (#[trigger] spans@[k]).start
                        && spans@[k].end <= section.end,
                dividers@.len() == i,
                forall|k: int| 0 <= k < i ==> (#[trigger] dividers@[k]).span == spans@[k],
            decreases spans@.len() - i,
        {
            let d = PhraseDivider { span: spans[i] };
            dividers.push(d);
            i = i + 1;
        }
        let bass_windows = Section::quarters(section);
        let drum_windows = Section::quarters(section);
        let len = section.len();
        let period = len / 4;
        let offset_a = rng.next_below(period as u64) as u32;
        let offset_b = rng.next_below(period as u64) as u32;
        let ramp_a = Sawtooth { period, offset: offset_a };
        let ramp_b = Sawtooth { period, offset: offset_b };
        proof {
            assert(ramp_a == Section::spec_ramp(*section, old(rng).seed(),
                old(rng).count() as int + 1));
            assert(ramp_b == Section::spec_ramp(*section, old(rng).seed(),
                old(rng).count() as int + 2));
        }
        let mut melody_windows: Vec<Vec<TimeSpan>> = Vec::new();
        let mut p: u32 = 0;
        while p < melody_part_count
            invariant
                p <= melody_part_count,
                ramp_a.wf(),
                ramp_b.wf(),
                forall|k: int| 0 <= k < spans@.len()
                    ==> (#[trigger] spans@[k]).start < spans@[k].end,
                forall|k: int| 0 < k < spans@.len()
                    ==> (#[trigger] spans@[k]).start == spans@[k - 1].end,
                forall|k: int| 0 <= k < spans@.len()
                    ==> section.start <= (#[trigger] spans@[k]).start
                        && spans@[k].end <= section.end,
                melody_windows@.len() == p,
                forall|pp: int, w: int| 0 <= pp < melody_windows@.len()
                    && 0 <= w < melody_windows@[pp]@.len() ==> {
                    let win = #[trigger] melody_windows@[pp]@[w];
                    win.start < win.end && section.start <= win.start
                        && win.end <= section.end
                },
                forall|pp: int, k: int| 0 <= pp < melody_windows@.len()
                    && 0 <= k < spans@.len()
                    ==> (crate::arrangement::spec_divider_admitted(ramp_a, ramp_b,
                        1_000_000, pp, #[trigger] spans@[k])
                        <==> crate::arrangement::spec_covered(
                            (#[trigger] melody_windows@[pp])@, spans@[k])),
            decreases melody_part_count - p,
        {
            let wins = ActivationWindows::windows_for(&ramp_a, &ramp_b, 1_000_000, p, &spans);
            proof {
                if spans@.len() > 0 {
                    assert(forall|w: int| 0 <= w < wins@.len() ==> {
                        let win = #[trigger] wins@[w];
                        section.start <= win.start && win.end <= section.end
                    });
                } else {
                    assert(wins@.len() == 0);
                }
            }
            melody_windows.push(wins);
            proof {
                let last = melody_windows@.len() - 1;
                assert(melody_windows@[last] == wins);
            }
            p = p + 1;
        }
        SectionPlan { dividers, bass_windows, drum_windows, melody_windows }
    }
}

} // verus!
