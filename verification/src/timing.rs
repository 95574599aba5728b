//! The time grid: spans of ticks and the time signature.

use vstd::prelude::*;

verus! {

/// A half-open span of ticks.
#[derive(Clone, Copy, Debug, PartialEq, Eq, Structural)]
pub struct TimeSpan {
    pub start: u32,
    pub end: u32,
}

impl TimeSpan {
    /// A span is well formed when it does not end before it starts.
    pub open spec fn wf(self) -> bool {
        self.start <= self.end
    }

    /// The length of the span in ticks.
    pub open spec fn spec_len(self) -> int {
        self.end - self.start
    }

    /// Builds a span.
    pub fn new(start: u32, end: u32) -> (r: TimeSpan)
        requires
            start <= end,
        ensures
            r.start == start,
            r.end == end,
            r.wf(),
    {
        TimeSpan { start, end }
    }

    /// Computes the length of the span in ticks.
    pub fn len(&self) -> (r: u32)
        requires
            self.wf(),
        ensures
            r == self.spec_len(),
    {
        self.end - self.start
    }

    /// Whether two spans share at least one tick.
    pub open spec fn spec_intersects(self, other: TimeSpan) -> bool {
        self.start < other.end && other.start < self.end
    }

    /// Decides whether two spans share at least one tick.
    pub fn intersects(&self, other: &TimeSpan) -> (r: bool)
        ensures
            r == self.spec_intersects(*other),
    {
        self.start < other.end && other.start < self.end
    }

    /// Whether a tick lies inside the span.
    pub open spec fn spec_contains(self, t: u32) -> bool {
        self.start <= t < self.end
    }

    /// Decides whether a tick lies inside the span.
    pub fn contains(&self, t: u32) -> (r: bool)
        ensures
            r == self.spec_contains(t),
    {
        self.start <= t && t < self.end
    }
}

/// A sequence of spans partitions a window when the spans are non-empty and
/// contiguous from the window's start to its end.
pub open spec fn spec_partitions(spans: Seq<TimeSpan>, window: TimeSpan) -> bool {
    &&& spans.len() > 0
    &&& spans[0].start == window.start
    &&& spans[spans.len() - 1].end == window.end
    &&& forall|i: int| 0 <= i < spans.len() ==> (#[trigger] spans[i]).start < spans[i].end
    &&& forall|i: int| 0 < i < spans.len() ==> (#[trigger] spans[i]).start == spans[i - 1].end
}

/// Beats per bar and ticks per beat.
#[derive(Clone, Copy, Debug, PartialEq, Eq, Structural)]
pub struct TimeSignature {
    pub beats_per_bar: u32,
    pub beat_length: u32,
}

impl TimeSignature {
    /// A time signature is well formed when a bar holds at least two beats,
    /// a beat is divisible down to its quarter, and four bars of ticks stay
    /// well inside the tick arithmetic range.
    pub open spec fn wf(self) -> bool {
        &&& 2 <= self.beats_per_bar <= 13
        &&& self.beat_length >= 4
        &&& self.beat_length % 4 == 0
        &&& self.beat_length <= 0x10000
    }

    /// Ticks per bar.
    pub open spec fn spec_bar(self) -> int {
        self.beats_per_bar * self.beat_length
    }

    /// Computes the ticks per bar.
    pub fn bar(&self) -> (r: u32)
        requires
            self.wf(),
        ensures
            r == self.spec_bar(),
            8 <= r <= 13 * 0x10000,
    {
        proof {
            assert(self.beats_per_bar * self.beat_length <= 13 * 0x10000) by (nonlinear_arith)
                requires self.beats_per_bar <= 13 && self.beat_length <= 0x10000;
            assert(self.beats_per_bar * self.beat_length >= 8) by (nonlinear_arith)
                requires self.beats_per_bar >= 2 && self.beat_length >= 4;
        }
        self.beats_per_bar * self.beat_length
    }

    /// Computes the ticks of `n` bars.
    pub fn bars(&self, n: u32) -> (r: u32)
        requires
            self.wf(),
            n <= 8,
        ensures
            r == n * self.spec_bar(),
            r <= 8 * 13 * 0x10000,
            n >= 1 ==> r >= 8,
    {
        let b = self.bar();
        proof {
            assert(n * (self.beats_per_bar * self.beat_length) <= 8 * 13 * 0x10000)
                by (nonlinear_arith)
                requires n <= 8 && 0 <= self.beats_per_bar * self.beat_length <= 13 * 0x10000;
            assert(n * (self.beats_per_bar * self.beat_length) >= 0) by (nonlinear_arith)
                requires n >= 0 && self.beats_per_bar * self.beat_length >= 0;
            assert(n >= 1 ==> n * (self.beats_per_bar * self.beat_length) >= 8)
                by (nonlinear_arith)
                requires self.beats_per_bar * self.beat_length >= 8;
        }
        n * b
    }

    /// Ticks per half beat.
    pub open spec fn spec_half_beat(self) -> int {
        self.beat_length as int / 2
    }

    /// Computes the ticks per half beat.
    pub fn half_beat(&self) -> (r: u32)
        requires
            self.wf(),
        ensures
            r == self.spec_half_beat(),
            2 <= r <= 0x8000,
    {
        self.beat_length / 2
    }

    /// Ticks per quarter beat.
    pub open spec fn spec_quarter_beat(self) -> int {
        self.beat_length as int / 4
    }

    /// Computes the ticks per quarter beat.
    pub fn quarter_beat(&self) -> (r: u32)
        requires
            self.wf(),
        ensures
            r == self.spec_quarter_beat(),
            1 <= r <= 0x4000,
    {
        self.beat_length / 4
    }
}

} // verus!
