//! The composition root: one seed in, a fully decided arrangement out.
//!
//! The root model draws the composition-wide parameters, splits the window
//! into sections, and renders each section with its own derived sub-seed:
//! the chord progression, the chord markers, the structural plan, the
//! percussion hits, the bass line (planned as run and key-note directives
//! and realized through the directive translator), and one melody line per
//! melodic part, the lead part's planned starts thinning the extras'
//! choices.  Every random decision descends from the root seed through
//! named derived seeds, so the whole composition is reproducible from the
//! seed alone.

use vstd::prelude::*;
use crate::error::RenderError;
use crate::melody::{MelodicContext, MelodyLine, PlacedNote};
use crate::orchestration::{Instrumentation, RandomInstrumentation};
use crate::parts::{realize_directives, BassPart, MelodyPart};
use crate::percussion::{DrumHit, DrumPart};
use crate::progression::{ChordMarkers, ChordProgression, RandomChordProgression};
use crate::rng::{RandomSource, derive_seed};
use crate::structure::{Section, SectionPlan, SectionSplit, Sections};
use crate::theory::{Chord, Key};
use crate::timing::{TimeSignature, TimeSpan};
use crate::util::{RandomKey, RandomTempo, RandomTimeSignature};

verus! {

/// Everything decided for one section.
pub struct SectionRender {
    /// The ticks the section covers.
    pub span: TimeSpan,
    /// The section's chord progression.
    pub progression: ChordProgression,
    /// The progression cycled over the section.
    pub markers: Vec<(Chord, TimeSpan)>,
    /// Phrase dividers and per-part windows.
    pub plan: SectionPlan,
    /// The percussion hits of the section.
    pub drum_hits: Vec<DrumHit>,
    /// The bass line's notes.
    pub bass_notes: Vec<PlacedNote>,
    /// One note list per melodic part, the lead first.
    pub melody_notes: Vec<Vec<PlacedNote>>,
}

/// A fully decided composition.
pub struct CompositionPlan {
    /// The composition's key.
    pub key: Key,
    /// The composition's time signature.
    pub ts: TimeSignature,
    /// Beats per minute.
    pub tempo: u32,
    /// The instruments in play.
    pub instrumentation: Instrumentation,
    /// The rendered sections, in order.
    pub sections: Vec<SectionRender>,
}

/// The root element of a composition.
pub struct Composition;

impl Composition {
    /// Renders a whole composition from a window and a seed.
    ///
    /// The key, time signature, tempo and instrumentation come from the
    /// root stream (the key from positions zero through two, the beat count
    /// from position three, the tempo from position four); each section is
    /// rendered from its own seed derived from the root seed and the
    /// section's index, so re-rendering with the same window, beat length
    /// and seed reproduces the composition exactly.  Fails exactly when
    /// some section's chord model decides nothing under its derived seed.
    pub fn render(window: &TimeSpan, beat_length: u32, seed: u64)
        -> (r: Result<CompositionPlan, RenderError>)
        requires
            window.wf(),
            window.start == 0,
            16 <= window.end <= 0xF000_0000,
            4 <= beat_length <= 0x10000,
            beat_length % 4 == 0,
        ensures
            match r {
                Result::Ok(p) => {
                    &&& p.key == crate::util::spec_drawn_key(seed, 0)
                    &&& p.ts == crate::util::spec_drawn_ts(beat_length, seed, 3)
                    &&& p.tempo == 90 + crate::rng::scaled_draw(seed, 4, 71)
                    &&& p.key.wf()
                    &&& p.ts.wf()
                    &&& p.ts.beat_length == beat_length
                    &&& 90 <= p.tempo <= 160
                    &&& forall|s: int| 0 <= s < p.sections@.len() ==> {
                        let sec = #[trigger] p.sections@[s];
                        window.start <= sec.span.start < sec.span.end <= window.end
                            && sec.progression.wf(p.ts)
                    }
                },
                Result::Err(_) => exists|i: int| 0 <= i
                    && crate::progression::spec_progression(
                        crate::util::spec_drawn_key(seed, 0),
                        crate::util::spec_drawn_ts(beat_length, seed, 3),
                        #[trigger] crate::rng::derived_seed(seed, i as u64), 0) is None,
            },
    {
        let mut root = RandomSource::from_seed(seed);
        let key = RandomKey::generate(&mut root);
        let ts = RandomTimeSignature::generate(beat_length, &mut root);
        let tempo = RandomTempo::generate(&mut root);
        let instrumentation = RandomInstrumentation::generate(&mut root);
        let spans = match Sections::split(window, &ts, &mut root) {
            SectionSplit::Single(s) => {
                let mut v: Vec<TimeSpan> = Vec::new();
                v.push(s);
                v
            },
            SectionSplit::Divided(parts) => parts,
        };
        proof {
            assert forall|k: int| 0 <= k < spans@.len() implies {
                let sp = #[trigger] spans@[k];
                sp.start < sp.end && window.start <= sp.start && sp.end <= window.end
            } by {
                if spans@.len() > 1 {
                    crate::arrangement::lemma_chain_ascending(spans@, k);
                    crate::structure::lemma_chain_end_bound(spans@, k);
                }
            }
        }
        let melody_part_count: u32 = 3;
        let mut sections: Vec<SectionRender> = Vec::new();
        let mut i: usize = 0;
        while i < spans.len()
            invariant
                i <= spans@.len(),
                key.wf(),
                ts.wf(),
                window.wf(),
                window.start == 0,
                16 <= window.end <= 0xF000_0000,
                forall|k: int| 0 <= k < spans@.len() ==> {
                    let sp = #[trigger] spans@[k];
                    sp.start < sp.end && window.start <= sp.start && sp.end <= window.end
                },
                forall|s: int| 0 <= s < sections@.len() ==> {
                    let sec = #[trigger] sections@[s];
                    window.start <= sec.span.start < sec.span.end <= window.end
                        && sec.progression.wf(ts)
                },
                melody_part_count <= 16,
                key == crate::util::spec_drawn_key(seed, 0),
                ts == crate::util::spec_drawn_ts(beat_length, seed, 3),
            decreases spans@.len() - i,
        {
            let span = spans[i];
            let section_seed = derive_seed(seed, i as u64);
            match Self::render_section(&span, &key, &ts, melody_part_count,
                &instrumentation, section_seed) {
                Result::Ok(sec) => {
                    sections.push(sec);
                },
                Result::Err(e) => {
                    proof {
                        assert(crate::progression::spec_progression(
                            crate::util::spec_drawn_key(seed, 0),
                            crate::util::spec_drawn_ts(beat_length, seed, 3),
                            crate::rng::derived_seed(seed, i as u64), 0) is None);
                    }
                    return Result::Err(e);
                },
            }
            i = i + 1;
        }
        Result::Ok(CompositionPlan { key, ts, tempo, instrumentation, sections })
    }

    /// Renders one section from its own seed.  Fails exactly when the
    /// chord model decides nothing at the start of the section's stream.
    #[verifier::rlimit(100)]
    fn render_section(
        span: &TimeSpan,
        key: &Key,
        ts: &TimeSignature,
        melody_part_count: u32,
        instrumentation: &Instrumentation,
        section_seed: u64,
    ) -> (r: Result<SectionRender, RenderError>)
        requires
            span.wf(),
            span.start < span.end,
            span.end <= 0xF000_0000,
            key.wf(),
            ts.wf(),
            melody_part_count <= 16,
        ensures
            match r {
                Result::Ok(sec) => sec.span == *span && sec.progression.wf(*ts),
                Result::Err(_) => crate::progression::spec_progression(*key, *ts,
                    section_seed, 0) is None,
            },
    {
        let mut rng = RandomSource::from_seed(section_seed);
        let progression = match RandomChordProgression::generate(key, ts, &mut rng) {
            Result::Ok(p) => p,
            Result::Err(e) => {
                return Result::Err(e);
            },
        };
        let markers = ChordMarkers::place(&progression, span, ts);
        let plan = if span.len() >= 4 {
            Section::plan(span, ts, melody_part_count, &mut rng)
        } else {
            SectionPlan {
                dividers: Vec::new(),
                bass_windows: Vec::new(),
                drum_windows: Vec::new(),
                melody_windows: Vec::new(),
            }
        };
        let q = ts.quarter_beat();
        let bar = ts.bar();
        let mut divider_spans: Vec<TimeSpan> = Vec::new();
        let mut d: usize = 0;
        while d < plan.dividers.len()
            invariant
                d <= plan.dividers@.len(),
                span.wf(),
                span.end <= 0xF000_0000,
                q >= 1,
                q <= 0x4000,
                forall|k: int| 0 <= k < plan.dividers@.len() ==> {
                    let dv = (#[trigger] plan.dividers@[k]).span;
                    dv.start < dv.end && span.start <= dv.start && dv.end <= span.end
                },
                forall|k: int| 0 <= k < divider_spans@.len() ==> {
                    let dv = #[trigger] divider_spans@[k];
                    dv.wf() && span.start <= dv.start && dv.end <= 0xF000_0000
                        && dv.spec_len() <= (q as int) * 0x10000
                },
            decreases plan.dividers@.len() - d,
        {
            let dv = plan.dividers[d].span;
            let keep: bool = {
                let long: u64 = (dv.end - dv.start) as u64;
                long <= (q as u64) * 0x10000
            };
            if keep {
                divider_spans.push(dv);
            }
            d = d + 1;
        }
        let drum_hits = DrumPart::place_hits(&divider_spans, span.start, bar, q,
            derive_seed(section_seed, 0x1_0000_0000));
        let hb = ts.half_beat();
        let (bass_notes, lead_classes) = Self::plan_part_lines(key, &markers,
            &divider_spans, instrumentation.bass, instrumentation.melody, section_seed);
        let mut melody_notes: Vec<Vec<PlacedNote>> = Vec::new();
        let mut p: usize = 0;
        while p < plan.melody_windows.len()
            invariant
                p <= plan.melody_windows@.len(),
                plan.melody_windows@.len() <= 16,
                key.wf(),
                2 <= hb <= 0x8000,
                forall|k: int| 0 <= k < markers@.len() ==> {
                    let (c, sp) = #[trigger] markers@[k];
                    c.wf() && sp.wf()
                },
            decreases plan.melody_windows@.len() - p,
        {
            let mut sustained: Vec<u8> = Vec::new();
            if p > 0 {
                let mut cidx: usize = 0;
                while cidx < lead_classes.len()
                    invariant
                        cidx <= lead_classes@.len(),
                    decreases lead_classes@.len() - cidx,
                {
                    sustained.push(lead_classes[cidx]);
                    cidx = cidx + 1;
                }
            }
            let ctx = MelodicContext {
                key: *key,
                half_beat: hb,
                low: 55,
                high: 91,
                sustained,
                colliding: Vec::new(),
                primary: p == 0,
            };
            let notes = Self::render_windows(&plan.melody_windows[p], &markers, &ctx,
                derive_seed(section_seed, 0x3_0000_0000 + p as u64));
            melody_notes.push(notes);
            p = p + 1;
        }
        Result::Ok(SectionRender {
            span: *span,
            progression,
            markers,
            plan,
            drum_hits,
            bass_notes,
            melody_notes,
        })
    }

    /// Plans the section's bass line and the lead part's start classes: the
    /// bass directives are planned against the markers and dividers and
    /// realized through the directive translator, and the lead's planned
    /// key-note starts are reduced to their pitch classes, which thin the
    /// extra parts' choices.  Oversized marker or divider lists (beyond the
    /// planners' bounds) plan nothing.
    fn plan_part_lines(
        key: &Key,
        markers: &Vec<(Chord, TimeSpan)>,
        divider_spans: &Vec<TimeSpan>,
        bass_program: u8,
        lead_program: u8,
        section_seed: u64,
    ) -> (r: (Vec<PlacedNote>, Vec<u8>))
        requires
            key.wf(),
            forall|k: int| 0 <= k < markers@.len() ==> {
                let (c, sp) = #[trigger] markers@[k];
                c.wf() && sp.wf()
            },
            forall|k: int| 0 <= k < divider_spans@.len()
                ==> (#[trigger] divider_spans@[k]).wf(),
        ensures
            forall|k: int| 0 <= k < r.0@.len() ==> {
                let n = #[trigger] r.0@[k];
                84 <= n.velocity <= 106
                    && (36 + key.root <= n.pitch <= 56 + key.root
                        || key.spec_contains(crate::theory::note_pitch_class(n.pitch)))
            },
    {
        let bass_notes = if markers.len() <= 0x10000 {
            let bass = BassPart::new(bass_program);
            let mut brng = RandomSource::from_seed(derive_seed(section_seed,
                0x2_0000_0000));
            let directives = bass.plan_directives(key, &markers, &divider_spans,
                &mut brng);
            proof {
                assert(forall|e: int| 0 <= e < directives@.len()
                    ==> (#[trigger] directives@[e]).0.spec_note() <= 125);
            }
            if directives.len() <= 0x20000 {
                realize_directives(key, &directives, &mut brng)
            } else {
                Vec::new()
            }
        } else {
            Vec::new()
        };
        let lead_starts: Vec<(u8, TimeSpan)> = if divider_spans.len() <= 0x10000 {
            let lead = MelodyPart::new(lead_program);
            let empty_taken: Vec<(u8, TimeSpan)> = Vec::new();
            let mut srng = RandomSource::from_seed(derive_seed(section_seed,
                0x4_0000_0000));
            lead.plan_starts(&markers, &divider_spans, &empty_taken, &mut srng)
        } else {
            Vec::new()
        };
        let mut lead_classes: Vec<u8> = Vec::new();
        let mut sidx: usize = 0;
        while sidx < lead_starts.len()
            invariant
                sidx <= lead_starts@.len(),
            decreases lead_starts@.len() - sidx,
        {
            let (n, _) = lead_starts[sidx];
            lead_classes.push(n % 12);
            sidx = sidx + 1;
        }
        (bass_notes, lead_classes)
    }

    /// Renders the melody lines of one part's activation windows, each from
    /// its own derived seed; windows the duration menu cannot fill are
    /// skipped.
    fn render_windows(
        windows: &Vec<TimeSpan>,
        markers: &Vec<(Chord, TimeSpan)>,
        ctx: &MelodicContext,
        base_seed: u64,
    ) -> (r: Vec<PlacedNote>)
        requires
            ctx.wf(),
            2 <= ctx.half_beat <= 0x8000,
            forall|k: int| 0 <= k < markers@.len() ==> {
                let (c, sp) = #[trigger] markers@[k];
                c.wf() && sp.wf()
            },
        ensures
            forall|i: int| 0 <= i < r@.len() ==> {
                let n = #[trigger] r@[i];
                ctx.low <= n.pitch <= ctx.high
                    && ctx.key.spec_contains(crate::theory::note_pitch_class(n.pitch))
            },
    {
        let mut out: Vec<PlacedNote> = Vec::new();
        let mut w: usize = 0;
        while w < windows.len()
            invariant
                w <= windows@.len(),
                ctx.wf(),
                2 <= ctx.half_beat <= 0x8000,
                forall|k: int| 0 <= k < markers@.len() ==> {
                    let (c, sp) = #[trigger] markers@[k];
                    c.wf() && sp.wf()
                },
                forall|i: int| 0 <= i < out@.len() ==> {
                    let n = #[trigger] out@[i];
                    ctx.low <= n.pitch <= ctx.high
                        && ctx.key.spec_contains(crate::theory::note_pitch_class(n.pitch))
                },
            decreases windows@.len() - w,
        {
            let win = windows[w];
            let usable = win.start < win.end && win.end <= 0xF000_0000
                && (win.end - win.start) % ctx.half_beat == 0
                && (win.end - win.start) >= 4 * (ctx.half_beat as u64) as u32
                && (win.end - win.start) <= 8 * 13 * 0x10000;
            if usable {
                let mut wrng = RandomSource::from_seed(derive_seed(base_seed, w as u64));
                let notes = MelodyLine::generate(&win, markers, ctx, &mut wrng);
                let mut j: usize = 0;
                while j < notes.len()
                    invariant
                        j <= notes@.len(),
                        ctx.wf(),
                        forall|i: int| 0 <= i < notes@.len() ==> {
                            let n = #[trigger] notes@[i];
                            ctx.low <= n.pitch <= ctx.high
                                && ctx.key.spec_contains(
                                    crate::theory::note_pitch_class(n.pitch))
                        },
                        forall|i: int| 0 <= i < out@.len() ==> {
                            let n = #[trigger] out@[i];
                            ctx.low <= n.pitch <= ctx.high
                                && ctx.key.spec_contains(
                                    crate::theory::note_pitch_class(n.pitch))
                        },
                    decreases notes@.len() - j,
                {
                    let n = notes[j];
                    out.push(n);
                    j = j + 1;
                }
            }
            w = w + 1;
        }
        out
    }
}

} // verus!
