use procomposer::harmony::{decay, harmonic_presence, mul_unit, transition_weight};
use procomposer::melody::{sample_note, wave, MelodicContext, MelodicSlot};
use procomposer::orchestration::{pick_from_bank, RandomInstrumentation};
use procomposer::percussion::{forced_hit, generate_pattern, DrumHitKind, DrumPart};
use procomposer::progression::{ChordMarkers, RandomChordProgression, MAX_CHORDS, MIN_CHORDS};
use procomposer::rng::{derive_seed, RandomSource};
use procomposer::structure::{Section, SectionSplit, Sections};
use procomposer::theory::{
    pitch_distance, scale_notes_in_range, triads_in_key, Chord, ChordKind, Key, Mode, Scale,
};
use procomposer::timing::{TimeSignature, TimeSpan};
use procomposer::util::{RandomKey, RandomTempo, RandomTimeSignature};

fn c_major() -> Key {
    Key { root: 0, scale: Scale::Major, mode: Mode::Ionian }
}

fn four_four() -> TimeSignature {
    TimeSignature { beats_per_bar: 4, beat_length: 480 }
}

#[test]
fn c_major_triads_are_the_seven_degree_chords() {
    let triads = triads_in_key(&c_major());
    let expected = vec![
        Chord { root: 0, kind: ChordKind::Major },
        Chord { root: 2, kind: ChordKind::Minor },
        Chord { root: 4, kind: ChordKind::Minor },
        Chord { root: 5, kind: ChordKind::Major },
        Chord { root: 7, kind: ChordKind::Major },
        Chord { root: 9, kind: ChordKind::Minor },
        Chord { root: 11, kind: ChordKind::Diminished },
    ];
    assert_eq!(triads, expected);
}

#[test]
fn c_major_scale_membership() {
    let key = c_major();
    for pc in [0u8, 2, 4, 5, 7, 9, 11] {
        assert!(key.contains(pc));
    }
    for pc in [1u8, 3, 6, 8, 10] {
        assert!(!key.contains(pc));
    }
}

#[test]
fn middle_octave_of_c_major() {
    let notes = scale_notes_in_range(&c_major(), 60, 72);
    assert_eq!(notes, vec![60, 62, 64, 65, 67, 69, 71, 72]);
}

#[test]
fn pitch_distance_is_the_short_way_round() {
    assert_eq!(pitch_distance(0, 7), 5);
    assert_eq!(pitch_distance(7, 0), 5);
    assert_eq!(pitch_distance(0, 6), 6);
    assert_eq!(pitch_distance(3, 3), 0);
    assert_eq!(pitch_distance(11, 0), 1);
}

#[test]
fn harmonic_presence_fixed_points() {
    assert_eq!(harmonic_presence(0), 1_000_000);
    assert_eq!(harmonic_presence(7), 707_107);
    assert_eq!(harmonic_presence(4), 433_733);
    assert_eq!(harmonic_presence(5), 148_955);
}

#[test]
fn decay_and_unit_products() {
    assert_eq!(decay(0), 1_000_000);
    assert_eq!(decay(1), 600_000);
    assert_eq!(decay(2), 360_000);
    assert_eq!(mul_unit(500_000, 500_000), 250_000);
    assert_eq!(mul_unit(1_000_000, 123_456), 123_456);
}

#[test]
fn transition_weight_is_positive_between_strong_chords() {
    let key = c_major();
    let tonic = Chord { root: 0, kind: ChordKind::Major };
    let dominant = Chord { root: 7, kind: ChordKind::Major };
    let w = transition_weight(&key, Some(&dominant), &tonic);
    assert!(w > 0);
    assert!(w <= 1_000_000);
    // Repeating the same root is discouraged by the base factor.
    let w_same = transition_weight(&key, Some(&tonic), &tonic);
    assert!(w_same < w);
}

#[test]
fn wave_fixed_points() {
    assert_eq!(wave(0), 0);
    assert_eq!(wave(500_000), 1_000_000);
    assert_eq!(wave(250_000), 500_000);
}

#[test]
fn raw_stream_is_reproducible_and_scaled_draws_stay_below_bound() {
    let mut a = RandomSource::from_seed(42);
    let mut b = RandomSource::from_seed(42);
    for _ in 0..64 {
        assert_eq!(a.next_raw(), b.next_raw());
    }
    let mut c = RandomSource::from_seed(7);
    for _ in 0..256 {
        let v = c.next_below(13);
        assert!(v < 13);
    }
}

#[test]
fn derived_seeds_are_reproducible_and_spread() {
    assert_eq!(derive_seed(5, 1), derive_seed(5, 1));
    assert_ne!(derive_seed(5, 1), derive_seed(5, 2));
    assert_ne!(derive_seed(5, 1), derive_seed(6, 1));
}

#[test]
fn weighted_pick_follows_the_weights() {
    // Statistical correctness: under a fixed seed sequence the pick
    // frequencies converge to the normalized weights.
    let weights: Vec<u64> = vec![1, 1, 8, 4];
    let mut counts = [0u64; 4];
    let trials = 20_000u64;
    for s in 0..trials {
        let mut rng = RandomSource::from_seed(s);
        let picked = rng.pick_weighted(&weights).unwrap();
        counts[picked] += 1;
    }
    let total: u64 = counts.iter().sum();
    assert_eq!(total, trials);
    for (i, w) in weights.iter().enumerate() {
        let expected = trials * w / 14;
        let got = counts[i];
        let tolerance = trials / 20;
        assert!(got + tolerance >= expected && got <= expected + tolerance);
    }
}

#[test]
fn weighted_pick_never_picks_zero_weight() {
    let weights: Vec<u64> = vec![0, 3, 0, 5, 0];
    for s in 0..500u64 {
        let mut rng = RandomSource::from_seed(s);
        let picked = rng.pick_weighted(&weights).unwrap();
        assert!(picked == 1 || picked == 3);
    }
    let zeros: Vec<u64> = vec![0, 0, 0];
    let mut rng = RandomSource::from_seed(1);
    assert!(rng.pick_weighted(&zeros).is_none());
}

#[test]
fn progression_length_membership_and_loop_weight() {
    let key = c_major();
    let ts = four_four();
    for seed in 0..20u64 {
        let mut rng = RandomSource::from_seed(seed);
        let p = RandomChordProgression::generate(&key, &ts, &mut rng).unwrap();
        assert!(p.chords.len() >= MIN_CHORDS && p.chords.len() <= MAX_CHORDS);
        for c in &p.chords {
            for pc in c.pitch_classes() {
                assert!(key.contains(pc));
            }
        }
        let last = p.chords[p.chords.len() - 1];
        let w = transition_weight(&key, Some(&last), &p.chords[0]);
        assert!(w > 0);
        // The rhythm partitions four bars, one span per chord.
        assert_eq!(p.rhythm.len(), p.chords.len());
        assert_eq!(p.rhythm[0].start, 0);
        assert_eq!(p.rhythm[p.rhythm.len() - 1].end, 4 * ts.bar());
        for i in 1..p.rhythm.len() {
            assert_eq!(p.rhythm[i].start, p.rhythm[i - 1].end);
        }
    }
}

#[test]
fn progression_is_deterministic_in_the_seed() {
    let key = c_major();
    let ts = four_four();
    let mut r1 = RandomSource::from_seed(1234);
    let mut r2 = RandomSource::from_seed(1234);
    let a = RandomChordProgression::generate(&key, &ts, &mut r1).unwrap();
    let b = RandomChordProgression::generate(&key, &ts, &mut r2).unwrap();
    assert_eq!(a.chords, b.chords);
    assert_eq!(a.rhythm, b.rhythm);
}

#[test]
fn progression_in_c_major_starts_on_a_strong_degree() {
    // End-to-end scenario: C major, a four-bar section, a fixed seed whose
    // progression starts on the first, fourth, fifth or sixth degree.
    let key = c_major();
    let ts = four_four();
    let strong = [0u8, 5, 7, 9];
    let mut chosen_seed = None;
    for seed in 0..200u64 {
        let mut rng = RandomSource::from_seed(seed);
        if let Ok(p) = RandomChordProgression::generate(&key, &ts, &mut rng) {
            if strong.contains(&p.chords[0].root) {
                chosen_seed = Some(seed);
                break;
            }
        }
    }
    let seed = chosen_seed.expect("some seed starts on a strong degree");
    let mut r1 = RandomSource::from_seed(seed);
    let p1 = RandomChordProgression::generate(&key, &ts, &mut r1).unwrap();
    assert!(strong.contains(&p1.chords[0].root));
    assert!(p1.chords.len() >= 2 && p1.chords.len() <= 6);
    let last = p1.chords[p1.chords.len() - 1];
    assert!(transition_weight(&key, Some(&last), &p1.chords[0]) > 0);
    let mut r2 = RandomSource::from_seed(seed);
    let p2 = RandomChordProgression::generate(&key, &ts, &mut r2).unwrap();
    assert_eq!(p1.chords, p2.chords);
    assert_eq!(p1.rhythm, p2.rhythm);
}

#[test]
fn chord_markers_cycle_the_progression() {
    let key = c_major();
    let ts = four_four();
    let mut rng = RandomSource::from_seed(5);
    let p = RandomChordProgression::generate(&key, &ts, &mut rng).unwrap();
    let section = TimeSpan { start: 0, end: 8 * ts.bar() };
    let markers = ChordMarkers::place(&p, &section, &ts);
    assert!(!markers.is_empty());
    for (i, (chord, span)) in markers.iter().enumerate() {
        assert_eq!(*chord, p.chords[i % p.chords.len()]);
        assert!(span.start < span.end);
        assert!(span.end <= section.end);
    }
}

#[test]
fn sampled_notes_stay_in_band_and_scale() {
    let key = c_major();
    let slot = MelodicSlot {
        span: TimeSpan { start: 960, end: 1200 },
        phrase: TimeSpan { start: 0, end: 3840 },
        prev_note: Some(64),
        current_chord: Chord { root: 0, kind: ChordKind::Major },
        prev_chord: Some(Chord { root: 7, kind: ChordKind::Major }),
        next_chord: Some(Chord { root: 5, kind: ChordKind::Major }),
        next_chord_start: 1200,
    };
    for seed in 0..50u64 {
        let ctx = MelodicContext {
            key,
            half_beat: 240,
            low: 55,
            high: 91,
            sustained: vec![4],
            colliding: vec![7],
            primary: true,
        };
        let mut rng = RandomSource::from_seed(seed);
        let note = sample_note(&slot, &ctx, &mut rng).unwrap();
        assert!(note.pitch >= 55 && note.pitch <= 91);
        assert!(key.contains(note.pitch % 12));
        assert!(note.velocity >= 80 && note.velocity <= 110);
        assert_eq!(note.span, slot.span);
    }
}

#[test]
fn sampling_is_deterministic_and_fails_without_candidates() {
    let key = c_major();
    let slot = MelodicSlot {
        span: TimeSpan { start: 0, end: 240 },
        phrase: TimeSpan { start: 0, end: 3840 },
        prev_note: None,
        current_chord: Chord { root: 0, kind: ChordKind::Major },
        prev_chord: None,
        next_chord: None,
        next_chord_start: 0,
    };
    let ctx = MelodicContext {
        key,
        half_beat: 240,
        low: 60,
        high: 72,
        sustained: vec![],
        colliding: vec![],
        primary: false,
    };
    let mut r1 = RandomSource::from_seed(99);
    let mut r2 = RandomSource::from_seed(99);
    let a = sample_note(&slot, &ctx, &mut r1).unwrap();
    let b = sample_note(&slot, &ctx, &mut r2).unwrap();
    assert_eq!(a, b);
    // A band holding no scale note reports missing context.
    let empty_ctx = MelodicContext {
        key,
        half_beat: 240,
        low: 61,
        high: 61,
        sustained: vec![],
        colliding: vec![],
        primary: false,
    };
    let mut r3 = RandomSource::from_seed(99);
    let err = sample_note(&slot, &empty_ctx, &mut r3);
    assert!(err.is_err());
    assert!(err.err().unwrap().reason().contains("candidates"));
}

#[test]
fn same_duration_dividers_share_the_body_pattern() {
    // Two dividers of equal duration use the same pattern seed, so their
    // body patterns coincide; the forced downbeats are keyed by position.
    let seed = 77u64;
    let pattern_base = derive_seed(seed, 0);
    let duration = 960u32;
    let q = 120u32;
    let a = generate_pattern(derive_seed(pattern_base, duration as u64), duration / q);
    let b = generate_pattern(derive_seed(pattern_base, duration as u64), duration / q);
    assert_eq!(a, b);
    assert_eq!(a.len(), (duration / q) as usize);
}

#[test]
fn percussion_hits_cover_dividers_with_forced_downbeats() {
    let seed = 31u64;
    let dividers = vec![
        TimeSpan { start: 0, end: 960 },
        TimeSpan { start: 960, end: 1920 },
        TimeSpan { start: 1920, end: 2400 },
    ];
    let q = 120u32;
    let bar = 1920u32;
    let hits = DrumPart::place_hits(&dividers, 0, bar, q, seed);
    let again = DrumPart::place_hits(&dividers, 0, bar, q, seed);
    assert_eq!(hits, again);
    assert!(!hits.is_empty());
    let forced_base = derive_seed(seed, 1);
    // The first hit of each divider carries its forced downbeat kind.
    for (idx, div) in dividers.iter().enumerate() {
        let first = hits.iter().find(|h| h.span.start >= div.start && h.span.end <= div.end);
        let aligned = (div.start - 0) % bar == 0;
        let expected = forced_hit(forced_base, idx as u64, aligned);
        assert_eq!(first.unwrap().kind, expected);
    }
    // Bar-aligned dividers force the bass drum.
    let first_hit = hits.iter().find(|h| h.span.start == 0).unwrap();
    assert_eq!(first_hit.kind, DrumHitKind::BassDrum);
    for h in &hits {
        assert!(h.velocity >= 90 && h.velocity < 110);
    }
}

#[test]
fn sections_split_short_windows_whole() {
    let ts = four_four();
    let window = TimeSpan { start: 0, end: ts.bar() * 4 };
    let mut rng = RandomSource::from_seed(3);
    match Sections::split(&window, &ts, &mut rng) {
        SectionSplit::Single(s) => assert_eq!(s, window),
        SectionSplit::Divided(_) => panic!("a four-bar window must not split"),
    }
}

#[test]
fn sections_split_long_windows_evenly() {
    let ts = four_four();
    let window = TimeSpan { start: 0, end: ts.bar() * 64 };
    let mut rng = RandomSource::from_seed(3);
    match Sections::split(&window, &ts, &mut rng) {
        SectionSplit::Single(_) => panic!("a sixty-four-bar window must split"),
        SectionSplit::Divided(parts) => {
            assert!(parts.len() >= 2);
            assert_eq!(parts[0].start, 0);
            for i in 1..parts.len() {
                assert_eq!(parts[i].start, parts[i - 1].end);
                assert_eq!(
                    parts[i].end - parts[i].start,
                    parts[0].end - parts[0].start
                );
            }
        },
    }
}

#[test]
fn section_plan_dividers_are_contiguous_inside_the_section() {
    let ts = four_four();
    let section = TimeSpan { start: 1920, end: 1920 + 8 * ts.bar() };
    let mut rng = RandomSource::from_seed(11);
    let plan = Section::plan(&section, &ts, 3, &mut rng);
    assert!(!plan.dividers.is_empty());
    assert_eq!(plan.dividers[0].span.start, section.start);
    for i in 1..plan.dividers.len() {
        assert_eq!(plan.dividers[i].span.start, plan.dividers[i - 1].span.end);
    }
    for d in &plan.dividers {
        assert!(d.span.start < d.span.end);
        assert!(d.span.end <= section.end);
    }
    assert_eq!(plan.bass_windows.len(), 4);
    assert_eq!(plan.melody_windows.len(), 3);
    for wins in &plan.melody_windows {
        for w in wins {
            assert!(w.start < w.end);
            assert!(w.start >= section.start && w.end <= section.end);
        }
    }
}

#[test]
fn random_parameters_are_deterministic_and_in_range() {
    let mut r1 = RandomSource::from_seed(8);
    let mut r2 = RandomSource::from_seed(8);
    let k1 = RandomKey::generate(&mut r1);
    let k2 = RandomKey::generate(&mut r2);
    assert_eq!(k1, k2);
    assert!(k1.root < 12);
    let ts1 = RandomTimeSignature::generate(480, &mut r1);
    let ts2 = RandomTimeSignature::generate(480, &mut r2);
    assert_eq!(ts1, ts2);
    assert!([2, 3, 4, 5, 6, 7, 9, 11, 13].contains(&ts1.beats_per_bar));
    assert_eq!(ts1.beat_length, 480);
    let t1 = RandomTempo::generate(&mut r1);
    let t2 = RandomTempo::generate(&mut r2);
    assert_eq!(t1, t2);
    assert!((90..=160).contains(&t1));
}

#[test]
fn instrumentation_extras_are_distinct() {
    for seed in 0..50u64 {
        let mut rng = RandomSource::from_seed(seed);
        let inst = RandomInstrumentation::generate(&mut rng);
        assert!(inst.melody < 128 && inst.bass < 128 && inst.drums < 128);
        assert_eq!(inst.extras.len(), 2);
        assert_ne!(inst.extras[0], inst.melody);
        assert_ne!(inst.extras[1], inst.melody);
        assert_ne!(inst.extras[0], inst.extras[1]);
    }
}

#[test]
fn empty_bank_reports_missing_context() {
    let empty: Vec<u8> = vec![];
    let mut rng = RandomSource::from_seed(1);
    let r = pick_from_bank(&empty, &mut rng);
    assert!(r.is_err());
    let bank = vec![10u8, 20, 30];
    let r2 = pick_from_bank(&bank, &mut rng).unwrap();
    assert!(bank.contains(&r2));
}
