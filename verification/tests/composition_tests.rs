use procomposer::composition::Composition;
use procomposer::progression::{admissible_mask, count_greater};
use procomposer::timing::TimeSpan;

#[test]
fn echelon_cut_at_the_top_keeps_only_the_heaviest() {
    // Boundary behavior: a cut index at the last position collapses the
    // admissible set toward the single top-weighted candidate.
    let weights: Vec<u64> = vec![10, 40, 25, 40, 5];
    let masked = admissible_mask(&weights, weights.len() - 1);
    assert_eq!(masked, vec![0, 40, 0, 40, 0]);
    assert_eq!(count_greater(&weights, 40), 0);
}

#[test]
fn echelon_cut_at_the_bottom_admits_everyone() {
    // Boundary behavior: a cut index of zero admits the whole candidate
    // set with unchanged weights.
    let weights: Vec<u64> = vec![10, 40, 25, 40, 5];
    let masked = admissible_mask(&weights, 0);
    assert_eq!(masked, weights);
}

#[test]
fn echelon_cut_in_the_middle_drops_the_weakest() {
    let weights: Vec<u64> = vec![10, 40, 25, 40, 5];
    let masked = admissible_mask(&weights, 2);
    // The two smallest weights fall below the cut; the rest survive.
    assert_eq!(masked, vec![0, 40, 25, 40, 0]);
}

#[test]
fn a_whole_composition_renders_and_reproduces() {
    let window = TimeSpan { start: 0, end: 480 * 4 * 16 };
    let a = Composition::render(&window, 480, 2024).unwrap();
    let b = Composition::render(&window, 480, 2024).unwrap();
    assert_eq!(a.key, b.key);
    assert_eq!(a.ts, b.ts);
    assert_eq!(a.tempo, b.tempo);
    assert_eq!(a.instrumentation.melody, b.instrumentation.melody);
    assert_eq!(a.instrumentation.bass, b.instrumentation.bass);
    assert_eq!(a.instrumentation.drums, b.instrumentation.drums);
    assert_eq!(a.instrumentation.extras, b.instrumentation.extras);
    assert_eq!(a.sections.len(), b.sections.len());
    for (sa, sb) in a.sections.iter().zip(b.sections.iter()) {
        assert_eq!(sa.span, sb.span);
        assert_eq!(sa.progression.chords, sb.progression.chords);
        assert_eq!(sa.progression.rhythm, sb.progression.rhythm);
        assert_eq!(sa.drum_hits, sb.drum_hits);
        assert_eq!(sa.bass_notes, sb.bass_notes);
        assert_eq!(sa.melody_notes, sb.melody_notes);
    }
    // Every sampled note respects its part's constraints: bass notes come
    // from the root-relative bass band or are scale-conformant run notes,
    // melody notes stay in the middle band and the key's scale.
    for sec in &a.sections {
        for n in &sec.bass_notes {
            let in_band = n.pitch >= 36 + a.key.root && n.pitch <= 56 + a.key.root;
            assert!(in_band || a.key.contains(n.pitch % 12));
            assert!(n.velocity >= 84 && n.velocity <= 106);
        }
        for part in &sec.melody_notes {
            for n in part {
                assert!(n.pitch >= 55 && n.pitch <= 91);
                assert!(a.key.contains(n.pitch % 12));
            }
        }
    }
    // A different seed decides a different composition somewhere.
    let c = Composition::render(&window, 480, 2025).unwrap();
    let differs = a.key != c.key
        || a.tempo != c.tempo
        || a.instrumentation.melody != c.instrumentation.melody
        || a.sections.len() != c.sections.len()
        || a.sections[0].progression.chords != c.sections[0].progression.chords;
    assert!(differs);
}
