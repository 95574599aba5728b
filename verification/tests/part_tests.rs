use procomposer::parts::{BassPart, MelodyDirective, MelodyPart};
use procomposer::rng::RandomSource;
use procomposer::theory::{Chord, ChordKind, Key, Mode, Scale};
use procomposer::timing::TimeSpan;

fn c_major() -> Key {
    Key { root: 0, scale: Scale::Major, mode: Mode::Ionian }
}

#[test]
fn key_note_directive_offers_its_note_alone() {
    let key = c_major();
    let d = MelodyDirective::KeyNote(64);
    let choices = d.apply(Some(60), &key);
    assert_eq!(choices, vec![(64, 1)]);
}

#[test]
fn run_directive_walks_the_scale_with_cubic_weights() {
    let key = c_major();
    let d = MelodyDirective::RunTo(67);
    let choices = d.apply(Some(60), &key);
    // The run covers the scale notes strictly above the previous note up to
    // one past the target: D, E, F, G in the middle octave.
    let notes: Vec<u8> = choices.iter().map(|(n, _)| *n).collect();
    assert_eq!(notes, vec![62, 64, 65, 67]);
    let weights: Vec<u64> = choices.iter().map(|(_, w)| *w).collect();
    assert_eq!(weights, vec![64, 27, 8, 1]);
    // Without a previous note the target is the only choice.
    assert_eq!(d.apply(None, &key), vec![(67, 1)]);
}

#[test]
fn bass_directives_follow_the_markers() {
    let key = c_major();
    let markers = vec![
        (Chord { root: 0, kind: ChordKind::Major }, TimeSpan { start: 960, end: 1920 }),
        (Chord { root: 7, kind: ChordKind::Major }, TimeSpan { start: 1920, end: 2880 }),
    ];
    let dividers = vec![
        TimeSpan { start: 0, end: 960 },
        TimeSpan { start: 960, end: 1920 },
        TimeSpan { start: 1920, end: 2880 },
    ];
    let bass = BassPart::new(33);
    assert_eq!(bass.instrument, 33);
    let mut rng = RandomSource::from_seed(6);
    let directives = bass.plan_directives(&key, &markers, &dividers, &mut rng);
    assert!(!directives.is_empty());
    let mut saw_key_note = false;
    for (d, _span) in &directives {
        match d {
            MelodyDirective::KeyNote(n) => {
                saw_key_note = true;
                // Key notes carry a marker chord's root pitch class.
                assert!(n % 12 == 0 || n % 12 == 7);
                assert!(*n >= 36 && *n <= 120);
            },
            MelodyDirective::RunTo(n) => {
                assert!(key.contains(n % 12));
                assert!(*n >= 36 && *n <= 120);
            },
        }
    }
    assert!(saw_key_note);
    // Same seed, same plan.
    let mut rng2 = RandomSource::from_seed(6);
    let again = bass.plan_directives(&key, &markers, &dividers, &mut rng2);
    assert_eq!(directives, again);
}

#[test]
fn melody_part_starts_are_chord_tones_in_the_middle_band() {
    let markers = vec![
        (Chord { root: 0, kind: ChordKind::Major }, TimeSpan { start: 0, end: 1920 }),
        (Chord { root: 5, kind: ChordKind::Major }, TimeSpan { start: 1920, end: 3840 }),
    ];
    let dividers = vec![
        TimeSpan { start: 0, end: 960 },
        TimeSpan { start: 960, end: 1920 },
        TimeSpan { start: 1920, end: 2880 },
        TimeSpan { start: 2880, end: 3840 },
    ];
    let part = MelodyPart::new(40);
    assert_eq!(part.instrument, 40);
    let taken = vec![(60u8, TimeSpan { start: 0, end: 960 })];
    let mut rng = RandomSource::from_seed(9);
    let starts = part.plan_starts(&markers, &dividers, &taken, &mut rng);
    assert!(!starts.is_empty());
    for (n, span) in &starts {
        assert!(*n >= 48 && *n <= 96);
        // Each start is a tone of the chord sounding at its divider.
        let chord = if span.start < 1920 {
            Chord { root: 0, kind: ChordKind::Major }
        } else {
            Chord { root: 5, kind: ChordKind::Major }
        };
        assert!(chord.contains(n % 12));
    }
    let mut rng2 = RandomSource::from_seed(9);
    let again = part.plan_starts(&markers, &dividers, &taken, &mut rng2);
    assert_eq!(starts, again);
}
