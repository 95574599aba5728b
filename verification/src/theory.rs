//! Harmonic field: pitch classes, scales, keys and scale-degree chords.
//!
//! A pitch class is a residue modulo 12, a note is a MIDI-style number in
//! `0..=127`, and a key is a root pitch class with a scale and a mode.  The
//! chords of a key are the triads whose pitch classes all belong to the
//! key's scale.

use vstd::prelude::*;

verus! {

/// A pitch class is one of the twelve semitone residues.
pub open spec fn valid_pitch_class(pc: u8) -> bool {
    pc < 12
}

/// The pitch class of a note number.
pub open spec fn note_pitch_class(n: u8) -> u8 {
    n % 12
}

/// Interval sequence of a seven-step scale.
#[derive(Clone, Copy, Debug, PartialEq, Eq, Structural)]
pub enum Scale {
    Major,
    NaturalMinor,
    MelodicMinor,
    HarmonicMinor,
}

/// Rotation applied to a scale's interval sequence.
#[derive(Clone, Copy, Debug, PartialEq, Eq, Structural)]
pub enum Mode {
    Ionian,
    Dorian,
    Phrygian,
    Lydian,
    Mixolydian,
    Aeolian,
    Locrian,
}

impl Scale {
    /// The semitone step at position `j` of this scale's interval sequence.
    pub open spec fn spec_step(self, j: int) -> int {
        let w = 2int;
        let h = 1int;
        match self {
            Scale::Major => seq![w, w, h, w, w, w, h][j],
            Scale::NaturalMinor => seq![w, h, w, w, h, w, w][j],
            Scale::MelodicMinor => seq![w, h, w, w, w, w, h][j],
            Scale::HarmonicMinor => seq![w, h, w, w, h, w + h, h][j],
        }
    }

    /// Looks up the semitone step at position `j`.
    pub fn step(&self, j: u8) -> (r: u8)
        requires
            j < 7,
        ensures
            r == self.spec_step(j as int),
            1 <= r <= 3,
    {
        let steps: [u8; 7] = match self {
            Scale::Major => [2, 2, 1, 2, 2, 2, 1],
            Scale::NaturalMinor => [2, 1, 2, 2, 1, 2, 2],
            Scale::MelodicMinor => [2, 1, 2, 2, 2, 2, 1],
            Scale::HarmonicMinor => [2, 1, 2, 2, 1, 3, 1],
        };
        steps[j as usize]
    }

    /// All scales, in a fixed order.
    pub fn all() -> (r: Vec<Scale>)
        ensures
            r@ == seq![Scale::Major, Scale::NaturalMinor, Scale::MelodicMinor,
                Scale::HarmonicMinor],
    {
        let mut v: Vec<Scale> = Vec::new();
        v.push(Scale::Major);
        v.push(Scale::NaturalMinor);
        v.push(Scale::MelodicMinor);
        v.push(Scale::HarmonicMinor);
        proof {
            assert(v@ =~= seq![Scale::Major, Scale::NaturalMinor, Scale::MelodicMinor,
                Scale::HarmonicMinor]);
        }
        v
    }
}

impl Mode {
    /// How far this mode rotates the scale's interval sequence.
    pub open spec fn spec_rotation(self) -> int {
        match self {
            Mode::Ionian => 0,
            Mode::Dorian => 1,
            Mode::Phrygian => 2,
            Mode::Lydian => 3,
            Mode::Mixolydian => 4,
            Mode::Aeolian => 5,
            Mode::Locrian => 6,
        }
    }

    /// The rotation as a number.
    pub fn rotation(&self) -> (r: u8)
        ensures
            r == self.spec_rotation(),
            r < 7,
    {
        match self {
            Mode::Ionian => 0,
            Mode::Dorian => 1,
            Mode::Phrygian => 2,
            Mode::Lydian => 3,
            Mode::Mixolydian => 4,
            Mode::Aeolian => 5,
            Mode::Locrian => 6,
        }
    }

    /// All modes, in a fixed order.
    pub fn all() -> (r: Vec<Mode>)
        ensures
            r@ == seq![Mode::Ionian, Mode::Dorian, Mode::Phrygian, Mode::Lydian,
                Mode::Mixolydian, Mode::Aeolian, Mode::Locrian],
    {
        let mut v: Vec<Mode> = Vec::new();
        v.push(Mode::Ionian);
        v.push(Mode::Dorian);
        v.push(Mode::Phrygian);
        v.push(Mode::Lydian);
        v.push(Mode::Mixolydian);
        v.push(Mode::Aeolian);
        v.push(Mode::Locrian);
        proof {
            assert(v@ =~= seq![Mode::Ionian, Mode::Dorian, Mode::Phrygian, Mode::Lydian,
                Mode::Mixolydian, Mode::Aeolian, Mode::Locrian]);
        }
        v
    }
}

/// A key: root pitch class, scale and mode.  Defines the closed set of
/// permissible pitch classes of a composition section.
#[derive(Clone, Copy, Debug, PartialEq, Eq, Structural)]
pub struct Key {
    pub root: u8,
    pub scale: Scale,
    pub mode: Mode,
}

impl Key {
    /// A key is well formed when its root is a pitch class.
    pub open spec fn wf(self) -> bool {
        valid_pitch_class(self.root)
    }

    /// Semitone offset of scale degree `d` (`0..=7`) above the root: the sum
    /// of the first `d` steps of the mode-rotated interval sequence.
    pub open spec fn spec_degree_offset(self, d: int) -> int
        decreases d,
    {
        if d <= 0 {
            0
        } else {
            self.spec_degree_offset(d - 1)
                + self.scale.spec_step((self.mode.spec_rotation() + d - 1) % 7)
        }
    }

    /// The pitch class of scale degree `d` (`0..7`).
    pub open spec fn spec_degree_pitch(self, d: int) -> u8 {
        (((self.root + self.spec_degree_offset(d)) % 12) as u8)
    }

    /// Whether a pitch class belongs to this key's scale.
    pub open spec fn spec_contains(self, pc: u8) -> bool {
        exists|d: int| 0 <= d < 7 && self.spec_degree_pitch(d) == pc
    }

    /// Computes the pitch class of scale degree `d`.
    pub fn degree_pitch(&self, d: u8) -> (r: u8)
        requires
            self.wf(),
            d < 7,
        ensures
            r == self.spec_degree_pitch(d as int),
            valid_pitch_class(r),
    {
        let rot = self.mode.rotation();
        let mut off: u8 = 0;
        let mut j: u8 = 0;
        while j < d
            invariant
                j <= d < 7,
                rot == self.mode.spec_rotation(),
                off == self.spec_degree_offset(j as int),
                off <= 3 * j,
            decreases d - j,
        {
            off = off + self.scale.step((rot + j) % 7);
            proof {
                lemma_degree_offset_bound(*self, j as int + 1);
            }
            j = j + 1;
        }
        (self.root + off) % 12
    }

    /// The seven pitch classes of this key's scale, by degree.
    pub fn pitch_classes(&self) -> (r: Vec<u8>)
        requires
            self.wf(),
        ensures
            r@.len() == 7,
            forall|d: int| 0 <= d < 7 ==> r@[d] == self.spec_degree_pitch(d),
    {
        let mut v: Vec<u8> = Vec::new();
        let mut d: u8 = 0;
        while d < 7
            invariant
                d <= 7,
                self.wf(),
                v@.len() == d,
                forall|k: int| 0 <= k < d ==> v@[k] == self.spec_degree_pitch(k),
            decreases 7 - d,
        {
            let p = self.degree_pitch(d);
            v.push(p);
            d = d + 1;
        }
        v
    }

    /// Decides whether a pitch class belongs to this key's scale.
    pub fn contains(&self, pc: u8) -> (r: bool)
        requires
            self.wf(),
        ensures
            r == self.spec_contains(pc),
    {
        let mut d: u8 = 0;
        let mut found = false;
        while d < 7
            invariant
                d <= 7,
                self.wf(),
                found == exists|k: int| 0 <= k < d && self.spec_degree_pitch(k) == pc,
            decreases 7 - d,
        {
            let p = self.degree_pitch(d);
            if p == pc {
                found = true;
            }
            d = d + 1;
        }
        found
    }
}

/// Degree offsets grow by at most three semitones per degree.
pub proof fn lemma_degree_offset_bound(key: Key, d: int)
    requires
        0 <= d <= 7,
    ensures
        0 <= key.spec_degree_offset(d) <= 3 * d,
    decreases d,
{
    if d > 0 {
        lemma_degree_offset_bound(key, d - 1);
        lemma_step_bounds(key.scale, (key.mode.spec_rotation() + d - 1) % 7);
    }
}

/// Each scale step is between one and three semitones.
proof fn lemma_step_bounds(scale: Scale, j: int)
    requires
        0 <= j < 7,
    ensures
        1 <= scale.spec_step(j) <= 3,
{
}

/// The interval stack of a triad.
#[derive(Clone, Copy, Debug, PartialEq, Eq, Structural)]
pub enum ChordKind {
    Major,
    Minor,
    Diminished,
    Augmented,
}

impl ChordKind {
    /// The semitone offset of chord tone `j` (`0..3`) above the root.
    pub open spec fn spec_offset(self, j: int) -> int {
        match self {
            ChordKind::Major => seq![0int, 4, 7][j],
            ChordKind::Minor => seq![0int, 3, 7][j],
            ChordKind::Diminished => seq![0int, 3, 6][j],
            ChordKind::Augmented => seq![0int, 4, 8][j],
        }
    }

    /// Looks up the semitone offset of chord tone `j`.
    pub fn offset(&self, j: u8) -> (r: u8)
        requires
            j < 3,
        ensures
            r == self.spec_offset(j as int),
            r <= 8,
    {
        let offs: [u8; 3] = match self {
            ChordKind::Major => [0, 4, 7],
            ChordKind::Minor => [0, 3, 7],
            ChordKind::Diminished => [0, 3, 6],
            ChordKind::Augmented => [0, 4, 8],
        };
        offs[j as usize]
    }

    /// All triad kinds, in a fixed order.
    pub fn all() -> (r: Vec<ChordKind>)
        ensures
            r@ == seq![ChordKind::Major, ChordKind::Minor, ChordKind::Diminished,
                ChordKind::Augmented],
    {
        let mut v: Vec<ChordKind> = Vec::new();
        v.push(ChordKind::Major);
        v.push(ChordKind::Minor);
        v.push(ChordKind::Diminished);
        v.push(ChordKind::Augmented);
        proof {
            assert(v@ =~= seq![ChordKind::Major, ChordKind::Minor, ChordKind::Diminished,
                ChordKind::Augmented]);
        }
        v
    }
}

/// A triad: a root pitch class with an interval stack.  Always derived from
/// a key by [`triads_in_key`], never constructed independently of one.
#[derive(Clone, Copy, Debug, PartialEq, Eq, Structural)]
pub struct Chord {
    pub root: u8,
    pub kind: ChordKind,
}

impl Chord {
    /// A chord is well formed when its root is a pitch class.
    pub open spec fn wf(self) -> bool {
        valid_pitch_class(self.root)
    }

    /// The pitch class of chord tone `j` (`0..3`).
    pub open spec fn spec_pitch(self, j: int) -> u8 {
        (((self.root + self.kind.spec_offset(j)) % 12) as u8)
    }

    /// Whether a pitch class is one of this chord's tones.
    pub open spec fn spec_contains(self, pc: u8) -> bool {
        exists|j: int| 0 <= j < 3 && self.spec_pitch(j) == pc
    }

    /// Whether all of this chord's tones lie in the given key's scale.
    pub open spec fn spec_in_key(self, key: Key) -> bool {
        forall|j: int| 0 <= j < 3 ==> key.spec_contains(#[trigger] self.spec_pitch(j))
    }

    /// The three pitch classes of this chord.
    pub fn pitch_classes(&self) -> (r: Vec<u8>)
        requires
            self.wf(),
        ensures
            r@.len() == 3,
            forall|j: int| 0 <= j < 3 ==> r@[j] == self.spec_pitch(j)
                && valid_pitch_class(r@[j]),
    {
        let mut v: Vec<u8> = Vec::new();
        let mut j: u8 = 0;
        while j < 3
            invariant
                j <= 3,
                self.wf(),
                v@.len() == j,
                forall|k: int| 0 <= k < j ==> v@[k] == self.spec_pitch(k)
                    && valid_pitch_class(v@[k]),
            decreases 3 - j,
        {
            let p = (self.root + self.kind.offset(j)) % 12;
            v.push(p);
            j = j + 1;
        }
        v
    }

    /// Decides whether a pitch class is one of this chord's tones.
    pub fn contains(&self, pc: u8) -> (r: bool)
        requires
            self.wf(),
        ensures
            r == self.spec_contains(pc),
    {
        let mut j: u8 = 0;
        let mut found = false;
        while j < 3
            invariant
                j <= 3,
                self.wf(),
                found == exists|k: int| 0 <= k < j && self.spec_pitch(k) == pc,
            decreases 3 - j,
        {
            let p = (self.root + self.kind.offset(j)) % 12;
            proof {
                assert(p == self.spec_pitch(j as int));
            }
            if p == pc {
                found = true;
            }
            j = j + 1;
        }
        found
    }

    /// Decides whether all of this chord's tones lie in the key's scale.
    pub fn in_key(&self, key: &Key) -> (r: bool)
        requires
            self.wf(),
            key.wf(),
        ensures
            r == self.spec_in_key(*key),
    {
        let mut j: u8 = 0;
        let mut all = true;
        while j < 3
            invariant
                j <= 3,
                self.wf(),
                key.wf(),
                all == forall|k: int| 0 <= k < j ==>
                    key.spec_contains(#[trigger] self.spec_pitch(k)),
            decreases 3 - j,
        {
            let p = (self.root + self.kind.offset(j)) % 12;
            proof {
                assert(p == self.spec_pitch(j as int));
            }
            if !key.contains(p) {
                all = false;
            }
            j = j + 1;
        }
        all
    }
}

/// The candidate chord at position `i` of the degree-by-kind grid: seven
/// scale degrees, four triad kinds each.
pub open spec fn spec_candidate_chord(key: Key, i: int) -> Chord {
    Chord {
        root: key.spec_degree_pitch(i / 4),
        kind: seq![ChordKind::Major, ChordKind::Minor, ChordKind::Diminished,
            ChordKind::Augmented][i % 4],
    }
}

/// The triads of `key` among the first `n` grid positions, in grid order.
pub open spec fn spec_triads_upto(key: Key, n: int) -> Seq<Chord>
    decreases n,
{
    if n <= 0 {
        Seq::empty()
    } else {
        let s = spec_triads_upto(key, n - 1);
        let c = spec_candidate_chord(key, n - 1);
        if c.spec_in_key(key) {
            s.push(c)
        } else {
            s
        }
    }
}

/// All triads derivable from the key's scale, in degree-by-kind order.
pub open spec fn spec_triads(key: Key) -> Seq<Chord> {
    spec_triads_upto(key, 28)
}

/// The grid holds at most one chord per position.
pub proof fn lemma_triads_upto_len(key: Key, n: int)
    requires
        0 <= n,
    ensures
        spec_triads_upto(key, n).len() <= n,
    decreases n,
{
    if n > 0 {
        lemma_triads_upto_len(key, n - 1);
    }
}

/// Every chord collected by `spec_triads_upto` is a well-formed triad of
/// the key.
pub proof fn lemma_triads_upto_in_key(key: Key, n: int)
    requires
        0 <= n <= 28,
    ensures
        forall|i: int| 0 <= i < spec_triads_upto(key, n).len() ==> {
            let c = #[trigger] spec_triads_upto(key, n)[i];
            c.spec_in_key(key) && c.wf()
        },
    decreases n,
{
    if n > 0 {
        lemma_triads_upto_in_key(key, n - 1);
    }
}

/// Enumerates the triads of a key: every chord whose three tones all lie in
/// the key's scale, walking degrees and kinds in a fixed order.
pub fn triads_in_key(key: &Key) -> (r: Vec<Chord>)
    requires
        key.wf(),
    ensures
        r@ == spec_triads(*key),
        forall|i: int| 0 <= i < r@.len() ==> {
            let c = #[trigger] r@[i];
            c.spec_in_key(*key) && c.wf()
        },
{
    let kinds = ChordKind::all();
    let mut v: Vec<Chord> = Vec::new();
    let mut i: u8 = 0;
    while i < 28
        invariant
            i <= 28,
            key.wf(),
            kinds@ == seq![ChordKind::Major, ChordKind::Minor, ChordKind::Diminished,
                ChordKind::Augmented],
            v@ == spec_triads_upto(*key, i as int),
        decreases 28 - i,
    {
        let root = key.degree_pitch(i / 4);
        let kind = kinds[(i % 4) as usize];
        let c = Chord { root, kind };
        proof {
            assert(c == spec_candidate_chord(*key, i as int));
        }
        if c.in_key(key) {
            v.push(c);
        }
        i = i + 1;
    }
    proof {
        lemma_triads_upto_in_key(*key, 28);
    }
    v
}

/// The smaller of the two semitone walks between two pitch classes.
pub open spec fn spec_pitch_distance(a: u8, b: u8) -> int {
    let up = ((b + 12) - a) % 12;
    if up <= 12 - up {
        up
    } else {
        12 - up
    }
}

/// Computes the minimal semitone distance between two pitch classes.
pub fn pitch_distance(a: u8, b: u8) -> (r: u8)
    requires
        valid_pitch_class(a),
        valid_pitch_class(b),
    ensures
        r == spec_pitch_distance(a, b),
        r <= 6,
{
    let up = ((b + 12) - a) % 12;
    if up <= 12 - up {
        up
    } else {
        12 - up
    }
}

/// The first `len` scale-conformant candidates of `key` starting at note
/// `lo`: the notes of `lo..lo + len` whose pitch class lies in the key's
/// scale, in ascending order.
pub open spec fn spec_scale_notes(key: Key, lo: int, len: nat) -> Seq<u8>
    decreases len,
{
    if len == 0 {
        Seq::empty()
    } else {
        let s = spec_scale_notes(key, lo, (len - 1) as nat);
        let n = lo + len - 1;
        if key.spec_contains(note_pitch_class(n as u8)) {
            s.push(n as u8)
        } else {
            s
        }
    }
}

/// A band of `len` candidates yields at most `len` notes.
pub proof fn lemma_scale_notes_len(key: Key, lo: int, len: nat)
    ensures
        spec_scale_notes(key, lo, len).len() <= len,
    decreases len,
{
    if len > 0 {
        lemma_scale_notes_len(key, lo, (len - 1) as nat);
    }
}

/// Enumerates the notes of the key's scale inside the octave band
/// `lo..=hi`, in ascending order.
pub fn scale_notes_in_range(key: &Key, lo: u8, hi: u8) -> (r: Vec<u8>)
    requires
        key.wf(),
        lo <= hi,
        hi <= 127,
    ensures
        r@ == spec_scale_notes(*key, lo as int, (hi - lo + 1) as nat),
        forall|i: int| 0 <= i < r@.len() ==> {
            let n = #[trigger] r@[i];
            lo <= n <= hi && key.spec_contains(note_pitch_class(n))
        },
{
    let mut v: Vec<u8> = Vec::new();
    let mut n = lo;
    while n <= hi
        invariant
            lo <= n <= hi + 1,
            hi <= 127,
            key.wf(),
            v@ == spec_scale_notes(*key, lo as int, (n - lo) as nat),
            forall|i: int| 0 <= i < v@.len() ==> {
                let m = #[trigger] v@[i];
                lo <= m <= hi && key.spec_contains(note_pitch_class(m))
            },
        decreases hi + 1 - n,
    {
        if key.contains(n % 12) {
            v.push(n);
        }
        n = n + 1;
    }
    v
}

} // verus!
