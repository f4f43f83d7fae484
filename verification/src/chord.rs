//! Pitch classes, triad qualities and triads.
use vstd::prelude::*;

verus! {

/// Pitch class represented as an integer 0-11 (C=0, C#=1, ..., B=11).
pub type PitchClass = u8;

/// The spelling of a pitch class: sharps for the black keys, `?` outside 0-11.
pub open spec fn pitch_class_spelling(pc: int) -> Seq<char> {
    if pc == 0 {
        seq!['C']
    } else if pc == 1 {
        seq!['C', '#']
    } else if pc == 2 {
        seq!['D']
    } else if pc == 3 {
        seq!['D', '#']
    } else if pc == 4 {
        seq!['E']
    } else if pc == 5 {
        seq!['F']
    } else if pc == 6 {
        seq!['F', '#']
    } else if pc == 7 {
        seq!['G']
    } else if pc == 8 {
        seq!['G', '#']
    } else if pc == 9 {
        seq!['A']
    } else if pc == 10 {
        seq!['A', '#']
    } else if pc == 11 {
        seq!['B']
    } else {
        seq!['?']
    }
}

/// Convert a pitch class to a note name string.
pub fn pitch_class_name(pc: PitchClass) -> (name: &'static str)
    ensures
        name@ == pitch_class_spelling(pc as int),
{
    match pc {
        0 => {
            proof {
                reveal_strlit("C");
            }
            "C"
        },
        1 => {
            proof {
                reveal_strlit("C#");
            }
            "C#"
        },
        2 => {
            proof {
                reveal_strlit("D");
            }
            "D"
        },
        3 => {
            proof {
                reveal_strlit("D#");
            }
            "D#"
        },
        4 => {
            proof {
                reveal_strlit("E");
            }
            "E"
        },
        5 => {
            proof {
                reveal_strlit("F");
            }
            "F"
        },
        6 => {
            proof {
                reveal_strlit("F#");
            }
            "F#"
        },
        7 => {
            proof {
                reveal_strlit("G");
            }
            "G"
        },
        8 => {
            proof {
                reveal_strlit("G#");
            }
            "G#"
        },
        9 => {
            proof {
                reveal_strlit("A");
            }
            "A"
        },
        10 => {
            proof {
                reveal_strlit("A#");
            }
            "A#"
        },
        11 => {
            proof {
                reveal_strlit("B");
            }
            "B"
        },
        _ => {
            proof {
                reveal_strlit("?");
            }
            "?"
        },
    }
}

/// Adding to a pitch class before or after reducing it mod 12 gives the same
/// pitch class.
pub proof fn lemma_mod12_shift(x: int, k: int)
    ensures
        (x + k) % 12 == (x % 12 + k) % 12,
{
    vstd::arithmetic::div_mod::lemma_add_mod_noop(x, k, 12);
    vstd::arithmetic::div_mod::lemma_add_mod_noop(x % 12, k, 12);
    vstd::arithmetic::div_mod::lemma_mod_twice(x, 12);
}

/// Reducing a number below 24 mod 12 subtracts 12 at most once.
pub proof fn lemma_mod12_small(x: int)
    requires
        0 <= x < 24,
    ensures
        x % 12 == (if x < 12 { x } else { x - 12 }),
{
    if x < 12 {
        vstd::arithmetic::div_mod::lemma_small_mod(x as nat, 12);
    } else {
        vstd::arithmetic::div_mod::lemma_small_mod((x - 12) as nat, 12);
        vstd::arithmetic::div_mod::lemma_mod_add_multiples_vanish(x - 12, 12);
    }
}

/// Chord quality: Major or Minor triad.
#[derive(Debug, Clone, Copy, PartialEq, Eq, Hash, Structural)]
pub enum Quality {
    Major,
    Minor,
}

impl Quality {
    /// The other quality.
    pub open spec fn flipped(self) -> Quality {
        match self {
            Quality::Major => Quality::Minor,
            Quality::Minor => Quality::Major,
        }
    }

    /// Semitones from the root up to the third: a major third or a minor third.
    pub open spec fn third_interval(self) -> int {
        match self {
            Quality::Major => 4,
            Quality::Minor => 3,
        }
    }

    /// The written name of the quality.
    pub open spec fn spelling(self) -> Seq<char> {
        match self {
            Quality::Major => seq!['m', 'a', 'j', 'o', 'r'],
            Quality::Minor => seq!['m', 'i', 'n', 'o', 'r'],
        }
    }

    /// The name of the quality: "major" or "minor".
    pub fn name(&self) -> (name: &'static str)
        ensures
            name@ == self.spelling(),
    {
        match self {
            Quality::Major => {
                proof {
                    reveal_strlit("major");
                }
                "major"
            },
            Quality::Minor => {
                proof {
                    reveal_strlit("minor");
                }
                "minor"
            },
        }
    }

    /// The name of the quality as an owned string.
    pub fn to_string(&self) -> (s: String)
        ensures
            s@ == self.spelling(),
    {
        String::from_str(self.name())
    }
}

/// A triad consisting of a root pitch class and a quality (major or minor).
///
/// A major triad has intervals {0, 4, 7} from the root.
/// A minor triad has intervals {0, 3, 7} from the root.
#[derive(Debug, Clone, Copy, PartialEq, Eq, Hash, Structural)]
pub struct Chord {
    /// Root pitch class (0-11).
    pub root: PitchClass,
    /// Major or Minor quality.
    pub quality: Quality,
}

impl Chord {
    /// The root is a pitch class in 0-11, as every constructor leaves it.
    pub open spec fn wf(self) -> bool {
        self.root < 12
    }

    /// The same triad with its root reduced to 0-11.
    pub open spec fn normalized(self) -> Chord {
        Chord { root: self.root % 12, quality: self.quality }
    }

    /// Pitch class of the root.
    pub open spec fn root_pc(self) -> int {
        (self.root % 12) as int
    }

    /// Pitch class of the third.
    pub open spec fn third_pc(self) -> int {
        (self.root + self.quality.third_interval()) % 12
    }

    /// Pitch class of the fifth.
    pub open spec fn fifth_pc(self) -> int {
        (self.root + 7) % 12
    }

    /// The three pitch classes, root first, then third, then fifth.
    pub open spec fn tones(self) -> Seq<PitchClass> {
        seq![self.root_pc() as u8, self.third_pc() as u8, self.fifth_pc() as u8]
    }

    /// Whether `pc` is one of the three pitch classes.
    pub open spec fn has_tone(self, pc: int) -> bool {
        pc == self.root_pc() || pc == self.third_pc() || pc == self.fifth_pc()
    }

    /// How many of the pitch classes of `self` occur in `other`.
    pub open spec fn shared_tones(self, other: Chord) -> int {
        (if other.has_tone(self.root_pc()) { 1int } else { 0int }) + (if other.has_tone(
            self.third_pc(),
        ) {
            1int
        } else {
            0int
        }) + (if other.has_tone(self.fifth_pc()) { 1int } else { 0int })
    }

    /// The written name: root spelling, a space, then the quality.
    pub open spec fn spelling(self) -> Seq<char> {
        pitch_class_spelling(self.root as int) + seq![' '] + self.quality.spelling()
    }

    /// Create a new chord from a root and quality.
    pub fn new(root: PitchClass, quality: Quality) -> (chord: Self)
        ensures
            chord == (Chord { root: root % 12, quality }),
    {
        Chord { root: root % 12, quality }
    }

    /// Create a major triad.
    pub fn major(root: PitchClass) -> (chord: Self)
        ensures
            chord == (Chord { root: root % 12, quality: Quality::Major }),
    {
        Chord::new(root, Quality::Major)
    }

    /// Create a minor triad.
    pub fn minor(root: PitchClass) -> (chord: Self)
        ensures
            chord == (Chord { root: root % 12, quality: Quality::Minor }),
    {
        Chord::new(root, Quality::Minor)
    }

    /// Return the three pitch classes of this triad.
    pub fn pitch_classes(&self) -> (pcs: [PitchClass; 3])
        requires
            self.root + 7 <= u8::MAX,
        ensures
            pcs@ == self.tones(),
    {
        match self.quality {
            Quality::Major => [(self.root) % 12, (self.root + 4) % 12, (self.root + 7) % 12],
            Quality::Minor => [(self.root) % 12, (self.root + 3) % 12, (self.root + 7) % 12],
        }
    }

    /// The third of the triad.
    pub fn third(&self) -> (pc: PitchClass)
        requires
            self.root + self.quality.third_interval() <= u8::MAX,
        ensures
            pc == self.third_pc(),
    {
        match self.quality {
            Quality::Major => (self.root + 4) % 12,
            Quality::Minor => (self.root + 3) % 12,
        }
    }

    /// The fifth of the triad.
    pub fn fifth(&self) -> (pc: PitchClass)
        requires
            self.root + 7 <= u8::MAX,
        ensures
            pc == self.fifth_pc(),
    {
        (self.root + 7) % 12
    }

    /// Check if this chord contains a given pitch class.
    pub fn contains(&self, pc: PitchClass) -> (found: bool)
        requires
            self.root + 7 <= u8::MAX,
        ensures
            found == self.has_tone((pc % 12) as int),
    {
        let pcs = self.pitch_classes();
        let target = pc % 12;
        pcs[0] == target || pcs[1] == target || pcs[2] == target
    }

    /// Number of common tones with another chord.
    pub fn common_tones(&self, other: &Chord) -> (count: usize)
        requires
            self.root + 7 <= u8::MAX,
            other.root + 7 <= u8::MAX,
        ensures
            count == self.shared_tones(*other),
            count == self.tones().filter(|p: PitchClass| other.tones().contains(p)).len(),
    {
        proof {
            law_common_tones_count(*self, *other);
        }
        let pcs = self.pitch_classes();
        let other_pcs = other.pitch_classes();
        let mut count: usize = 0;
        let mut i: usize = 0;
        while i < 3
            invariant
                0 <= i <= 3,
                pcs@ == self.tones(),
                other_pcs@ == other.tones(),
                count <= i,
                count == (if i > 0 && other.has_tone(self.root_pc()) { 1int } else { 0int }) + (
                if i > 1 && other.has_tone(self.third_pc()) {
                    1int
                } else {
                    0int
                }) + (if i > 2 && other.has_tone(self.fifth_pc()) { 1int } else { 0int }),
            decreases 3 - i,
        {
            let p = pcs[i];
            if other_pcs[0] == p || other_pcs[1] == p || other_pcs[2] == p {
                count = count + 1;
            }
            i = i + 1;
        }
        count
    }

    /// The chord's name, such as "C major" or "A minor".
    pub fn to_string(&self) -> (s: String)
        ensures
            s@ == self.spelling(),
            s@ == pitch_class_spelling(self.root as int) + seq![' '] + self.quality.spelling(),
    {
        let mut s = String::from_str(pitch_class_name(self.root));
        s.append(" ");
        s.append(self.quality.name());
        proof {
            reveal_strlit(" ");
        }
        s
    }
}

/// The common tones of `a` with `b` are counted tone by tone: the count is
/// the number of the three pitch classes of `a` that are among the three
/// pitch classes of `b`.
pub proof fn law_common_tones_count(a: Chord, b: Chord)
    ensures
        a.shared_tones(b) == a.tones().filter(|p: PitchClass| b.tones().contains(p)).len(),
{
    let t = a.tones();
    let u = b.tones();
    let f = |p: PitchClass| u.contains(p);
    reveal_with_fuel(Seq::filter, 4);
    assert(t.drop_last() =~= seq![t[0], t[1]]);
    assert(t.drop_last().drop_last() =~= seq![t[0]]);
    assert(t.drop_last().drop_last().drop_last() =~= Seq::<PitchClass>::empty());
    assert forall|p: PitchClass| #[trigger] f(p) <==> b.has_tone(p as int) by {
        if f(p) {
            let k = choose|k: int| 0 <= k < u.len() && u[k] == p;
        }
        if b.has_tone(p as int) {
            if p as int == b.root_pc() {
                assert(u[0] == p);
            } else if p as int == b.third_pc() {
                assert(u[1] == p);
            } else {
                assert(u[2] == p);
            }
        }
    }
    assert(f(t[0]) == b.has_tone(a.root_pc()));
    assert(f(t[1]) == b.has_tone(a.third_pc()));
    assert(f(t[2]) == b.has_tone(a.fifth_pc()));
}

/// The pitch classes of a triad, written from the pitch class of its root.
proof fn lemma_tones_from_root(c: Chord)
    ensures
        0 <= c.root_pc() < 12,
        c.third_pc() == (c.root_pc() + c.quality.third_interval()) % 12,
        c.fifth_pc() == (c.root_pc() + 7) % 12,
        c.third_pc() == (if c.root_pc() + c.quality.third_interval() < 12 {
            c.root_pc() + c.quality.third_interval()
        } else {
            c.root_pc() + c.quality.third_interval() - 12
        }),
        c.fifth_pc() == (if c.root_pc() + 7 < 12 {
            c.root_pc() + 7
        } else {
            c.root_pc() - 5
        }),
{
    lemma_mod12_shift(c.root as int, c.quality.third_interval());
    lemma_mod12_shift(c.root as int, 7);
    lemma_mod12_small(c.root_pc() + c.quality.third_interval());
    lemma_mod12_small(c.root_pc() + 7);
}

/// Counting common tones is symmetric: `a` has as many tones in `b` as `b`
/// has in `a`, since each triad has three different pitch classes.
pub proof fn law_common_tones_symmetric(a: Chord, b: Chord)
    ensures
        a.shared_tones(b) == b.shared_tones(a),
{
    lemma_tones_from_root(a);
    lemma_tones_from_root(b);
}

/// A triad shares exactly one tone with the major and with the minor triad
/// a fourth above its root, whose fifth is that root.
pub proof fn law_one_common_tone_a_fourth_above(c: Chord, q: Quality)
    ensures
        ({
            let above = Chord { root: ((c.root_pc() + 5) % 12) as u8, quality: q };
            &&& above.fifth_pc() == c.root_pc()
            &&& c.shared_tones(above) == 1
        }),
{
    let above = Chord { root: ((c.root_pc() + 5) % 12) as u8, quality: q };
    lemma_tones_from_root(c);
    lemma_mod12_small(c.root_pc() + 5);
    lemma_tones_from_root(above);
    assert(above.root_pc() == above.root);
}

/// Different pitch classes in 0-11 are spelled differently.
proof fn lemma_spelling_distinct(x: int, y: int)
    requires
        0 <= x < 12,
        0 <= y < 12,
        pitch_class_spelling(x) == pitch_class_spelling(y),
    ensures
        x == y,
{
    let sx = pitch_class_spelling(x);
    let sy = pitch_class_spelling(y);
    assert(sx.len() == sy.len());
    assert(sx[0] == sy[0]);
}

/// A triad's name is the name of its root, a space, and then the name of its
/// own quality: the last word is "major" exactly for a major triad, whatever
/// the root.
pub proof fn law_chord_name_parts(c: Chord)
    ensures
        ({
            let s = c.spelling();
            let r = pitch_class_spelling(c.root as int);
            &&& s.len() == r.len() + 6
            &&& s.take(r.len() as int) == r
            &&& s[r.len() as int] == ' '
            &&& s.skip(r.len() as int + 1) == c.quality.spelling()
            &&& (s.skip(r.len() as int + 1) == seq!['m', 'a', 'j', 'o', 'r']) == (c.quality
                == Quality::Major)
        }),
{
    let s = c.spelling();
    let r = pitch_class_spelling(c.root as int);
    assert(s.take(r.len() as int) =~= r);
    assert(s.skip(r.len() as int + 1) =~= c.quality.spelling());
    if c.quality == Quality::Minor {
        assert(c.quality.spelling()[1] != seq!['m', 'a', 'j', 'o', 'r'][1]);
    }
}

/// Different triads with roots in 0-11 have different names.
pub proof fn law_chord_names_distinct(a: Chord, b: Chord)
    requires
        a.wf(),
        b.wf(),
        a != b,
    ensures
        a.spelling() != b.spelling(),
{
    if a.spelling() == b.spelling() {
        law_chord_name_parts(a);
        law_chord_name_parts(b);
        let ra = pitch_class_spelling(a.root as int);
        let rb = pitch_class_spelling(b.root as int);
        assert(ra.len() == rb.len());
        assert(ra == rb);
        lemma_spelling_distinct(a.root as int, b.root as int);
        assert(a.quality.spelling() == b.quality.spelling());
        if a.quality != b.quality {
            assert(a.quality.spelling()[1] != b.quality.spelling()[1]);
        }
    }
}

/// Each black key is spelled as the white key a semitone below followed by a
/// sharp; each white key is a single letter, and the white keys from C up
/// run through the letters C, D, E, F, G, A, B in order.
pub proof fn law_pitch_class_spelling_sharps(x: int)
    requires
        0 <= x < 12,
    ensures
        (x == 1 || x == 3 || x == 6 || x == 8 || x == 10) ==> pitch_class_spelling(x)
            == pitch_class_spelling(x - 1).push('#') && pitch_class_spelling(x - 1).len() == 1,
        !(x == 1 || x == 3 || x == 6 || x == 8 || x == 10) ==> pitch_class_spelling(x).len() == 1,
        seq![
            pitch_class_spelling(0)[0],
            pitch_class_spelling(2)[0],
            pitch_class_spelling(4)[0],
            pitch_class_spelling(5)[0],
            pitch_class_spelling(7)[0],
            pitch_class_spelling(9)[0],
            pitch_class_spelling(11)[0],
        ] == seq!['C', 'D', 'E', 'F', 'G', 'A', 'B'],
{
    assert(pitch_class_spelling(x) =~= pitch_class_spelling(x - 1).push('#') || !(x == 1 || x == 3
        || x == 6 || x == 8 || x == 10));
}

} // verus!
