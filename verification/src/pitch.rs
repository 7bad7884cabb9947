//! Pitch classes and semitone transposition.
//!
//! A pitch class is one of the 12 semitone values, with a canonical
//! display name (sharps, as in `C`, `C#`, `D`, ...). Transposing moves a
//! pitch ahead on the 12-tone circle, wrapping modulo 12; the offset may
//! be any integer, positive or negative.

use vstd::arithmetic::div_mod::{
    lemma_fundamental_div_mod, lemma_mod_bound, lemma_mod_multiples_vanish, lemma_small_mod,
};
use vstd::prelude::*;

verus! {

/// Semitone value of a root letter: `A` is 9, `C` is 0, and so on.
/// Characters that are no root letter count as 0.
pub open spec fn letter_semitone(c: char) -> int {
    if c == 'C' {
        0
    } else if c == 'D' {
        2
    } else if c == 'E' {
        4
    } else if c == 'F' {
        5
    } else if c == 'G' {
        7
    } else if c == 'A' {
        9
    } else if c == 'B' {
        11
    } else {
        0
    }
}

/// Moving `off` semitones from `s` on the 12-tone circle.
pub open spec fn pitch_add(s: int, off: int) -> int {
    (s + off) % 12
}

/// What `PitchClass::parse` accepts: a root letter `A`-`G`, optionally
/// followed by `#` or `b`; anything else is rejected.
pub open spec fn parse_pitch_spec(t: Seq<char>) -> Option<int> {
    if t.len() == 1 && crate::token::is_root_letter(t[0]) {
        Some(letter_semitone(t[0]))
    } else if t.len() == 2 && crate::token::is_root_letter(t[0]) && t[1] == '#' {
        Some(pitch_add(letter_semitone(t[0]), 1))
    } else if t.len() == 2 && crate::token::is_root_letter(t[0]) && t[1] == 'b' {
        Some(pitch_add(letter_semitone(t[0]), -1))
    } else {
        None
    }
}

/// The canonical display name of a semitone value.
pub open spec fn pitch_name_spec(s: int) -> Seq<char> {
    if s == 0 {
        seq!['C']
    } else if s == 1 {
        seq!['C', '#']
    } else if s == 2 {
        seq!['D']
    } else if s == 3 {
        seq!['D', '#']
    } else if s == 4 {
        seq!['E']
    } else if s == 5 {
        seq!['F']
    } else if s == 6 {
        seq!['F', '#']
    } else if s == 7 {
        seq!['G']
    } else if s == 8 {
        seq!['G', '#']
    } else if s == 9 {
        seq!['A']
    } else if s == 10 {
        seq!['A', '#']
    } else if s == 11 {
        seq!['B']
    } else {
        seq!['C']
    }
}

/// One of the 12 pitch classes. Equality is by semitone value.
#[derive(Clone, Copy, Debug, PartialEq, Eq, Structural)]
pub struct PitchClass {
    semitone: u8,
}

impl PitchClass {
    /// The semitone value, between 0 and 11.
    pub closed spec fn semitone_of(&self) -> int {
        self.semitone as int
    }

    #[verifier::type_invariant]
    closed spec fn inv(self) -> bool {
        self.semitone < 12
    }

    /// The semitone value as a machine integer.
    pub fn semitone(&self) -> (r: u8)
        ensures
            r as int == self.semitone_of(),
            r < 12,
    {
        proof {
            use_type_invariant(self);
        }
        self.semitone
    }

    /// Read a pitch class from text: a letter `A`-`G` with an optional
    /// `#` or `b`. Returns `None` on any other input.
    pub fn parse(s: &str) -> (r: Option<PitchClass>)
        ensures
            match r {
                Some(p) => parse_pitch_spec(s@) == Some(p.semitone_of()),
                None => parse_pitch_spec(s@) is None,
            },
    {
        let chars = crate::textops::str_to_chars(s);
        Self::parse_chars(&chars)
    }

    /// Read a pitch class from a character vector, as `parse` does.
    pub fn parse_chars(s: &Vec<char>) -> (r: Option<PitchClass>)
        ensures
            match r {
                Some(p) => parse_pitch_spec(s@) == Some(p.semitone_of()),
                None => parse_pitch_spec(s@) is None,
            },
    {
        let n = s.len();
        if n == 0 || n > 2 {
            return None;
        }
        let c0 = s[0];
        if !('A' <= c0 && c0 <= 'G') {
            return None;
        }
        let base: u8 = if c0 == 'C' {
            0
        } else if c0 == 'D' {
            2
        } else if c0 == 'E' {
            4
        } else if c0 == 'F' {
            5
        } else if c0 == 'G' {
            7
        } else if c0 == 'A' {
            9
        } else {
            11
        };
        if n == 1 {
            return Some(PitchClass { semitone: base });
        }
        let c1 = s[1];
        if c1 == '#' {
            let v: u8 = (base + 1) % 12;
            proof {
                lemma_mod_bound((base + 1) as int, 12);
            }
            Some(PitchClass { semitone: v })
        } else if c1 == 'b' {
            let v: u8 = if base == 0 {
                11
            } else {
                base - 1
            };
            proof {
                if base == 0 {
                    lemma_mod_multiples_vanish(-1, 11, 12);
                    lemma_small_mod(11nat, 12);
                    assert(pitch_add(0, -1) == 11);
                } else {
                    lemma_small_mod((base - 1) as nat, 12);
                }
            }
            Some(PitchClass { semitone: v })
        } else {
            None
        }
    }

    /// Build the pitch class with the given semitone value.
    pub fn from_semitone(s: u8) -> (r: PitchClass)
        requires
            s < 12,
        ensures
            r.semitone_of() == s as int,
    {
        PitchClass { semitone: s }
    }

    /// The pitch `semitones` positions ahead on the 12-tone circle,
    /// wrapping modulo 12; the offset may be negative.
    pub fn transpose(&self, semitones: i32) -> (r: PitchClass)
        ensures
            r.semitone_of() == pitch_add(self.semitone_of(), semitones as int),
    {
        proof {
            use_type_invariant(self);
        }
        let m: u32 = normalize_offset(semitones);
        let v: u32 = (self.semitone as u32 + m) % 12;
        proof {
            lemma_mod_bound((self.semitone as u32 + m) as int, 12);
            lemma_mod_multiples_vanish(
                offset_quotient(semitones as int, m as int),
                self.semitone as int + m as int,
                12,
            );
        }
        PitchClass { semitone: v as u8 }
    }

    /// The canonical name of this pitch class, as characters.
    pub fn name_chars(&self) -> (r: Vec<char>)
        ensures
            r@ == pitch_name_spec(self.semitone_of()),
    {
        proof {
            use_type_invariant(self);
        }
        name_of_semitone(self.semitone)
    }

    /// The canonical name of this pitch class.
    pub fn name(&self) -> (r: String)
        ensures
            r@ == pitch_name_spec(self.semitone_of()),
    {
        let chars = self.name_chars();
        crate::textops::chars_to_string(&chars)
    }
}

/// The multiple of 12 that separates `off` from its normalized residue
/// `m`: the witness that `off` and `m` agree modulo 12.
pub(crate) open spec fn offset_quotient(off: int, m: int) -> int {
    (off - m) / 12
}

/// The residue of `semitones` in `[0, 12)`.
pub(crate) fn normalize_offset(semitones: i32) -> (m: u32)
    ensures
        m < 12,
        (semitones as int) % 12 == m as int,
        semitones as int == 12 * offset_quotient(semitones as int, m as int) + m as int,
{
    if semitones >= 0 {
        let m: u32 = (semitones as u32) % 12;
        proof {
            lemma_fundamental_div_mod(semitones as int, 12);
            lemma_mod_bound(semitones as int, 12);
        }
        m
    } else {
        let x: u64 = (-(semitones as i64)) as u64;
        let q: u64 = x % 12;
        let m: u32 = ((12 - q) % 12) as u32;
        proof {
            lemma_fundamental_div_mod(x as int, 12);
            lemma_mod_bound(x as int, 12);
            // semitones == -x == 12 * (-(x / 12) - 1) + (12 - q) when q > 0,
            // and 12 * (-(x / 12)) + 0 when q == 0.
            if q == 0 {
                lemma_mod_multiples_vanish(-(x as int / 12), 0, 12);
                lemma_small_mod(0nat, 12);
            } else {
                lemma_mod_multiples_vanish(-(x as int / 12) - 1, 12 - q as int, 12);
                lemma_small_mod((12 - q) as nat, 12);
            }
            lemma_fundamental_div_mod(semitones as int, 12);
            lemma_mod_bound(semitones as int, 12);
        }
        m
    }
}

/// The canonical name of a semitone value below 12.
fn name_of_semitone(s: u8) -> (r: Vec<char>)
    requires
        s < 12,
    ensures
        r@ == pitch_name_spec(s as int),
{
    let mut r: Vec<char> = Vec::new();
    let base: char = if s == 0 || s == 1 {
        'C'
    } else if s == 2 || s == 3 {
        'D'
    } else if s == 4 {
        'E'
    } else if s == 5 || s == 6 {
        'F'
    } else if s == 7 || s == 8 {
        'G'
    } else if s == 9 || s == 10 {
        'A'
    } else {
        'B'
    };
    r.push(base);
    if s == 1 || s == 3 || s == 6 || s == 8 || s == 10 {
        r.push('#');
        proof {
            assert(r@ =~= pitch_name_spec(s as int));
        }
    } else {
        proof {
            assert(r@ =~= pitch_name_spec(s as int));
        }
    }
    r
}

/// The semitone value of a root-note token's text: its letter adjusted
/// by an optional accidental.
pub open spec fn root_of(t: Seq<char>) -> int {
    if t.len() == 0 {
        0
    } else if t.len() >= 2 && t[1] == '#' {
        pitch_add(letter_semitone(t[0]), 1)
    } else if t.len() >= 2 && t[1] == 'b' {
        pitch_add(letter_semitone(t[0]), -1)
    } else {
        letter_semitone(t[0])
    }
}

/// A chord's text with every root-note token replaced by the canonical
/// name of its pitch moved `off` semitones, other text kept verbatim.
pub open spec fn transpose_segs(segs: Seq<crate::token::GSeg>, off: int) -> Seq<char>
    decreases segs.len(),
{
    if segs.len() == 0 {
        Seq::empty()
    } else {
        (if segs[0].matched {
            pitch_name_spec(pitch_add(root_of(segs[0].text), off))
        } else {
            segs[0].text
        }) + transpose_segs(segs.drop_first(), off)
    }
}

/// The chord name `s` transposed by `off` semitones: every root note in
/// it is substituted, any other characters are preserved verbatim.
pub open spec fn transpose_chord_spec(s: Seq<char>, off: int) -> Seq<char> {
    transpose_segs(crate::token::tokenize_spec(crate::token::MarkKind::Root, s), off)
}

/// The semitone value of a root-note token's text.
fn root_semitone(t: &Vec<char>) -> (r: u8)
    ensures
        r as int == root_of(t@),
        r < 12,
{
    if t.len() == 0 {
        return 0;
    }
    let c0 = t[0];
    let base: u8 = if c0 == 'C' {
        0
    } else if c0 == 'D' {
        2
    } else if c0 == 'E' {
        4
    } else if c0 == 'F' {
        5
    } else if c0 == 'G' {
        7
    } else if c0 == 'A' {
        9
    } else if c0 == 'B' {
        11
    } else {
        0
    };
    if t.len() >= 2 && t[1] == '#' {
        let v: u8 = (base + 1) % 12;
        proof {
            lemma_mod_bound((base + 1) as int, 12);
        }
        v
    } else if t.len() >= 2 && t[1] == 'b' {
        let v: u8 = if base == 0 {
            11
        } else {
            base - 1
        };
        proof {
            if base == 0 {
                lemma_mod_multiples_vanish(-1, 11, 12);
                lemma_small_mod(11nat, 12);
            } else {
                lemma_small_mod((base - 1) as nat, 12);
            }
        }
        v
    } else {
        base
    }
}

/// Transpose a chord name by `off` semitones: every root note in it is
/// substituted by the canonical name of its moved pitch, all other
/// characters are preserved verbatim.
pub fn transpose_chord(chord: &Vec<char>, off: i32) -> (r: Vec<char>)
    ensures
        r@ == transpose_chord_spec(chord@, off as int),
{
    let segs = crate::token::tokenize(crate::token::MarkKind::Root, chord);
    let ghost gsegs = segs@.map(|n: int, seg: crate::token::Segment| seg@);
    let mut r: Vec<char> = Vec::new();
    let mut i: usize = 0;
    proof {
        assert(gsegs.skip(0) =~= gsegs);
        assert(r@ + transpose_segs(gsegs, off as int) =~= transpose_segs(gsegs, off as int));
    }
    while i < segs.len()
        invariant
            i <= segs@.len(),
            gsegs == segs@.map(|n: int, seg: crate::token::Segment| seg@),
            transpose_segs(gsegs, off as int) == r@ + transpose_segs(
                gsegs.skip(i as int),
                off as int,
            ),
        decreases segs@.len() - i,
    {
        let ghost rest = gsegs.skip(i as int);
        proof {
            assert(rest[0] == gsegs[i as int]);
            assert(rest.drop_first() =~= gsegs.skip(i + 1));
        }
        if segs[i].matched {
            let base = root_semitone(&segs[i].text);
            let moved = PitchClass::from_semitone(base).transpose(off);
            let name = moved.name_chars();
            crate::textops::append_chars(&mut r, &name);
        } else {
            let text = crate::textops::subrange_chars(&segs[i].text, 0, segs[i].text.len());
            proof {
                assert(segs[i as int].text@.subrange(0, segs[i as int].text@.len() as int)
                    =~= segs[i as int].text@);
            }
            crate::textops::append_chars(&mut r, &text);
        }
        i = i + 1;
    }
    proof {
        assert(gsegs.skip(gsegs.len() as int) =~= Seq::<crate::token::GSeg>::empty());
        assert(r@ + Seq::<char>::empty() =~= r@);
    }
    r
}

/// Transposition acts as the additive group of semitone offsets:
/// transposing by `a` and then by `b` is transposing by `a + b`, and
/// transposing by zero changes nothing.
pub proof fn lemma_transpose_group(s: int, a: int, b: int)
    requires
        0 <= s < 12,
    ensures
        pitch_add(pitch_add(s, a), b) == pitch_add(s, a + b),
        pitch_add(s, 0) == s,
{
    lemma_fundamental_div_mod(s + a, 12);
    lemma_mod_bound(s + a, 12);
    // (s + a) % 12 differs from s + a by 12 * ((s + a) / 12).
    lemma_mod_multiples_vanish(-((s + a) / 12), s + a + b, 12);
    assert(pitch_add(pitch_add(s, a), b) == (s + a + b) % 12) by {
        assert((s + a) % 12 + b == 12 * (-((s + a) / 12)) + (s + a + b));
    }
    lemma_small_mod(s as nat, 12);
}

} // verus!
