//! The chord aligner: merges one literal stretch of a line into the
//! line's chord run and lyric run, so that each chord comes to sit
//! directly above the lyric character that follows it in the source.
//!
//! The stretch is tokenized into chord tokens and literal text. Literal
//! text extends the lyrics. At each chord token the shorter of the two
//! runs is padded up to the longer — spaces on the chord side; on the
//! lyric side a space after whitespace or punctuation, otherwise a
//! hyphen — and then the transposed chord plus one trailing space is
//! appended to the chord run.

use crate::pitch::transpose_chord_spec;
use crate::style::{run_width, GSpan, Span, Style, StyledRun};
use crate::token::{segs_chars, tokenize_spec, GSeg, MarkKind};
use vstd::prelude::*;

verus! {

/// The text between a token's brackets.
pub open spec fn tag_inside(t: Seq<char>) -> Seq<char> {
    if t.len() >= 2 {
        t.subrange(1, t.len() - 1)
    } else {
        Seq::empty()
    }
}

/// The padding character used on the lyric side: a space when the lyric
/// text so far ends in whitespace or punctuation (or is empty), else a
/// hyphen, so padding inside a word reads as a hyphenated continuation.
pub open spec fn pad_char(ls: Seq<char>) -> char {
    if ls.len() == 0 {
        ' '
    } else {
        let c = ls[ls.len() - 1];
        if c == ' ' || c == ',' || c == '.' || c == ':' || c == ';' {
            ' '
        } else {
            '-'
        }
    }
}

/// `n` copies of `c`.
pub open spec fn repeat_char(c: char, n: int) -> Seq<char> {
    Seq::new(if n >= 0 {
        n as nat
    } else {
        0
    }, |i: int| c)
}

/// One aligner step over the chord-token segmentation of a stretch.
/// `base_c` and `base_l` are the widths the line's runs already have;
/// `cs` and `ls` are the chord and lyric text built from this stretch.
pub open spec fn align_parts(
    parts: Seq<GSeg>,
    t: int,
    base_c: int,
    base_l: int,
    cs: Seq<char>,
    ls: Seq<char>,
) -> (Seq<char>, Seq<char>)
    decreases parts.len(),
{
    if parts.len() == 0 {
        (cs, ls)
    } else if parts[0].matched {
        let diff = (base_l + ls.len()) - (base_c + cs.len());
        let cs1 = if diff > 0 {
            cs + repeat_char(' ', diff)
        } else {
            cs
        };
        let ls1 = if diff < 0 {
            ls + repeat_char(pad_char(ls), -diff)
        } else {
            ls
        };
        let cs2 = cs1 + transpose_chord_spec(tag_inside(parts[0].text), t) + seq![' '];
        align_parts(parts.drop_first(), t, base_c, base_l, cs2, ls1)
    } else {
        align_parts(parts.drop_first(), t, base_c, base_l, cs, ls + parts[0].text)
    }
}

/// The chord and lyric text the aligner makes of one literal stretch.
pub open spec fn align_stretch_spec(stretch: Seq<char>, t: int, base_c: int, base_l: int) -> (
    Seq<char>,
    Seq<char>,
) {
    align_parts(
        tokenize_spec(MarkKind::Chord, stretch),
        t,
        base_c,
        base_l,
        Seq::empty(),
        Seq::empty(),
    )
}

/// The line's runs after the aligner has consumed one stretch: each of
/// the two built texts is appended as one styled span when non-empty.
pub open spec fn align_runs_spec(
    chords: Seq<GSpan>,
    text: Seq<GSpan>,
    stretch: Seq<char>,
    t: int,
) -> (Seq<GSpan>, Seq<GSpan>) {
    let built = align_stretch_spec(stretch, t, run_width(chords) as int, run_width(text) as int);
    (
        if built.0.len() > 0 {
            chords.push(GSpan { text: built.0, style: Style::Chord })
        } else {
            chords
        },
        if built.1.len() > 0 {
            text.push(GSpan { text: built.1, style: Style::Plain })
        } else {
            text
        },
    )
}

/// A transposed chord name is at most twice as long as its source.
pub proof fn lemma_transpose_chord_len(s: Seq<char>, t: int)
    ensures
        transpose_chord_spec(s, t).len() <= 2 * s.len(),
{
    crate::token::lemma_tokenize_shape(MarkKind::Root, s, 0);
    lemma_transpose_segs_len(tokenize_spec(MarkKind::Root, s), t);
    crate::token::lemma_tokenize_concat(MarkKind::Root, s);
}

proof fn lemma_transpose_segs_len(segs: Seq<GSeg>, t: int)
    requires
        forall|n: int|
            0 <= n < segs.len() ==> (#[trigger] segs[n]).matched ==> segs[n].text.len() >= 1,
    ensures
        crate::pitch::transpose_segs(segs, t).len() <= 2 * segs_chars(segs).len(),
    decreases segs.len(),
{
    if segs.len() > 0 {
        assert(segs[0].matched ==> segs[0].text.len() >= 1);
        assert forall|n: int|
            0 <= n < segs.drop_first().len() && (#[trigger] segs.drop_first()[n]).matched
            implies segs.drop_first()[n].text.len() >= 1 by {
            assert(segs.drop_first()[n] == segs[n + 1]);
        }
        lemma_transpose_segs_len(segs.drop_first(), t);
    }
}

/// Append `n` copies of `c`.
pub fn push_repeat(v: &mut Vec<char>, c: char, n: usize)
    ensures
        final(v)@ == old(v)@ + repeat_char(c, n as int),
{
    let mut i: usize = 0;
    proof {
        assert(v@ =~= old(v)@ + repeat_char(c, 0));
    }
    while i < n
        invariant
            i <= n,
            v@ == old(v)@ + repeat_char(c, i as int),
        decreases n - i,
    {
        v.push(c);
        proof {
            assert(old(v)@ + repeat_char(c, i + 1) =~= (old(v)@ + repeat_char(c, i as int)).push(
                c,
            ));
        }
        i = i + 1;
    }
}

/// Feed one literal stretch of a line through the aligner, extending
/// the line's chord and lyric runs.
pub fn align_stretch(chords: &mut StyledRun, text: &mut StyledRun, stretch: &Vec<char>, t: u8)
    requires
        t < 12,
        run_width(old(chords)@) + 3 * stretch@.len() + 4 <= usize::MAX,
        run_width(old(text)@) + 3 * stretch@.len() + 4 <= usize::MAX,
    ensures
        ({
            let r = align_runs_spec(old(chords)@, old(text)@, stretch@, t as int);
            final(chords)@ == r.0 && final(text)@ == r.1
        }),
        run_width(final(chords)@) <= vstd::math::max(
            run_width(old(chords)@) as int,
            run_width(old(text)@) as int,
        ) + 3 * stretch@.len(),
        run_width(final(text)@) <= vstd::math::max(
            run_width(old(chords)@) as int,
            run_width(old(text)@) as int,
        ) + 3 * stretch@.len(),
{
    let base_c = chords.width();
    let base_l = text.width();
    let parts = crate::token::tokenize(MarkKind::Chord, stretch);
    let ghost gparts = parts@.map(|n: int, seg: crate::token::Segment| seg@);
    let ghost m0 = vstd::math::max(base_c as int, base_l as int);
    let mut cs: Vec<char> = Vec::new();
    let mut ls: Vec<char> = Vec::new();
    let mut i: usize = 0;
    proof {
        assert(gparts.skip(0) =~= gparts);
        assert(segs_chars(gparts.subrange(0, 0)) =~= Seq::<char>::empty());
        crate::token::lemma_tokenize_shape(MarkKind::Chord, stretch@, 0);
        crate::aligner::lemma_segs_chars_split(gparts, 0);
    }
    while i < parts.len()
        invariant
            i <= parts@.len(),
            t < 12,
            gparts == parts@.map(|n: int, seg: crate::token::Segment| seg@),
            segs_chars(gparts) == stretch@,
            forall|n: int|
                0 <= n < gparts.len() ==> {
                    let seg = #[trigger] gparts[n];
                    seg.matched ==> seg.text.len() >= 2
                },
            m0 == vstd::math::max(base_c as int, base_l as int),
            m0 + 3 * stretch@.len() + 4 <= usize::MAX,
            align_parts(gparts, t as int, base_c as int, base_l as int, Seq::empty(), Seq::empty())
                == align_parts(
                gparts.skip(i as int),
                t as int,
                base_c as int,
                base_l as int,
                cs@,
                ls@,
            ),
            base_c + cs@.len() <= m0 + 3 * segs_chars(gparts.subrange(0, i as int)).len(),
            base_l + ls@.len() <= m0 + 3 * segs_chars(gparts.subrange(0, i as int)).len(),
            segs_chars(gparts.subrange(0, i as int)).len() + segs_chars(gparts.skip(i as int)).len()
                == stretch@.len(),
        decreases parts@.len() - i,
    {
        let ghost rest = gparts.skip(i as int);
        let ghost old_cs = cs@;
        let ghost old_ls = ls@;
        proof {
            assert(rest[0] == gparts[i as int]);
            assert(rest.drop_first() =~= gparts.skip(i + 1));
            assert(gparts.subrange(0, i + 1) =~= gparts.subrange(0, i as int).push(
                gparts[i as int],
            ));
            lemma_segs_chars_push(gparts.subrange(0, i as int), gparts[i as int]);
            lemma_segs_chars_split(gparts, i + 1);
        }
        if parts[i].matched {
            let ghost diff = (base_l + old_ls.len()) - (base_c + old_cs.len());
            let c_total = base_c + cs.len();
            let l_total = base_l + ls.len();
            if l_total > c_total {
                push_repeat(&mut cs, ' ', l_total - c_total);
            } else if c_total > l_total {
                let pad: char = if ls.len() == 0 {
                    ' '
                } else {
                    let last = ls[ls.len() - 1];
                    if last == ' ' || last == ',' || last == '.' || last == ':' || last == ';' {
                        ' '
                    } else {
                        '-'
                    }
                };
                proof {
                    assert(pad == pad_char(old_ls));
                }
                push_repeat(&mut ls, pad, c_total - l_total);
            }
            let ghost cs1 = if diff > 0 {
                old_cs + repeat_char(' ', diff)
            } else {
                old_cs
            };
            let ghost ls1 = if diff < 0 {
                old_ls + repeat_char(pad_char(old_ls), -diff)
            } else {
                old_ls
            };
            proof {
                if diff > 0 {
                    assert(cs@ =~= cs1);
                    assert(ls@ =~= ls1);
                } else if diff < 0 {
                    assert(cs@ =~= cs1);
                    assert(ls@ =~= ls1);
                } else {
                    assert(cs@ =~= cs1);
                    assert(ls@ =~= ls1);
                }
            }
            let inside = if parts[i].text.len() >= 2 {
                crate::textops::subrange_chars(&parts[i].text, 1, parts[i].text.len() - 1)
            } else {
                Vec::new()
            };
            proof {
                assert(inside@ =~= tag_inside(gparts[i as int].text));
            }
            let moved = crate::pitch::transpose_chord(&inside, t as i32);
            proof {
                lemma_transpose_chord_len(inside@, t as int);
            }
            crate::textops::append_chars(&mut cs, &moved);
            cs.push(' ');
            proof {
                let chord_part = transpose_chord_spec(tag_inside(gparts[i as int].text), t as int);
                assert(cs@ =~= cs1 + chord_part + seq![' ']);
                assert(gparts[i as int].text.len() >= 2);
                assert(tag_inside(gparts[i as int].text).len() == gparts[i as int].text.len() - 2);
                assert(base_c + cs@.len() <= m0 + 3 * segs_chars(gparts.subrange(0, i + 1)).len());
                assert(base_l + ls@.len() <= m0 + 3 * segs_chars(gparts.subrange(0, i + 1)).len());
            }
        } else {
            let part_text = crate::textops::subrange_chars(&parts[i].text, 0, parts[i].text.len());
            proof {
                assert(part_text@ =~= gparts[i as int].text);
            }
            crate::textops::append_chars(&mut ls, &part_text);
        }
        i = i + 1;
    }
    proof {
        assert(gparts.skip(gparts.len() as int) =~= Seq::<GSeg>::empty());
        assert(gparts.subrange(0, gparts.len() as int) =~= gparts);
    }
    if cs.len() > 0 {
        proof {
            crate::style::lemma_run_width_push(chords@, GSpan { text: cs@, style: Style::Chord });
        }
        chords.push(Span::new(cs, Style::Chord));
    }
    if ls.len() > 0 {
        proof {
            crate::style::lemma_run_width_push(text@, GSpan { text: ls@, style: Style::Plain });
        }
        text.push(Span::new(ls, Style::Plain));
    }
}

/// The aligner consumes its parts left to right: running it on all
/// parts is running it on a prefix and then on the rest, from the state
/// the prefix left behind.
pub proof fn lemma_align_parts_split(
    parts: Seq<GSeg>,
    n: int,
    t: int,
    base_c: int,
    base_l: int,
    cs: Seq<char>,
    ls: Seq<char>,
)
    requires
        0 <= n <= parts.len(),
    ensures
        ({
            let st = align_parts(parts.subrange(0, n), t, base_c, base_l, cs, ls);
            align_parts(parts, t, base_c, base_l, cs, ls) == align_parts(
                parts.skip(n),
                t,
                base_c,
                base_l,
                st.0,
                st.1,
            )
        }),
    decreases n,
{
    if n == 0 {
        assert(parts.subrange(0, 0) =~= Seq::<GSeg>::empty());
        assert(parts.skip(0) =~= parts);
    } else {
        let head = parts[0];
        let pre = parts.subrange(0, n);
        assert(pre[0] == head);
        assert(pre.drop_first() =~= parts.drop_first().subrange(0, n - 1));
        assert(parts.skip(n) =~= parts.drop_first().skip(n - 1));
        if head.matched {
            let diff = (base_l + ls.len()) - (base_c + cs.len());
            let cs1 = if diff > 0 {
                cs + repeat_char(' ', diff)
            } else {
                cs
            };
            let ls1 = if diff < 0 {
                ls + repeat_char(pad_char(ls), -diff)
            } else {
                ls
            };
            let cs2 = cs1 + transpose_chord_spec(tag_inside(head.text), t) + seq![' '];
            lemma_align_parts_split(parts.drop_first(), n - 1, t, base_c, base_l, cs2, ls1);
        } else {
            lemma_align_parts_split(parts.drop_first(), n - 1, t, base_c, base_l, cs, ls + head.text);
        }
    }
}

/// What the aligner has built only grows: the texts it returns begin
/// with the texts it started from.
pub proof fn lemma_align_parts_prefix(
    parts: Seq<GSeg>,
    t: int,
    base_c: int,
    base_l: int,
    cs: Seq<char>,
    ls: Seq<char>,
)
    ensures
        ({
            let r = align_parts(parts, t, base_c, base_l, cs, ls);
            r.0.len() >= cs.len() && r.0.subrange(0, cs.len() as int) == cs && r.1.len()
                >= ls.len() && r.1.subrange(0, ls.len() as int) == ls
        }),
    decreases parts.len(),
{
    if parts.len() == 0 {
        let r = align_parts(parts, t, base_c, base_l, cs, ls);
        assert(r.0.subrange(0, cs.len() as int) =~= cs);
        assert(r.1.subrange(0, ls.len() as int) =~= ls);
    } else if parts[0].matched {
        let diff = (base_l + ls.len()) - (base_c + cs.len());
        let cs1 = if diff > 0 {
            cs + repeat_char(' ', diff)
        } else {
            cs
        };
        let ls1 = if diff < 0 {
            ls + repeat_char(pad_char(ls), -diff)
        } else {
            ls
        };
        let cs2 = cs1 + transpose_chord_spec(tag_inside(parts[0].text), t) + seq![' '];
        lemma_align_parts_prefix(parts.drop_first(), t, base_c, base_l, cs2, ls1);
        let r = align_parts(parts, t, base_c, base_l, cs, ls);
        assert(r.0.subrange(0, cs.len() as int) =~= cs);
        assert(r.1.subrange(0, ls.len() as int) =~= ls);
    } else {
        lemma_align_parts_prefix(parts.drop_first(), t, base_c, base_l, cs, ls + parts[0].text);
        let r = align_parts(parts, t, base_c, base_l, cs, ls);
        assert(r.0.subrange(0, cs.len() as int) =~= cs);
        assert(r.1.subrange(0, ls.len() as int) =~= ls);
    }
}

/// Chord alignment: when the aligner places the chord of token `k`, the
/// column where that chord begins in the chord text equals the column
/// where the lyric text following it goes on — so no chord ever renders
/// left of the syllable it is attached to — and the transposed chord
/// name stands at exactly that column of the finished chord text.
pub proof fn lemma_chord_alignment(
    parts: Seq<GSeg>,
    t: int,
    base_c: int,
    base_l: int,
    k: int,
)
    requires
        0 <= k < parts.len(),
        parts[k].matched,
        base_c >= 0,
        base_l >= 0,
    ensures
        ({
            let st = align_parts(parts.subrange(0, k), t, base_c, base_l, Seq::empty(), Seq::empty());
            let c_total = base_c + st.0.len();
            let l_total = base_l + st.1.len();
            let col = if l_total >= c_total {
                l_total
            } else {
                c_total
            };
            let full = align_parts(parts, t, base_c, base_l, Seq::empty(), Seq::empty());
            let chord = transpose_chord_spec(tag_inside(parts[k].text), t);
            // the chord starts at `col`, and the lyric text attached to it
            // continues at `col` as well: never left of its syllable
            &&& col >= l_total
            &&& base_c + full.0.len() >= col + chord.len()
            &&& full.0.subrange(col - base_c, col - base_c + chord.len()) == chord
        }),
{
    let st = align_parts(parts.subrange(0, k), t, base_c, base_l, Seq::empty(), Seq::empty());
    let cs = st.0;
    let ls = st.1;
    let c_total = base_c + cs.len();
    let l_total = base_l + ls.len();
    let col = if l_total >= c_total {
        l_total
    } else {
        c_total
    };
    lemma_align_parts_split(parts, k, t, base_c, base_l, Seq::empty(), Seq::empty());
    let rest = parts.skip(k);
    assert(rest[0] == parts[k]);
    assert(rest.drop_first() =~= parts.skip(k + 1));
    let diff = l_total - c_total;
    let cs1 = if diff > 0 {
        cs + repeat_char(' ', diff)
    } else {
        cs
    };
    let ls1 = if diff < 0 {
        ls + repeat_char(pad_char(ls), -diff)
    } else {
        ls
    };
    let chord = transpose_chord_spec(tag_inside(parts[k].text), t);
    let cs2 = cs1 + chord + seq![' '];
    assert(base_c + cs1.len() == col);
    lemma_align_parts_prefix(parts.skip(k + 1), t, base_c, base_l, cs2, ls1);
    let full = align_parts(parts, t, base_c, base_l, Seq::empty(), Seq::empty());
    assert(full.0.subrange(0, cs2.len() as int) == cs2);
    assert forall|j: int| 0 <= j < chord.len() implies full.0[col - base_c + j] == chord[j] by {
        assert(full.0.subrange(0, cs2.len() as int)[cs1.len() + j] == full.0[cs1.len() + j]);
        assert(cs2[cs1.len() + j] == chord[j]);
    }
    assert(full.0.subrange(col - base_c, col - base_c + chord.len()) =~= chord);
}

/// Splitting a segment sequence splits its character count.
pub proof fn lemma_segs_chars_split(segs: Seq<GSeg>, n: int)
    requires
        0 <= n <= segs.len(),
    ensures
        segs_chars(segs.subrange(0, n)) + segs_chars(segs.skip(n)) == segs_chars(segs),
    decreases n,
{
    if n == 0 {
        assert(segs.subrange(0, 0) =~= Seq::<GSeg>::empty());
        assert(segs.skip(0) =~= segs);
        assert(segs_chars(Seq::<GSeg>::empty()) + segs_chars(segs) =~= segs_chars(segs));
    } else {
        lemma_segs_chars_split(segs.drop_first(), n - 1);
        assert(segs.subrange(0, n).drop_first() =~= segs.drop_first().subrange(0, n - 1));
        assert(segs.skip(n) =~= segs.drop_first().skip(n - 1));
        assert(segs_chars(segs.subrange(0, n)) =~= segs[0].text + segs_chars(
            segs.drop_first().subrange(0, n - 1),
        ));
        assert(segs_chars(segs.subrange(0, n)) + segs_chars(segs.skip(n)) =~= segs[0].text + (
        segs_chars(segs.drop_first().subrange(0, n - 1)) + segs_chars(
            segs.drop_first().skip(n - 1),
        )));
    }
}

/// Appending one segment appends its characters.
pub proof fn lemma_segs_chars_push(segs: Seq<GSeg>, s: GSeg)
    ensures
        segs_chars(segs.push(s)) == segs_chars(segs) + s.text,
    decreases segs.len(),
{
    if segs.len() == 0 {
        assert(segs.push(s).drop_first() =~= Seq::<GSeg>::empty());
        assert(segs_chars(Seq::<GSeg>::empty()) =~= Seq::<char>::empty());
        assert(segs.push(s)[0] == s);
        assert(segs_chars(segs.push(s)) =~= segs_chars(segs) + s.text);
    } else {
        lemma_segs_chars_push(segs.drop_first(), s);
        assert(segs.push(s).drop_first() =~= segs.drop_first().push(s));
        assert(segs.push(s)[0] == segs[0]);
        assert(segs_chars(segs.push(s)) =~= segs_chars(segs) + s.text);
    }
}

} // verus!
