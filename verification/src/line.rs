//! One line of a rendered song: an optional chord run over an optional
//! lyric run.
//!
//! A line's width is the larger of its runs' widths; its height is the
//! number of runs present. Splitting a line at a character column divides
//! both runs at that column, cutting a span in two where the column falls
//! inside it.

use crate::style::{run_width, GSpan, Span, StyledRun};
use vstd::prelude::*;

verus! {

/// The model of a line: a pair of optional span sequences.
#[verifier::ext_equal]
pub struct GLine {
    pub chords: Option<Seq<GSpan>>,
    pub text: Option<Seq<GSpan>>,
}

/// Width of an optional run.
pub open spec fn opt_width(r: Option<Seq<GSpan>>) -> nat {
    match r {
        Some(spans) => run_width(spans),
        None => 0,
    }
}

/// The width of a line: the larger of its two runs' widths.
pub open spec fn line_width(l: GLine) -> nat {
    if opt_width(l.chords) >= opt_width(l.text) {
        opt_width(l.chords)
    } else {
        opt_width(l.text)
    }
}

/// The height of a line: how many runs are present.
pub open spec fn line_height(l: GLine) -> nat {
    match (l.chords, l.text) {
        (Some(_), Some(_)) => 2,
        (Some(_), None) => 1,
        (None, Some(_)) => 1,
        (None, None) => 0,
    }
}

/// A song line: chords above lyrics, either run possibly absent. A run
/// that is present but empty still occupies a rendered row.
#[derive(Debug)]
pub enum SongLine {
    /// No runs at all: a zero-height spacer.
    Empty,
    /// Only a chord run.
    Chords(StyledRun),
    /// Only a lyric run.
    Text(StyledRun),
    /// A chord run aligned over a lyric run.
    Both { chords: StyledRun, text: StyledRun },
}

impl View for SongLine {
    type V = GLine;

    open spec fn view(&self) -> GLine {
        match self {
            SongLine::Empty => GLine { chords: None, text: None },
            SongLine::Chords(c) => GLine { chords: Some(c@), text: None },
            SongLine::Text(t) => GLine { chords: None, text: Some(t@) },
            SongLine::Both { chords, text } => GLine {
                chords: Some(chords@),
                text: Some(text@),
            },
        }
    }
}

/// Why a split request was refused.
#[derive(Clone, Copy, Debug, PartialEq, Eq, Structural)]
pub enum SplitError {
    /// The split index does not fall inside the line.
    IndexOutOfRange,
    /// The line has no content to split.
    EmptyLine,
}

/// Split a run at relative column `i`: spans left of the column go left,
/// spans right of it go right, and a span the column falls inside is cut
/// into two spans of the same style.
pub open spec fn split_run_spec(r: Seq<GSpan>, i: int) -> (Seq<GSpan>, Seq<GSpan>)
    decreases r.len(),
{
    if r.len() == 0 {
        (Seq::empty(), Seq::empty())
    } else if 0 < i && i < r[0].text.len() {
        (
            seq![GSpan { text: r[0].text.subrange(0, i), style: r[0].style }],
            seq![
                GSpan {
                    text: r[0].text.subrange(i, r[0].text.len() as int),
                    style: r[0].style,
                },
            ] + r.drop_first(),
        )
    } else if 0 < i {
        let rest = split_run_spec(r.drop_first(), i - r[0].text.len());
        (seq![r[0]] + rest.0, rest.1)
    } else {
        (Seq::empty(), r)
    }
}

/// The two halves of a split run carry exactly the split column's worth
/// of characters: the left half has width `min(i, w)`, and the right half
/// the rest.
pub proof fn lemma_split_run_widths(r: Seq<GSpan>, i: int)
    ensures
        run_width(split_run_spec(r, i).0) == if i <= 0 {
            0
        } else if i >= run_width(r) {
            run_width(r) as int
        } else {
            i
        },
        run_width(split_run_spec(r, i).1) == run_width(r) - run_width(split_run_spec(r, i).0),
    decreases r.len(),
{
    crate::style::lemma_run_width_concat(Seq::empty(), r);
    if r.len() == 0 {
    } else if 0 < i && i < r[0].text.len() {
        let (l, rr) = split_run_spec(r, i);
        assert(l.drop_first() =~= Seq::<GSpan>::empty());
        assert(run_width(l) == i);
        let tail = GSpan { text: r[0].text.subrange(i, r[0].text.len() as int), style: r[0].style };
        crate::style::lemma_run_width_concat(seq![tail], r.drop_first());
        assert(seq![tail].drop_first() =~= Seq::<GSpan>::empty());
        assert(run_width(rr) == r[0].text.len() - i + run_width(r.drop_first()));
    } else if 0 < i {
        lemma_split_run_widths(r.drop_first(), i - r[0].text.len());
        let rest = split_run_spec(r.drop_first(), i - r[0].text.len());
        crate::style::lemma_run_width_concat(seq![r[0]], rest.0);
        assert(seq![r[0]].drop_first() =~= Seq::<GSpan>::empty());
    }
}

/// Split the suffix of `spans` starting at `j` at relative column `i`.
fn split_run_at(spans: &Vec<Span>, j: usize, i: usize) -> (r: (Vec<Span>, Vec<Span>))
    requires
        j <= spans@.len(),
    ensures
        ({
            let g = split_run_spec(spans@.map(|n: int, s: Span| s@).skip(j as int), i as int);
            r.0@.map(|n: int, s: Span| s@) == g.0 && r.1@.map(|n: int, s: Span| s@) == g.1
        }),
    decreases spans@.len() - j,
{
    let ghost whole = spans@.map(|n: int, s: Span| s@);
    let ghost rest = whole.skip(j as int);
    if j >= spans.len() {
        let r: (Vec<Span>, Vec<Span>) = (Vec::new(), Vec::new());
        proof {
            assert(rest =~= Seq::<GSpan>::empty());
            assert(r.0@.map(|n: int, s: Span| s@) =~= split_run_spec(rest, i as int).0);
            assert(r.1@.map(|n: int, s: Span| s@) =~= split_run_spec(rest, i as int).1);
        }
        return r;
    }
    proof {
        assert(rest[0] == whole[j as int]);
        assert(rest.drop_first() =~= whole.skip(j + 1));
    }
    let w0 = spans[j].width();
    if 0 < i && i < w0 {
        let head_left = Span::new(
            crate::textops::subrange_chars(&spans[j].content, 0, i),
            spans[j].style,
        );
        let head_right = Span::new(
            crate::textops::subrange_chars(&spans[j].content, i, spans[j].content.len()),
            spans[j].style,
        );
        let mut left: Vec<Span> = Vec::new();
        left.push(head_left);
        let mut right: Vec<Span> = Vec::new();
        right.push(head_right);
        let mut t: usize = j + 1;
        while t < spans.len()
            invariant
                j + 1 <= t <= spans@.len(),
                whole == spans@.map(|n: int, s: Span| s@),
                right@.map(|n: int, s: Span| s@) =~= seq![
                    GSpan {
                        text: whole[j as int].text.subrange(
                            i as int,
                            whole[j as int].text.len() as int,
                        ),
                        style: whole[j as int].style,
                    },
                ] + whole.subrange(j + 1, t as int),
            decreases spans@.len() - t,
        {
            let ghost prev = right@.map(|n: int, s: Span| s@);
            right.push(spans[t].duplicate());
            proof {
                assert(right@.map(|n: int, s: Span| s@) =~= prev.push(whole[t as int]));
                assert(whole.subrange(j + 1, t + 1) =~= whole.subrange(j + 1, t as int).push(
                    whole[t as int],
                ));
            }
            t = t + 1;
        }
        proof {
            assert(whole.subrange(j + 1, whole.len() as int) =~= whole.skip(j + 1));
            assert(left@.map(|n: int, s: Span| s@) =~= split_run_spec(rest, i as int).0);
        }
        (left, right)
    } else if 0 < i {
        let (rest_left, right) = split_run_at(spans, j + 1, i - w0);
        let mut left: Vec<Span> = Vec::new();
        left.push(spans[j].duplicate());
        let mut t: usize = 0;
        while t < rest_left.len()
            invariant
                t <= rest_left@.len(),
                left@.map(|n: int, s: Span| s@) =~= seq![whole[j as int]] + rest_left@.map(
                    |n: int, s: Span| s@,
                ).subrange(0, t as int),
            decreases rest_left@.len() - t,
        {
            let ghost prev = left@.map(|n: int, s: Span| s@);
            left.push(rest_left[t].duplicate());
            proof {
                let m = rest_left@.map(|n: int, s: Span| s@);
                assert(left@.map(|n: int, s: Span| s@) =~= prev.push(m[t as int]));
                assert(m.subrange(0, t + 1) =~= m.subrange(0, t as int).push(m[t as int]));
            }
            t = t + 1;
        }
        proof {
            let m = rest_left@.map(|n: int, s: Span| s@);
            assert(m.subrange(0, m.len() as int) =~= m);
            assert(left@.map(|n: int, s: Span| s@) =~= split_run_spec(rest, i as int).0);
        }
        (left, right)
    } else {
        let mut right: Vec<Span> = Vec::new();
        let mut t: usize = j;
        while t < spans.len()
            invariant
                j <= t <= spans@.len(),
                whole == spans@.map(|n: int, s: Span| s@),
                right@.map(|n: int, s: Span| s@) =~= whole.subrange(j as int, t as int),
            decreases spans@.len() - t,
        {
            let ghost prev = right@.map(|n: int, s: Span| s@);
            right.push(spans[t].duplicate());
            proof {
                assert(right@.map(|n: int, s: Span| s@) =~= prev.push(whole[t as int]));
                assert(whole.subrange(j as int, t + 1) =~= whole.subrange(j as int, t as int).push(
                    whole[t as int],
                ));
            }
            t = t + 1;
        }
        let left: Vec<Span> = Vec::new();
        proof {
            assert(whole.subrange(j as int, whole.len() as int) =~= rest);
            assert(left@.map(|n: int, s: Span| s@) =~= split_run_spec(rest, i as int).0);
        }
        (left, right)
    }
}

/// Split a whole run at column `i`.
fn split_run(run: &StyledRun, i: usize) -> (r: (StyledRun, StyledRun))
    ensures
        r.0@ == split_run_spec(run@, i as int).0,
        r.1@ == split_run_spec(run@, i as int).1,
{
    let (l, r) = split_run_at(&run.spans, 0, i);
    proof {
        assert(run@.skip(0) =~= run@);
    }
    (StyledRun { spans: l }, StyledRun { spans: r })
}

/// The two halves of a line split at column `i`: both runs divided at
/// the same column, presence of each run preserved.
pub open spec fn split_line_spec(l: GLine, i: int) -> (GLine, GLine) {
    let chords_split = match l.chords {
        Some(c) => Some(split_run_spec(c, i)),
        None => None,
    };
    let text_split = match l.text {
        Some(t) => Some(split_run_spec(t, i)),
        None => None,
    };
    (
        GLine {
            chords: match chords_split {
                Some(p) => Some(p.0),
                None => None,
            },
            text: match text_split {
                Some(p) => Some(p.0),
                None => None,
            },
        },
        GLine {
            chords: match chords_split {
                Some(p) => Some(p.1),
                None => None,
            },
            text: match text_split {
                Some(p) => Some(p.1),
                None => None,
            },
        },
    )
}

impl SongLine {
    /// A line with both a chord run and a lyric run.
    pub fn from(chords: StyledRun, text: StyledRun) -> (r: SongLine)
        ensures
            r@ == (GLine { chords: Some(chords@), text: Some(text@) }),
    {
        SongLine::Both { chords, text }
    }

    /// A line with only a lyric run.
    pub fn from_text(text: StyledRun) -> (r: SongLine)
        ensures
            r@ == (GLine { chords: None, text: Some(text@) }),
    {
        SongLine::Text(text)
    }

    /// A line with only a chord run.
    pub fn from_chords(chords: StyledRun) -> (r: SongLine)
        ensures
            r@ == (GLine { chords: Some(chords@), text: None }),
    {
        SongLine::Chords(chords)
    }

    /// The rendered width: the larger of the runs' widths.
    pub fn width(&self) -> (r: usize)
        requires
            line_width(self@) <= usize::MAX,
        ensures
            r == line_width(self@),
    {
        match self {
            SongLine::Empty => 0,
            SongLine::Chords(c) => c.width(),
            SongLine::Text(t) => t.width(),
            SongLine::Both { chords, text } => {
                let cw = chords.width();
                let tw = text.width();
                if cw >= tw {
                    cw
                } else {
                    tw
                }
            },
        }
    }

    /// The rendered height: how many runs are present.
    pub fn height(&self) -> (r: usize)
        ensures
            r == line_height(self@),
    {
        match self {
            SongLine::Empty => 0,
            SongLine::Chords(_) => 1,
            SongLine::Text(_) => 1,
            SongLine::Both { .. } => 2,
        }
    }

    /// An identical copy of this line.
    pub fn duplicate(&self) -> (r: SongLine)
        ensures
            r@ == self@,
    {
        match self {
            SongLine::Empty => SongLine::Empty,
            SongLine::Chords(c) => SongLine::Chords(c.duplicate()),
            SongLine::Text(t) => SongLine::Text(t.duplicate()),
            SongLine::Both { chords, text } => SongLine::Both {
                chords: chords.duplicate(),
                text: text.duplicate(),
            },
        }
    }

    /// Split this line at character column `index`. Succeeds exactly when
    /// the line has content and the column falls inside it; both runs are
    /// divided at the same column, each span keeping its style.
    pub fn split_at(&self, index: usize) -> (r: Result<(SongLine, SongLine), SplitError>)
        requires
            line_width(self@) <= usize::MAX,
        ensures
            match r {
                Ok(parts) => {
                    &&& line_height(self@) > 0
                    &&& index < line_width(self@)
                    &&& parts.0@ == split_line_spec(self@, index as int).0
                    &&& parts.1@ == split_line_spec(self@, index as int).1
                },
                Err(SplitError::EmptyLine) => line_height(self@) == 0,
                Err(SplitError::IndexOutOfRange) => line_height(self@) > 0 && index >= line_width(
                    self@,
                ),
            },
    {
        if matches!(self, SongLine::Empty) {
            return Err(SplitError::EmptyLine);
        }
        if index >= self.width() {
            return Err(SplitError::IndexOutOfRange);
        }
        match self {
            SongLine::Empty => Err(SplitError::EmptyLine),
            SongLine::Chords(c) => {
                let (l, r) = split_run(c, index);
                Ok((SongLine::Chords(l), SongLine::Chords(r)))
            },
            SongLine::Text(t) => {
                let (l, r) = split_run(t, index);
                Ok((SongLine::Text(l), SongLine::Text(r)))
            },
            SongLine::Both { chords, text } => {
                let (cl, cr) = split_run(chords, index);
                let (tl, tr) = split_run(text, index);
                Ok((
                    SongLine::Both { chords: cl, text: tl },
                    SongLine::Both { chords: cr, text: tr },
                ))
            },
        }
    }

    /// The runs of this line, chords first, for rendering.
    pub fn to_spans(self) -> (r: Vec<StyledRun>)
        ensures
            r@.map(|n: int, run: StyledRun| run@) == line_spans_spec(self@),
    {
        let mut r: Vec<StyledRun> = Vec::new();
        match self {
            SongLine::Empty => {},
            SongLine::Chords(c) => {
                r.push(c);
            },
            SongLine::Text(t) => {
                r.push(t);
            },
            SongLine::Both { chords, text } => {
                r.push(chords);
                r.push(text);
            },
        }
        proof {
            assert(r@.map(|n: int, run: StyledRun| run@) =~= line_spans_spec(self@));
        }
        r
    }
}

/// The runs of a line in rendering order: chords first, then lyrics.
pub open spec fn line_spans_spec(l: GLine) -> Seq<Seq<GSpan>> {
    match (l.chords, l.text) {
        (Some(c), Some(t)) => seq![c, t],
        (Some(c), None) => seq![c],
        (None, Some(t)) => seq![t],
        (None, None) => Seq::empty(),
    }
}

} // verus!
