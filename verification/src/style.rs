//! Styled text runs: the unit of rendered output.
//!
//! A `Span` is a piece of text carrying one style tag; a `StyledRun` is an
//! ordered sequence of spans. A run's width is the total number of
//! characters over its spans.

use vstd::prelude::*;

verus! {

/// A style tag attached to a piece of rendered text. The renderer decides
/// what each tag looks like on screen; the library only tracks which tag
/// each piece of text carries.
#[derive(Clone, Copy, Debug, PartialEq, Eq, Structural)]
pub enum Style {
    Plain,
    Chord,
    Comment,
    Title,
}

/// One piece of text with a single style.
#[derive(Debug)]
pub struct Span {
    pub content: Vec<char>,
    pub style: Style,
}

/// The mathematical model of a `Span`: its character sequence and style.
#[verifier::ext_equal]
pub struct GSpan {
    pub text: Seq<char>,
    pub style: Style,
}

impl View for Span {
    type V = GSpan;

    open spec fn view(&self) -> GSpan {
        GSpan { text: self.content@, style: self.style }
    }
}

impl Span {
    /// Build a span from its characters and style.
    pub fn new(content: Vec<char>, style: Style) -> (r: Span)
        ensures
            r@.text == content@,
            r@.style == style,
    {
        Span { content, style }
    }

    /// The number of characters in this span.
    pub fn width(&self) -> (r: usize)
        ensures
            r == self@.text.len(),
    {
        self.content.len()
    }

    /// An identical copy of this span.
    pub fn duplicate(&self) -> (r: Span)
        ensures
            r@ == self@,
    {
        let mut content: Vec<char> = Vec::new();
        let mut i: usize = 0;
        while i < self.content.len()
            invariant
                i <= self.content.len(),
                content@ == self.content@.subrange(0, i as int),
            decreases self.content.len() - i,
        {
            content.push(self.content[i]);
            i = i + 1;
        }
        proof {
            assert(content@ == self.content@);
        }
        Span { content, style: self.style }
    }
}

/// Total character count of a sequence of spans.
pub open spec fn run_width(spans: Seq<GSpan>) -> nat
    decreases spans.len(),
{
    if spans.len() == 0 {
        0
    } else {
        spans[0].text.len() + run_width(spans.drop_first())
    }
}

/// Width distributes over concatenation of span sequences.
pub proof fn lemma_run_width_concat(a: Seq<GSpan>, b: Seq<GSpan>)
    ensures
        run_width(a + b) == run_width(a) + run_width(b),
    decreases a.len(),
{
    if a.len() == 0 {
        assert(a + b =~= b);
    } else {
        assert((a + b).drop_first() =~= a.drop_first() + b);
        lemma_run_width_concat(a.drop_first(), b);
    }
}

/// Appending one span adds its length to the width.
pub proof fn lemma_run_width_push(a: Seq<GSpan>, s: GSpan)
    ensures
        run_width(a.push(s)) == run_width(a) + s.text.len(),
{
    assert(a.push(s) =~= a + seq![s]);
    lemma_run_width_concat(a, seq![s]);
    assert(run_width(seq![s]) == s.text.len() + run_width(seq![s].drop_first()));
    assert(seq![s].drop_first() =~= Seq::<GSpan>::empty());
}

/// An ordered sequence of styled spans; one rendered row of text.
#[derive(Debug)]
pub struct StyledRun {
    pub spans: Vec<Span>,
}

impl View for StyledRun {
    type V = Seq<GSpan>;

    open spec fn view(&self) -> Seq<GSpan> {
        self.spans@.map(|i: int, s: Span| s@)
    }
}

impl StyledRun {
    /// A run with no spans at all.
    pub fn empty() -> (r: StyledRun)
        ensures
            r@ =~= Seq::<GSpan>::empty(),
    {
        StyledRun { spans: Vec::new() }
    }

    /// A run holding a single span.
    pub fn single(span: Span) -> (r: StyledRun)
        ensures
            r@ =~= seq![span@],
    {
        let mut spans: Vec<Span> = Vec::new();
        spans.push(span);
        StyledRun { spans }
    }

    /// Append one span at the end of the run.
    pub fn push(&mut self, span: Span)
        ensures
            final(self)@ =~= old(self)@.push(span@),
    {
        self.spans.push(span);
    }

    /// Insert one span at the front of the run.
    pub fn push_front(&mut self, span: Span)
        ensures
            final(self)@ =~= seq![span@] + old(self)@,
    {
        self.spans.insert(0, span);
    }

    /// Whether the run holds no spans.
    pub fn is_empty(&self) -> (r: bool)
        ensures
            r == (self@.len() == 0),
    {
        self.spans.len() == 0
    }

    /// Total character count over the spans.
    pub fn width(&self) -> (r: usize)
        requires
            run_width(self@) <= usize::MAX,
        ensures
            r == run_width(self@),
    {
        let mut total: usize = 0;
        let mut i: usize = 0;
        proof {
            assert(self@.subrange(0, 0) =~= Seq::<GSpan>::empty());
        }
        while i < self.spans.len()
            invariant
                i <= self.spans.len(),
                run_width(self@) <= usize::MAX,
                total == run_width(self@.subrange(0, i as int)),
            decreases self.spans.len() - i,
        {
            proof {
                assert(self@.subrange(0, i + 1) =~= self@.subrange(0, i as int).push(
                    self@[i as int],
                ));
                lemma_run_width_push(self@.subrange(0, i as int), self@[i as int]);
                lemma_run_width_prefix(self@, i + 1);
            }
            total = total + self.spans[i].content.len();
            i = i + 1;
        }
        proof {
            assert(self@.subrange(0, self@.len() as int) =~= self@);
        }
        total
    }

    /// An identical copy of this run.
    pub fn duplicate(&self) -> (r: StyledRun)
        ensures
            r@ == self@,
    {
        let mut spans: Vec<Span> = Vec::new();
        let mut i: usize = 0;
        while i < self.spans.len()
            invariant
                i <= self.spans.len(),
                spans@.map(|k: int, s: Span| s@) =~= self@.subrange(0, i as int),
            decreases self.spans.len() - i,
        {
            let ghost prev = spans@;
            spans.push(self.spans[i].duplicate());
            proof {
                assert(spans@.map(|k: int, s: Span| s@) =~= prev.map(|k: int, s: Span| s@).push(
                    spans@[prev.len() as int]@,
                ));
                assert(self@.subrange(0, i + 1) =~= self@.subrange(0, i as int).push(
                    self@[i as int],
                ));
            }
            i = i + 1;
        }
        proof {
            assert(spans@.map(|k: int, s: Span| s@) =~= self@);
        }
        StyledRun { spans }
    }
}

/// The width of a prefix never exceeds the width of the whole run.
pub proof fn lemma_run_width_prefix(spans: Seq<GSpan>, n: int)
    requires
        0 <= n <= spans.len(),
    ensures
        run_width(spans.subrange(0, n)) <= run_width(spans),
{
    assert(spans =~= spans.subrange(0, n) + spans.subrange(n, spans.len() as int));
    lemma_run_width_concat(spans.subrange(0, n), spans.subrange(n, spans.len() as int));
}

} // verus!
