//! The tokenizer: splits a line into alternating literal text and matched
//! markup, leftmost first, non-overlapping, covering the whole line.
//!
//! Three patterns share one scanner. A directive tag is `{...}` with at
//! least one inner character and no brace or newline inside; a chord token
//! is `[...]` with possibly empty inside and no bracket or newline inside;
//! a root note is a letter `A`-`G` with an optional `#` or `b` after it.

use vstd::prelude::*;

verus! {

/// Which markup pattern the scanner looks for.
#[derive(Clone, Copy, Debug, PartialEq, Eq, Structural)]
pub enum MarkKind {
    /// Directive tags in braces.
    Tag,
    /// Chord tokens in brackets.
    Chord,
    /// Root notes inside a chord name.
    Root,
}

/// A chord root letter.
pub open spec fn is_root_letter(c: char) -> bool {
    'A' <= c && c <= 'G'
}

/// A sharp or flat mark.
pub open spec fn is_accidental(c: char) -> bool {
    c == '#' || c == 'b'
}

/// The opening character of a bracketed pattern.
pub open spec fn open_char(k: MarkKind) -> char {
    match k {
        MarkKind::Tag => '{',
        MarkKind::Chord => '[',
        MarkKind::Root => ' ',  // unused: roots have no bracket
    }
}

/// The closing character of a bracketed pattern.
pub open spec fn close_char(k: MarkKind) -> char {
    match k {
        MarkKind::Tag => '}',
        MarkKind::Chord => ']',
        MarkKind::Root => ' ',  // unused: roots have no bracket
    }
}

/// How many characters must stand between the brackets.
pub open spec fn min_inside(k: MarkKind) -> int {
    match k {
        MarkKind::Tag => 1,
        MarkKind::Chord => 0,
        MarkKind::Root => 0,
    }
}

/// A character that ends the scan for the closing bracket.
pub open spec fn is_delim(k: MarkKind, c: char) -> bool {
    c == open_char(k) || c == close_char(k) || c == '\n'
}

/// The first index at or after `from` holding a delimiter of `k`.
pub open spec fn find_delim(k: MarkKind, s: Seq<char>, from: int) -> Option<int>
    decreases s.len() - from,
{
    if from < 0 || from >= s.len() {
        None
    } else if is_delim(k, s[from]) {
        Some(from)
    } else {
        find_delim(k, s, from + 1)
    }
}

/// A hit of `find_delim` lies in range and is a delimiter.
pub proof fn lemma_find_delim_bounds(k: MarkKind, s: Seq<char>, from: int)
    requires
        find_delim(k, s, from) is Some,
    ensures
        from <= find_delim(k, s, from)->Some_0 < s.len(),
        is_delim(k, s[find_delim(k, s, from)->Some_0]),
        forall|t: int| from <= t < find_delim(k, s, from)->Some_0 ==> !is_delim(k, s[t]),
    decreases s.len() - from,
{
    if 0 <= from < s.len() && !is_delim(k, s[from]) {
        lemma_find_delim_bounds(k, s, from + 1);
    }
}

/// `find_delim` returns exactly the first delimiter position.
pub proof fn lemma_find_delim_some(k: MarkKind, s: Seq<char>, from: int, j: int)
    requires
        0 <= from <= j < s.len(),
        is_delim(k, s[j]),
        forall|t: int| from <= t < j ==> !is_delim(k, s[t]),
    ensures
        find_delim(k, s, from) == Some(j),
    decreases j - from,
{
    if from < j {
        lemma_find_delim_some(k, s, from + 1, j);
    }
}

/// `find_delim` returns `None` when no delimiter occurs from `from` on.
pub proof fn lemma_find_delim_none(k: MarkKind, s: Seq<char>, from: int)
    requires
        0 <= from <= s.len(),
        forall|t: int| from <= t < s.len() ==> !is_delim(k, s[t]),
    ensures
        find_delim(k, s, from) is None,
    decreases s.len() - from,
{
    if from < s.len() {
        lemma_find_delim_none(k, s, from + 1);
    }
}

/// If a token of kind `k` begins at position `p` of `s`, the index just
/// past its end; `None` if no token begins there. For bracketed kinds the
/// token runs to the first delimiter, which must be the closing bracket;
/// a root note is one letter with an optional accidental.
pub open spec fn match_end(k: MarkKind, s: Seq<char>, p: int) -> Option<int> {
    match k {
        MarkKind::Root => {
            if 0 <= p < s.len() && is_root_letter(s[p]) {
                if p + 1 < s.len() && is_accidental(s[p + 1]) {
                    Some(p + 2)
                } else {
                    Some(p + 1)
                }
            } else {
                None
            }
        },
        _ => {
            if 0 <= p < s.len() && s[p] == open_char(k) {
                match find_delim(k, s, p + 1) {
                    Some(j) => if s[j] == close_char(k) && j - (p + 1) >= min_inside(k) {
                        Some(j + 1)
                    } else {
                        None
                    },
                    None => None,
                }
            } else {
                None
            }
        },
    }
}

/// A token that begins at `p` ends past `p` and within the text.
pub proof fn lemma_match_end_bounds(k: MarkKind, s: Seq<char>, p: int)
    requires
        match_end(k, s, p) is Some,
    ensures
        p < match_end(k, s, p)->Some_0 <= s.len(),
{
    match k {
        MarkKind::Root => {},
        _ => {
            lemma_find_delim_bounds(k, s, p + 1);
        },
    }
}

/// The first position at or after `from` where a token of kind `k` begins.
pub open spec fn first_match(k: MarkKind, s: Seq<char>, from: int) -> Option<int>
    decreases s.len() - from,
{
    if from < 0 || from >= s.len() {
        None
    } else if match_end(k, s, from) is Some {
        Some(from)
    } else {
        first_match(k, s, from + 1)
    }
}

/// `first_match` returns exactly the first token position.
pub proof fn lemma_first_match_some(k: MarkKind, s: Seq<char>, from: int, p: int)
    requires
        0 <= from <= p < s.len(),
        match_end(k, s, p) is Some,
        forall|t: int| from <= t < p ==> match_end(k, s, t) is None,
    ensures
        first_match(k, s, from) == Some(p),
    decreases p - from,
{
    if from < p {
        lemma_first_match_some(k, s, from + 1, p);
    }
}

/// `first_match` returns `None` when no token begins from `from` on.
pub proof fn lemma_first_match_none(k: MarkKind, s: Seq<char>, from: int)
    requires
        0 <= from,
        forall|t: int| from <= t < s.len() ==> match_end(k, s, t) is None,
    ensures
        first_match(k, s, from) is None,
    decreases s.len() - from,
{
    if from < s.len() {
        lemma_first_match_none(k, s, from + 1);
    }
}

/// `first_match` lands on a token, in range, with none before it.
pub proof fn lemma_first_match_bounds(k: MarkKind, s: Seq<char>, from: int)
    requires
        first_match(k, s, from) is Some,
    ensures
        from <= first_match(k, s, from)->Some_0 < s.len(),
        match_end(k, s, first_match(k, s, from)->Some_0) is Some,
    decreases s.len() - from,
{
    if 0 <= from < s.len() && match_end(k, s, from) is None {
        lemma_first_match_bounds(k, s, from + 1);
    }
}

/// The model of one tokenizer output segment.
#[verifier::ext_equal]
pub struct GSeg {
    pub text: Seq<char>,
    pub matched: bool,
}

/// One output segment: a literal stretch or one matched token.
#[derive(Debug)]
pub struct Segment {
    pub text: Vec<char>,
    pub matched: bool,
}

impl View for Segment {
    type V = GSeg;

    open spec fn view(&self) -> GSeg {
        GSeg { text: self.text@, matched: self.matched }
    }
}

/// The tokenization of `s` from position `i` on: alternating literal text
/// and matched tokens, leftmost first, non-overlapping, with no empty
/// literal segments.
pub open spec fn tokenize_from(k: MarkKind, s: Seq<char>, i: int) -> Seq<GSeg>
    decreases s.len() - i,
    via tokenize_from_decreases
{
    if i < 0 || i >= s.len() {
        Seq::empty()
    } else {
        match first_match(k, s, i) {
            None => seq![GSeg { text: s.subrange(i, s.len() as int), matched: false }],
            Some(p) => {
                let e = match_end(k, s, p)->Some_0;
                let lit = if p > i {
                    seq![GSeg { text: s.subrange(i, p), matched: false }]
                } else {
                    Seq::empty()
                };
                lit + seq![GSeg { text: s.subrange(p, e), matched: true }] + tokenize_from(k, s, e)
            },
        }
    }
}

#[via_fn]
proof fn tokenize_from_decreases(k: MarkKind, s: Seq<char>, i: int) {
    if 0 <= i < s.len() && first_match(k, s, i) is Some {
        lemma_first_match_bounds(k, s, i);
        lemma_match_end_bounds(k, s, first_match(k, s, i)->Some_0);
    }
}

/// The tokenization of a whole line.
pub open spec fn tokenize_spec(k: MarkKind, s: Seq<char>) -> Seq<GSeg> {
    tokenize_from(k, s, 0)
}

/// The characters of a segment sequence, concatenated in order.
pub open spec fn segs_chars(segs: Seq<GSeg>) -> Seq<char>
    decreases segs.len(),
{
    if segs.len() == 0 {
        Seq::empty()
    } else {
        segs[0].text + segs_chars(segs.drop_first())
    }
}

proof fn lemma_segs_chars_concat(a: Seq<GSeg>, b: Seq<GSeg>)
    ensures
        segs_chars(a + b) == segs_chars(a) + segs_chars(b),
    decreases a.len(),
{
    if a.len() == 0 {
        assert(a + b =~= b);
        assert(segs_chars(a) + segs_chars(b) =~= segs_chars(b));
    } else {
        assert((a + b).drop_first() =~= a.drop_first() + b);
        lemma_segs_chars_concat(a.drop_first(), b);
        assert(segs_chars(a + b) =~= segs_chars(a) + segs_chars(b));
    }
}

proof fn lemma_tokenize_from_concat(k: MarkKind, s: Seq<char>, i: int)
    requires
        0 <= i <= s.len(),
    ensures
        segs_chars(tokenize_from(k, s, i)) == s.subrange(i, s.len() as int),
    decreases s.len() - i,
{
    if i >= s.len() {
        assert(s.subrange(i, s.len() as int) =~= Seq::<char>::empty());
    } else {
        match first_match(k, s, i) {
            None => {
                let seg = GSeg { text: s.subrange(i, s.len() as int), matched: false };
                assert(seq![seg].drop_first() =~= Seq::<GSeg>::empty());
                assert(segs_chars(Seq::<GSeg>::empty()) =~= Seq::<char>::empty());
                assert(segs_chars(seq![seg]) =~= s.subrange(i, s.len() as int));
            },
            Some(p) => {
                lemma_first_match_bounds(k, s, i);
                lemma_match_end_bounds(k, s, p);
                let e = match_end(k, s, p)->Some_0;
                lemma_tokenize_from_concat(k, s, e);
                let lit = if p > i {
                    seq![GSeg { text: s.subrange(i, p), matched: false }]
                } else {
                    Seq::<GSeg>::empty()
                };
                let tok = seq![GSeg { text: s.subrange(p, e), matched: true }];
                lemma_segs_chars_concat(lit + tok, tokenize_from(k, s, e));
                lemma_segs_chars_concat(lit, tok);
                assert(tok.drop_first() =~= Seq::<GSeg>::empty());
                assert(segs_chars(Seq::<GSeg>::empty()) =~= Seq::<char>::empty());
                assert(segs_chars(tok) =~= s.subrange(p, e));
                if p > i {
                    assert(lit.drop_first() =~= Seq::<GSeg>::empty());
                    assert(segs_chars(lit) =~= s.subrange(i, p));
                } else {
                    assert(segs_chars(lit) =~= Seq::<char>::empty());
                }
                assert(segs_chars(tokenize_from(k, s, i)) =~= s.subrange(i, s.len() as int));
            },
        }
    }
}

/// Concatenating all segments of a tokenization reproduces the input
/// exactly, for any input and any of the three markup patterns.
pub proof fn lemma_tokenize_concat(k: MarkKind, s: Seq<char>)
    ensures
        segs_chars(tokenize_spec(k, s)) == s,
{
    lemma_tokenize_from_concat(k, s, 0);
    assert(s.subrange(0, s.len() as int) =~= s);
}

/// The least length a matched token of kind `k` can have.
pub open spec fn min_token_len(k: MarkKind) -> int {
    match k {
        MarkKind::Tag => 3,
        MarkKind::Chord => 2,
        MarkKind::Root => 1,
    }
}

/// Every segment of a tokenization is non-empty, and every matched
/// segment is at least as long as the kind's shortest token.
pub proof fn lemma_tokenize_shape(k: MarkKind, s: Seq<char>, i: int)
    requires
        0 <= i,
    ensures
        forall|n: int|
            0 <= n < tokenize_from(k, s, i).len() ==> {
                let seg = #[trigger] tokenize_from(k, s, i)[n];
                seg.text.len() >= 1 && (seg.matched ==> seg.text.len() >= min_token_len(k))
            },
    decreases s.len() - i,
{
    if i < s.len() {
        match first_match(k, s, i) {
            None => {},
            Some(p) => {
                lemma_first_match_bounds(k, s, i);
                lemma_match_end_bounds(k, s, p);
                let e = match_end(k, s, p)->Some_0;
                match k {
                    MarkKind::Root => {},
                    _ => {
                        lemma_find_delim_bounds(k, s, p + 1);
                        assert(e - p >= min_token_len(k));
                    },
                }
                lemma_tokenize_shape(k, s, e);
                let lit = if p > i {
                    seq![GSeg { text: s.subrange(i, p), matched: false }]
                } else {
                    Seq::<GSeg>::empty()
                };
                let tok = seq![GSeg { text: s.subrange(p, e), matched: true }];
                let whole = lit + tok + tokenize_from(k, s, e);
                assert forall|n: int| 0 <= n < whole.len() implies {
                    let seg = #[trigger] whole[n];
                    seg.text.len() >= 1 && (seg.matched ==> seg.text.len() >= min_token_len(k))
                } by {
                    if n < lit.len() {
                        assert(whole[n] == lit[0]);
                    } else if n < lit.len() + 1 {
                        assert(whole[n] == tok[0]);
                    } else {
                        assert(whole[n] == tokenize_from(k, s, e)[n - lit.len() - 1]);
                    }
                }
            },
        }
    }
}

/// If a token of kind `k` begins at `i`, where does it end?
fn try_match(k: MarkKind, line: &Vec<char>, i: usize) -> (r: Option<usize>)
    requires
        i < line@.len(),
    ensures
        match r {
            Some(e) => match_end(k, line@, i as int) == Some(e as int) && i < e <= line@.len(),
            None => match_end(k, line@, i as int) is None,
        },
{
    let n = line.len();
    match k {
        MarkKind::Root => {
            let c = line[i];
            if 'A' <= c && c <= 'G' {
                if i + 1 < n && (line[i + 1] == '#' || line[i + 1] == 'b') {
                    Some(i + 2)
                } else {
                    Some(i + 1)
                }
            } else {
                None
            }
        },
        _ => {
            let (op, cl): (char, char) = if matches!(k, MarkKind::Tag) {
                ('{', '}')
            } else {
                ('[', ']')
            };
            if line[i] != op {
                return None;
            }
            let mut j: usize = i + 1;
            while j < line.len() && !(line[j] == op || line[j] == cl || line[j] == '\n')
                invariant
                    i + 1 <= j <= line@.len(),
                    op == open_char(k),
                    cl == close_char(k),
                    forall|t: int| i + 1 <= t < j ==> !is_delim(k, line@[t]),
                decreases line@.len() - j,
            {
                j = j + 1;
            }
            if j >= line.len() {
                proof {
                    lemma_find_delim_none(k, line@, i + 1);
                }
                return None;
            }
            proof {
                lemma_find_delim_some(k, line@, i + 1, j as int);
            }
            if line[j] == cl && j - (i + 1) >= (if matches!(k, MarkKind::Tag) {
                1
            } else {
                0
            }) {
                Some(j + 1)
            } else {
                None
            }
        },
    }
}

/// Split a line into alternating literal and matched segments of kind `k`.
/// The segments cover the line exactly, in order: concatenating them
/// reproduces the input.
pub fn tokenize(k: MarkKind, line: &Vec<char>) -> (r: Vec<Segment>)
    ensures
        r@.map(|n: int, seg: Segment| seg@) == tokenize_spec(k, line@),
        segs_chars(r@.map(|n: int, seg: Segment| seg@)) == line@,
{
    let ghost s = line@;
    let mut r: Vec<Segment> = Vec::new();
    let mut lit_start: usize = 0;
    let mut i: usize = 0;
    proof {
        assert(r@.map(|n: int, seg: Segment| seg@) + tokenize_from(k, s, 0) =~= tokenize_from(
            k,
            s,
            0,
        ));
    }
    while i < line.len()
        invariant
            lit_start <= i <= line@.len(),
            s == line@,
            forall|p: int| lit_start <= p < i ==> match_end(k, s, p) is None,
            tokenize_spec(k, s) == r@.map(|n: int, seg: Segment| seg@) + tokenize_from(
                k,
                s,
                lit_start as int,
            ),
        decreases line@.len() - i,
    {
        match try_match(k, line, i) {
            Some(e) => {
                proof {
                    lemma_first_match_some(k, s, lit_start as int, i as int);
                    assert(tokenize_from(k, s, lit_start as int) == (if i > lit_start {
                        seq![GSeg { text: s.subrange(lit_start as int, i as int), matched: false }]
                    } else {
                        Seq::<GSeg>::empty()
                    }) + seq![GSeg { text: s.subrange(i as int, e as int), matched: true }]
                        + tokenize_from(k, s, e as int));
                }
                if lit_start < i {
                    let text = crate::textops::subrange_chars(line, lit_start, i);
                    let ghost prev = r@;
                    r.push(Segment { text, matched: false });
                    proof {
                        assert(r@.map(|n: int, seg: Segment| seg@) =~= prev.map(
                            |n: int, seg: Segment| seg@,
                        ).push(r@[prev.len() as int]@));
                    }
                }
                let text = crate::textops::subrange_chars(line, i, e);
                let ghost prev = r@;
                r.push(Segment { text, matched: true });
                proof {
                    assert(r@.map(|n: int, seg: Segment| seg@) =~= prev.map(
                        |n: int, seg: Segment| seg@,
                    ).push(r@[prev.len() as int]@));
                    assert(tokenize_spec(k, s) =~= r@.map(|n: int, seg: Segment| seg@)
                        + tokenize_from(k, s, e as int));
                }
                i = e;
                lit_start = e;
            },
            None => {
                i = i + 1;
            },
        }
    }
    if lit_start < line.len() {
        proof {
            lemma_first_match_none(k, s, lit_start as int);
        }
        let text = crate::textops::subrange_chars(line, lit_start, line.len());
        let ghost prev = r@;
        r.push(Segment { text, matched: false });
        proof {
            assert(r@.map(|n: int, seg: Segment| seg@) =~= prev.map(|n: int, seg: Segment| seg@)
                .push(r@[prev.len() as int]@));
            assert(tokenize_spec(k, s) =~= r@.map(|n: int, seg: Segment| seg@));
        }
    } else {
        proof {
            assert(tokenize_from(k, s, lit_start as int) =~= Seq::<GSeg>::empty());
            assert(tokenize_spec(k, s) =~= r@.map(|n: int, seg: Segment| seg@));
        }
    }
    proof {
        lemma_tokenize_concat(k, s);
    }
    r
}

} // verus!
