//! The song builder: a state machine over the lines of a source text.
//!
//! Each line is tokenized into directive tags and literal text. Tags set
//! the title, subtitle, key and capo, open and close the chorus and the
//! comment block; literal text goes through the chord aligner, or becomes
//! a comment run inside a comment block. Inside a chorus, finished lines
//! get a `"| "` marker in front of both runs. A target key, when given,
//! turns every `{key:}` directive into an accumulated transposition that
//! is baked into the chord runs at parse time.

use crate::aligner::{align_runs_spec, tag_inside};
use crate::line::{line_width, GLine, SongLine};
use crate::pitch::{parse_pitch_spec, PitchClass};
use crate::style::{run_width, GSpan, Span, Style, StyledRun};
use crate::textops::{parse_i32_spec, trim_spec};
use crate::token::{segs_chars, tokenize_spec, GSeg, MarkKind, Segment};
use vstd::arithmetic::div_mod::{
    lemma_mod_add_multiples_vanish, lemma_mod_bound, lemma_mod_multiples_vanish,
};
use vstd::prelude::*;

verus! {

/// The builder's state between lines.
#[verifier::ext_equal]
pub struct GBuild {
    pub title: Seq<char>,
    pub subtitle: Seq<char>,
    pub chorus: bool,
    pub comment: bool,
    pub transposition: int,
    pub lines: Seq<GLine>,
}

/// The state the builder starts from.
pub open spec fn initial_build() -> GBuild {
    GBuild {
        title: Seq::empty(),
        subtitle: Seq::empty(),
        chorus: false,
        comment: false,
        transposition: 0,
        lines: Seq::empty(),
    }
}

/// The position of the colon separating a tag's name from its argument:
/// the first colon after at least one name character with at least one
/// argument character after it.
pub open spec fn find_sep(s: Seq<char>, from: int) -> Option<int>
    decreases s.len() - from,
{
    if from < 1 || from + 1 >= s.len() {
        None
    } else if s[from] == ':' {
        Some(from)
    } else {
        find_sep(s, from + 1)
    }
}

/// The name part of a tag's inside text.
pub open spec fn tag_name(inside: Seq<char>) -> Seq<char> {
    match find_sep(inside, 1) {
        Some(j) => inside.subrange(0, j),
        None => inside,
    }
}

/// The argument part of a tag's inside text, if any.
pub open spec fn tag_arg(inside: Seq<char>) -> Option<Seq<char>> {
    match find_sep(inside, 1) {
        Some(j) => Some(inside.subrange(j + 1, inside.len() as int)),
        None => None,
    }
}

proof fn lemma_find_sep_bounds(s: Seq<char>, from: int)
    requires
        1 <= from,
        find_sep(s, from) is Some,
    ensures
        from <= find_sep(s, from)->Some_0,
        find_sep(s, from)->Some_0 + 1 < s.len(),
    decreases s.len() - from,
{
    if from + 1 < s.len() && s[from] != ':' {
        lemma_find_sep_bounds(s, from + 1);
    }
}

/// A tag's argument is shorter than the inside it came from.
proof fn lemma_tag_arg_len(inside: Seq<char>)
    ensures
        match tag_arg(inside) {
            Some(a) => a.len() < inside.len(),
            None => true,
        },
{
    if find_sep(inside, 1) is Some {
        lemma_find_sep_bounds(inside, 1);
    }
}

proof fn lemma_find_sep_some(s: Seq<char>, from: int, j: int)
    requires
        1 <= from <= j,
        j + 1 < s.len(),
        s[j] == ':',
        forall|k: int| from <= k < j ==> s[k] != ':',
    ensures
        find_sep(s, from) == Some(j),
    decreases j - from,
{
    if from < j {
        lemma_find_sep_some(s, from + 1, j);
    }
}

proof fn lemma_find_sep_none(s: Seq<char>, from: int)
    requires
        1 <= from,
        forall|k: int| from <= k < s.len() - 1 ==> s[k] != ':',
    ensures
        find_sep(s, from) is None,
    decreases s.len() - from,
{
    if from + 1 < s.len() {
        lemma_find_sep_none(s, from + 1);
    }
}

/// Split a tag's inside text into its name and optional argument.
fn tag_split(inside: &Vec<char>) -> (r: (Vec<char>, Option<Vec<char>>))
    ensures
        r.0@ == tag_name(inside@),
        match r.1 {
            Some(a) => tag_arg(inside@) == Some(a@),
            None => tag_arg(inside@) is None,
        },
{
    let n = inside.len();
    if n >= 2 {
        let mut j: usize = 1;
        while j < n - 1
            invariant
                n >= 2,
                1 <= j <= n - 1,
                n == inside@.len(),
                forall|k: int| 1 <= k < j ==> inside@[k] != ':',
            decreases n - j,
        {
            if inside[j] == ':' {
                proof {
                    lemma_find_sep_some(inside@, 1, j as int);
                }
                let name = crate::textops::subrange_chars(inside, 0, j);
                let arg = crate::textops::subrange_chars(inside, j + 1, n);
                return (name, Some(arg));
            }
            j = j + 1;
        }
    }
    proof {
        lemma_find_sep_none(inside@, 1);
    }
    let name = crate::textops::subrange_chars(inside, 0, n);
    proof {
        assert(inside@.subrange(0, n as int) =~= inside@);
    }
    (name, None)
}

/// The `"| "` marker put before a chorus line's runs.
pub open spec fn chorus_marker() -> GSpan {
    GSpan { text: seq!['|', ' '], style: Style::Comment }
}

/// Close one line: inside a chorus each non-empty run gets the marker,
/// and the line joins the song — with both runs when any chords were
/// collected, else as a text-only line.
pub open spec fn finish_line(st: GBuild, chords: Seq<GSpan>, text: Seq<GSpan>) -> GBuild {
    let chords1 = if st.chorus && chords.len() > 0 {
        seq![chorus_marker()] + chords
    } else {
        chords
    };
    let text1 = if st.chorus && text.len() > 0 {
        seq![chorus_marker()] + text
    } else {
        text
    };
    let line = if chords1.len() > 0 {
        GLine { chords: Some(chords1), text: Some(text1) }
    } else {
        GLine { chords: None, text: Some(text1) }
    };
    GBuild { lines: st.lines.push(line), ..st }
}

/// One line's tokens, from token `n` on, threaded through the builder.
/// A `title`, `subtitle`, `key`, chorus-start or generic `tag` directive
/// consumes the rest of the line, which then joins the song only through
/// its own effect; every other token leaves the line in progress.
pub open spec fn process_tokens(
    st: GBuild,
    toks: Seq<GSeg>,
    n: int,
    chords: Seq<GSpan>,
    text: Seq<GSpan>,
    target: Option<int>,
) -> GBuild
    decreases toks.len() - n,
{
    if n < 0 || n >= toks.len() {
        finish_line(st, chords, text)
    } else {
        let tok = toks[n];
        if tok.matched && tok.text.len() >= 2 {
            let inside = tag_inside(tok.text);
            let name = tag_name(inside);
            let arg = tag_arg(inside);
            if name == "t"@ || name == "title"@ {
                match arg {
                    Some(a) => GBuild { title: trim_spec(a), ..st },
                    None => st,
                }
            } else if name == "st"@ || name == "subtitle"@ {
                match arg {
                    Some(a) => GBuild {
                        subtitle: trim_spec(a),
                        lines: st.lines.push(
                            GLine {
                                chords: None,
                                text: Some(
                                    seq![GSpan { text: trim_spec(a), style: Style::Title }],
                                ),
                            },
                        ),
                        ..st
                    },
                    None => st,
                }
            } else if name == "key"@ {
                match (arg, target) {
                    (Some(a), Some(tv)) => match parse_pitch_spec(trim_spec(a)) {
                        Some(k) => GBuild {
                            transposition: (st.transposition + tv - k) % 12,
                            ..st
                        },
                        None => st,
                    },
                    _ => st,
                }
            } else if name == "soc"@ || name == "start_of_chorus"@ {
                GBuild { chorus: true, ..st }
            } else if name == "tag"@ || name == "tag:"@ {
                st
            } else if name == "Capo-Bass_Guitar"@ {
                let st1 = match arg {
                    Some(a) => match parse_i32_spec(trim_spec(a)) {
                        Some(v) => GBuild { transposition: (st.transposition - v) % 12, ..st },
                        None => st,
                    },
                    None => st,
                };
                process_tokens(st1, toks, n + 1, chords, text, target)
            } else if name == "c"@ {
                let text1 = match arg {
                    Some(a) => text.push(GSpan { text: a, style: Style::Comment }),
                    None => text,
                };
                process_tokens(st, toks, n + 1, chords, text1, target)
            } else if name == "eoc"@ || name == "end_of_chorus"@ {
                process_tokens(GBuild { chorus: false, ..st }, toks, n + 1, chords, text, target)
            } else if name == "soh"@ {
                process_tokens(GBuild { comment: true, ..st }, toks, n + 1, chords, text, target)
            } else if name == "eoh"@ {
                process_tokens(GBuild { comment: false, ..st }, toks, n + 1, chords, text, target)
            } else {
                process_tokens(st, toks, n + 1, chords, text, target)
            }
        } else {
            if st.comment {
                process_tokens(
                    st,
                    toks,
                    n + 1,
                    chords,
                    text.push(GSpan { text: tok.text, style: Style::Comment }),
                    target,
                )
            } else {
                let r = align_runs_spec(chords, text, tok.text, st.transposition);
                process_tokens(st, toks, n + 1, r.0, r.1, target)
            }
        }
    }
}

/// One source line threaded through the builder.
pub open spec fn process_line(st: GBuild, line: Seq<char>, target: Option<int>) -> GBuild {
    process_tokens(st, tokenize_spec(MarkKind::Tag, line), 0, Seq::empty(), Seq::empty(), target)
}

/// All source lines from `i` on threaded through the builder.
pub open spec fn build_lines(st: GBuild, lines: Seq<Seq<char>>, i: int, target: Option<int>) -> GBuild
    decreases lines.len() - i,
{
    if i < 0 || i >= lines.len() {
        st
    } else {
        build_lines(process_line(st, lines[i], target), lines, i + 1, target)
    }
}

/// The whole build: normalize line endings, split into lines, fold the
/// builder over them.
pub open spec fn build_song_spec(raw: Seq<char>, target: Option<int>) -> GBuild {
    build_lines(
        initial_build(),
        crate::textops::split_lines_spec(crate::textops::normalize_newlines_spec(raw)),
        0,
        target,
    )
}

/// Every line's width fits the machine.
pub open spec fn lines_fit(lines: Seq<GLine>) -> bool {
    forall|k: int| 0 <= k < lines.len() ==> line_width(#[trigger] lines[k]) <= usize::MAX
}

/// The builder's state between lines, in executable form.
struct BuildState {
    title: Vec<char>,
    subtitle: Vec<char>,
    chorus: bool,
    comment: bool,
    transposition: u8,
    lines: Vec<SongLine>,
}

impl View for BuildState {
    type V = GBuild;

    closed spec fn view(&self) -> GBuild {
        GBuild {
            title: self.title@,
            subtitle: self.subtitle@,
            chorus: self.chorus,
            comment: self.comment,
            transposition: self.transposition as int,
            lines: self.lines@.map(|k: int, l: SongLine| l@),
        }
    }
}

/// Thread one source line through the builder.
fn do_line(st: &mut BuildState, line: &Vec<char>, target: Option<u8>)
    requires
        match target {
            Some(v) => v < 12,
            None => true,
        },
        old(st).transposition < 12,
        lines_fit(old(st)@.lines),
        3 * line@.len() + 4 <= usize::MAX,
    ensures
        final(st)@ == process_line(old(st)@, line@, match target {
            Some(v) => Some(v as int),
            None => None,
        }),
        lines_fit(final(st)@.lines),
        final(st).transposition < 12,
{
    let ghost gtarget: Option<int> = match target {
        Some(v) => Some(v as int),
        None => None,
    };
    let toks: Vec<Segment> = crate::token::tokenize(MarkKind::Tag, line);
    let ghost gtoks = toks@.map(|k: int, seg: Segment| seg@);
    let mut chords = StyledRun::empty();
    let mut text = StyledRun::empty();
    let mut n: usize = 0;
    proof {
        assert(segs_chars(gtoks.subrange(0, 0)) =~= Seq::<char>::empty());
        crate::aligner::lemma_segs_chars_split(gtoks, 0);
    }
    while n < toks.len()
        invariant
            n <= toks@.len(),
            gtoks == toks@.map(|k: int, seg: Segment| seg@),
            segs_chars(gtoks) == line@,
            3 * line@.len() + 4 <= usize::MAX,
            match target {
                Some(v) => v < 12 && gtarget == Some(v as int),
                None => gtarget == (None::<int>),
            },
            st.transposition < 12,
            lines_fit(st@.lines),
            run_width(chords@) <= 3 * segs_chars(gtoks.subrange(0, n as int)).len(),
            run_width(text@) <= 3 * segs_chars(gtoks.subrange(0, n as int)).len(),
            segs_chars(gtoks.subrange(0, n as int)).len() + segs_chars(gtoks.skip(n as int)).len()
                == line@.len(),
            process_line(old(st)@, line@, gtarget) == process_tokens(
                st@,
                gtoks,
                n as int,
                chords@,
                text@,
                gtarget,
            ),
        decreases toks@.len() - n,
    {
        let ghost gtok = gtoks[n as int];
        let ghost pre = st@;
        proof {
            assert(gtoks.subrange(0, n + 1) =~= gtoks.subrange(0, n as int).push(gtok));
            crate::aligner::lemma_segs_chars_push(gtoks.subrange(0, n as int), gtok);
            crate::aligner::lemma_segs_chars_split(gtoks, n + 1);
        }
        let tok_len = toks[n].text.len();
        if toks[n].matched && tok_len >= 2 {
            let inside = crate::textops::subrange_chars(&toks[n].text, 1, tok_len - 1);
            proof {
                assert(inside@ =~= tag_inside(gtok.text));
            }
            let (name, arg) = tag_split(&inside);
            let ghost ginside = tag_inside(gtok.text);
            if crate::textops::chars_eq_str(&name, "t") || crate::textops::chars_eq_str(
                &name,
                "title",
            ) {
                match arg {
                    Some(a) => {
                        st.title = crate::textops::trim(&a);
                    },
                    None => {},
                }
                return ;
            } else if crate::textops::chars_eq_str(&name, "st") || crate::textops::chars_eq_str(
                &name,
                "subtitle",
            ) {
                match arg {
                    Some(a) => {
                        let tr = crate::textops::trim(&a);
                        st.subtitle = crate::textops::subrange_chars(&tr, 0, tr.len());
                        proof {
                            crate::textops::lemma_trim_len(a@);
                            lemma_tag_arg_len(ginside);
                            assert(st.subtitle@ =~= trim_spec(a@));
                        }
                        let ghost prev = st.lines@;
                        st.lines.push(
                            SongLine::from_text(StyledRun::single(Span::new(tr, Style::Title))),
                        );
                        proof {
                            assert(st.lines@.map(|k: int, l: SongLine| l@) =~= prev.map(
                                |k: int, l: SongLine| l@,
                            ).push(st.lines@[prev.len() as int]@));
                            assert(st@.lines =~= pre.lines.push(
                                GLine {
                                    chords: None,
                                    text: Some(
                                        seq![GSpan { text: trim_spec(a@), style: Style::Title }],
                                    ),
                                },
                            ));
                            crate::style::lemma_run_width_push(
                                Seq::<GSpan>::empty(),
                                GSpan { text: trim_spec(a@), style: Style::Title },
                            );
                            assert(trim_spec(a@).len() <= gtok.text.len());
                        }
                    },
                    None => {},
                }
                return ;
            } else if crate::textops::chars_eq_str(&name, "key") {
                match (arg, target) {
                    (Some(a), Some(tv)) => {
                        let tr = crate::textops::trim(&a);
                        match PitchClass::parse_chars(&tr) {
                            Some(k) => {
                                let ks = k.semitone();
                                let m: u32 = (st.transposition as u32 + tv as u32 + 12
                                    - ks as u32) % 12;
                                proof {
                                    lemma_mod_bound(
                                        st.transposition as int + tv as int + 12 - ks as int,
                                        12,
                                    );
                                    lemma_mod_add_multiples_vanish(
                                        st.transposition as int + tv as int - ks as int,
                                        12,
                                    );
                                }
                                st.transposition = m as u8;
                            },
                            None => {},
                        }
                    },
                    _ => {},
                }
                return ;
            } else if crate::textops::chars_eq_str(&name, "soc") || crate::textops::chars_eq_str(
                &name,
                "start_of_chorus",
            ) {
                st.chorus = true;
                return ;
            } else if crate::textops::chars_eq_str(&name, "tag") || crate::textops::chars_eq_str(
                &name,
                "tag:",
            ) {
                return ;
            } else if crate::textops::chars_eq_str(&name, "Capo-Bass_Guitar") {
                match arg {
                    Some(a) => {
                        let tr = crate::textops::trim(&a);
                        match crate::textops::parse_i32(&tr) {
                            Some(v) => {
                                let q: u32 = crate::pitch::normalize_offset(v);
                                let m: u32 = (st.transposition as u32 + 12 - q) % 12;
                                proof {
                                    lemma_mod_bound(st.transposition as int + 12 - q as int, 12);
                                    lemma_mod_multiples_vanish(
                                        -crate::pitch::offset_quotient(v as int, q as int) - 1,
                                        st.transposition as int + 12 - q as int,
                                        12,
                                    );
                                }
                                st.transposition = m as u8;
                            },
                            None => {},
                        }
                    },
                    None => {},
                }
            } else if crate::textops::chars_eq_str(&name, "c") {
                match arg {
                    Some(a) => {
                        proof {
                            crate::style::lemma_run_width_push(
                                text@,
                                GSpan { text: a@, style: Style::Comment },
                            );
                            lemma_tag_arg_len(ginside);
                            assert(a@.len() <= gtok.text.len());
                        }
                        text.push(Span::new(a, Style::Comment));
                    },
                    None => {},
                }
            } else if crate::textops::chars_eq_str(&name, "eoc") || crate::textops::chars_eq_str(
                &name,
                "end_of_chorus",
            ) {
                st.chorus = false;
            } else if crate::textops::chars_eq_str(&name, "soh") {
                st.comment = true;
            } else if crate::textops::chars_eq_str(&name, "eoh") {
                st.comment = false;
            }
        } else {
            if st.comment {
                let copy = crate::textops::subrange_chars(&toks[n].text, 0, toks[n].text.len());
                proof {
                    assert(copy@ =~= gtok.text);
                    crate::style::lemma_run_width_push(
                        text@,
                        GSpan { text: gtok.text, style: Style::Comment },
                    );
                }
                text.push(Span::new(copy, Style::Comment));
            } else {
                crate::aligner::align_stretch(&mut chords, &mut text, &toks[n].text, st.transposition);
            }
        }
        n = n + 1;
    }
    // end of the line: chorus marker, then the finished line joins the song
    proof {
        assert(gtoks.subrange(0, gtoks.len() as int) =~= gtoks);
    }
    let ghost pre = st@;
    let ghost gchords = chords@;
    let ghost gtext = text@;
    if st.chorus {
        if !text.is_empty() {
            proof {
                crate::style::lemma_run_width_concat(seq![chorus_marker()], text@);
                assert(run_width(seq![chorus_marker()]) == 2) by {
                    assert(seq![chorus_marker()].drop_first() =~= Seq::<GSpan>::empty());
                }
            }
            text.push_front(Span::new(vec!['|', ' '], Style::Comment));
            proof {
                assert(text@ =~= seq![chorus_marker()] + gtext);
            }
        }
        if !chords.is_empty() {
            proof {
                crate::style::lemma_run_width_concat(seq![chorus_marker()], chords@);
                assert(run_width(seq![chorus_marker()]) == 2) by {
                    assert(seq![chorus_marker()].drop_first() =~= Seq::<GSpan>::empty());
                }
            }
            chords.push_front(Span::new(vec!['|', ' '], Style::Comment));
            proof {
                assert(chords@ =~= seq![chorus_marker()] + gchords);
            }
        }
    }
    let ghost prev = st.lines@;
    if !chords.is_empty() {
        st.lines.push(SongLine::from(chords, text));
    } else {
        st.lines.push(SongLine::from_text(text));
    }
    proof {
        assert(st.lines@.map(|k: int, l: SongLine| l@) =~= prev.map(|k: int, l: SongLine| l@).push(
            st.lines@[prev.len() as int]@,
        ));
        assert(st@.lines =~= finish_line(pre, gchords, gtext).lines);
    }
}

/// Title and subtitle as the name scan sees them after one line's
/// tokens from `n` on. A directive that consumes the rest of its line in
/// the builder — `title`, `subtitle`, `key`, chorus start, generic
/// `tag` — consumes it here too, so the scan extracts exactly what the
/// builder would.
pub open spec fn name_tokens(toks: Seq<GSeg>, n: int, title: Seq<char>, subtitle: Seq<char>) -> (
    Seq<char>,
    Seq<char>,
)
    decreases toks.len() - n,
{
    if n < 0 || n >= toks.len() {
        (title, subtitle)
    } else {
        let tok = toks[n];
        if tok.matched && tok.text.len() >= 2 {
            let inside = tag_inside(tok.text);
            let name = tag_name(inside);
            let arg = tag_arg(inside);
            if name == "t"@ || name == "title"@ {
                match arg {
                    Some(a) => (trim_spec(a), subtitle),
                    None => (title, subtitle),
                }
            } else if name == "st"@ || name == "subtitle"@ {
                match arg {
                    Some(a) => (title, trim_spec(a)),
                    None => (title, subtitle),
                }
            } else if name == "key"@ || name == "soc"@ || name == "start_of_chorus"@ || name
                == "tag"@ || name == "tag:"@ {
                (title, subtitle)
            } else {
                name_tokens(toks, n + 1, title, subtitle)
            }
        } else {
            name_tokens(toks, n + 1, title, subtitle)
        }
    }
}

/// Title and subtitle after scanning all lines from `i` on.
pub open spec fn name_lines(lines: Seq<Seq<char>>, i: int, title: Seq<char>, subtitle: Seq<char>)
    -> (Seq<char>, Seq<char>)
    decreases lines.len() - i,
{
    if i < 0 || i >= lines.len() {
        (title, subtitle)
    } else {
        let p = name_tokens(tokenize_spec(MarkKind::Tag, lines[i]), 0, title, subtitle);
        name_lines(lines, i + 1, p.0, p.1)
    }
}

/// The display name of a source text: its title, or `"Untitled"` when no
/// title directive occurs, with `" - "` and the subtitle appended when a
/// subtitle directive occurs.
pub open spec fn get_name_spec(raw: Seq<char>) -> Seq<char> {
    let p = name_lines(
        crate::textops::split_lines_spec(crate::textops::normalize_newlines_spec(raw)),
        0,
        "Untitled"@,
        Seq::empty(),
    );
    if p.1.len() == 0 {
        p.0
    } else {
        p.0 + seq![' ', '-', ' '] + p.1
    }
}

proof fn lemma_name_scan_matches_builder(
    st: GBuild,
    toks: Seq<GSeg>,
    n: int,
    chords: Seq<GSpan>,
    text: Seq<GSpan>,
    target: Option<int>,
)
    ensures
        process_tokens(st, toks, n, chords, text, target).title == name_tokens(
            toks,
            n,
            st.title,
            st.subtitle,
        ).0,
        process_tokens(st, toks, n, chords, text, target).subtitle == name_tokens(
            toks,
            n,
            st.title,
            st.subtitle,
        ).1,
    decreases toks.len() - n,
{
    if 0 <= n < toks.len() {
        let tok = toks[n];
        if tok.matched && tok.text.len() >= 2 {
            let inside = tag_inside(tok.text);
            let name = tag_name(inside);
            let arg = tag_arg(inside);
            if name == "t"@ || name == "title"@ {
            } else if name == "st"@ || name == "subtitle"@ {
            } else if name == "key"@ {
            } else if name == "soc"@ || name == "start_of_chorus"@ {
            } else if name == "tag"@ || name == "tag:"@ {
            } else if name == "Capo-Bass_Guitar"@ {
                let st1 = match arg {
                    Some(a) => match parse_i32_spec(trim_spec(a)) {
                        Some(v) => GBuild { transposition: (st.transposition - v) % 12, ..st },
                        None => st,
                    },
                    None => st,
                };
                lemma_name_scan_matches_builder(st1, toks, n + 1, chords, text, target);
            } else if name == "c"@ {
                let text1 = match arg {
                    Some(a) => text.push(GSpan { text: a, style: Style::Comment }),
                    None => text,
                };
                lemma_name_scan_matches_builder(st, toks, n + 1, chords, text1, target);
            } else if name == "eoc"@ || name == "end_of_chorus"@ {
                lemma_name_scan_matches_builder(
                    GBuild { chorus: false, ..st },
                    toks,
                    n + 1,
                    chords,
                    text,
                    target,
                );
            } else if name == "soh"@ {
                lemma_name_scan_matches_builder(
                    GBuild { comment: true, ..st },
                    toks,
                    n + 1,
                    chords,
                    text,
                    target,
                );
            } else if name == "eoh"@ {
                lemma_name_scan_matches_builder(
                    GBuild { comment: false, ..st },
                    toks,
                    n + 1,
                    chords,
                    text,
                    target,
                );
            } else {
                lemma_name_scan_matches_builder(st, toks, n + 1, chords, text, target);
            }
        } else {
            if st.comment {
                lemma_name_scan_matches_builder(
                    st,
                    toks,
                    n + 1,
                    chords,
                    text.push(GSpan { text: tok.text, style: Style::Comment }),
                    target,
                );
            } else {
                let r = align_runs_spec(chords, text, tok.text, st.transposition);
                lemma_name_scan_matches_builder(st, toks, n + 1, r.0, r.1, target);
            }
        }
    }
}

proof fn lemma_name_lines_matches_builder(
    st: GBuild,
    lines: Seq<Seq<char>>,
    i: int,
    target: Option<int>,
)
    ensures
        build_lines(st, lines, i, target).title == name_lines(lines, i, st.title, st.subtitle).0,
        build_lines(st, lines, i, target).subtitle == name_lines(
            lines,
            i,
            st.title,
            st.subtitle,
        ).1,
    decreases lines.len() - i,
{
    if 0 <= i < lines.len() {
        lemma_name_scan_matches_builder(
            st,
            tokenize_spec(MarkKind::Tag, lines[i]),
            0,
            Seq::empty(),
            Seq::empty(),
            target,
        );
        lemma_name_lines_matches_builder(process_line(st, lines[i], target), lines, i + 1, target);
    }
}

proof fn lemma_name_tokens_initial(
    toks: Seq<GSeg>,
    n: int,
    t0: Seq<char>,
    s0: Seq<char>,
    t1: Seq<char>,
    s1: Seq<char>,
)
    ensures
        ({
            let a = name_tokens(toks, n, t0, s0);
            let b = name_tokens(toks, n, t1, s1);
            ((a.0 == t0 && b.0 == t1) || a.0 == b.0) && ((a.1 == s0 && b.1 == s1) || a.1 == b.1)
        }),
    decreases toks.len() - n,
{
    if 0 <= n < toks.len() {
        let tok = toks[n];
        if tok.matched && tok.text.len() >= 2 {
            let inside = tag_inside(tok.text);
            let name = tag_name(inside);
            if name == "t"@ || name == "title"@ || name == "st"@ || name == "subtitle"@ || name
                == "key"@ || name == "soc"@ || name == "start_of_chorus"@ || name == "tag"@ || name
                == "tag:"@ {
            } else {
                lemma_name_tokens_initial(toks, n + 1, t0, s0, t1, s1);
            }
        } else {
            lemma_name_tokens_initial(toks, n + 1, t0, s0, t1, s1);
        }
    }
}

proof fn lemma_name_lines_initial(
    lines: Seq<Seq<char>>,
    i: int,
    t0: Seq<char>,
    s0: Seq<char>,
    t1: Seq<char>,
    s1: Seq<char>,
)
    ensures
        ({
            let a = name_lines(lines, i, t0, s0);
            let b = name_lines(lines, i, t1, s1);
            ((a.0 == t0 && b.0 == t1) || a.0 == b.0) && ((a.1 == s0 && b.1 == s1) || a.1 == b.1)
        }),
    decreases lines.len() - i,
{
    if 0 <= i < lines.len() {
        let toks = tokenize_spec(MarkKind::Tag, lines[i]);
        lemma_name_tokens_initial(toks, 0, t0, s0, t1, s1);
        let a1 = name_tokens(toks, 0, t0, s0);
        let b1 = name_tokens(toks, 0, t1, s1);
        lemma_name_lines_initial(lines, i + 1, a1.0, a1.1, b1.0, b1.1);
    }
}

/// The derived-title lookup stays consistent with the builder: the name
/// scan's subtitle is exactly the built song's subtitle, its title is
/// the built song's title unless no title directive took effect — then
/// the built title is empty and the scan shows `"Untitled"` — and
/// `get_name` is that pair joined with `" - "` when a subtitle exists.
pub proof fn lemma_get_name_consistent(raw: Seq<char>, target: Option<int>)
    ensures
        ({
            let b = build_song_spec(raw, target);
            let p = name_lines(
                crate::textops::split_lines_spec(crate::textops::normalize_newlines_spec(raw)),
                0,
                "Untitled"@,
                Seq::empty(),
            );
            &&& p.1 == b.subtitle
            &&& p.0 == b.title || (p.0 == "Untitled"@ && b.title == Seq::<char>::empty())
            &&& get_name_spec(raw) == if b.subtitle.len() == 0 {
                p.0
            } else {
                p.0 + seq![' ', '-', ' '] + b.subtitle
            }
        }),
{
    let lines = crate::textops::split_lines_spec(crate::textops::normalize_newlines_spec(raw));
    lemma_name_lines_matches_builder(initial_build(), lines, 0, target);
    lemma_name_lines_initial(
        lines,
        0,
        "Untitled"@,
        Seq::empty(),
        Seq::empty(),
        Seq::empty(),
    );
}

/// The model of a song: its metadata, normalized source, and lines.
#[verifier::ext_equal]
pub struct GSong {
    pub title: Seq<char>,
    pub subtitle: Seq<char>,
    pub songstring: Seq<char>,
    pub lines: Seq<GLine>,
}

/// A parsed song: title, subtitle, the normalized source text it was
/// read from, and its sequence of styled lines.
#[derive(Debug)]
pub struct Song {
    pub title: String,
    pub subtitle: String,
    pub songstring: String,
    pub text: Vec<SongLine>,
}

impl View for Song {
    type V = GSong;

    open spec fn view(&self) -> GSong {
        GSong {
            title: self.title@,
            subtitle: self.subtitle@,
            songstring: self.songstring@,
            lines: self.text@.map(|k: int, l: SongLine| l@),
        }
    }
}

impl Song {
    /// Parse a song without transposition. The source must leave the
    /// machine room for alignment padding, which can triple a line.
    pub fn from(songstring: String) -> (r: Song)
        requires
            songstring@.len() <= usize::MAX / 8,
        ensures
            ({
                let b = build_song_spec(songstring@, None);
                r@.title == b.title && r@.subtitle == b.subtitle && r@.lines == b.lines
                    && r@.songstring == crate::textops::normalize_newlines_spec(songstring@)
            }),
            lines_fit(r@.lines),
    {
        Song::new(songstring, None)
    }

    /// Parse a song, transposing every chord so that the song's declared
    /// key becomes `key`. The source must leave the machine room for
    /// alignment padding, which can triple a line.
    pub fn in_key(songstring: String, key: PitchClass) -> (r: Song)
        requires
            songstring@.len() <= usize::MAX / 8,
        ensures
            ({
                let b = build_song_spec(songstring@, Some(key.semitone_of()));
                r@.title == b.title && r@.subtitle == b.subtitle && r@.lines == b.lines
                    && r@.songstring == crate::textops::normalize_newlines_spec(songstring@)
            }),
            lines_fit(r@.lines),
    {
        Song::new(songstring, Some(key))
    }

    fn new(songstring: String, target: Option<PitchClass>) -> (r: Song)
        requires
            songstring@.len() <= usize::MAX / 8,
        ensures
            ({
                let b = build_song_spec(songstring@, match target {
                    Some(k) => Some(k.semitone_of()),
                    None => None,
                });
                r@.title == b.title && r@.subtitle == b.subtitle && r@.lines == b.lines
                    && r@.songstring == crate::textops::normalize_newlines_spec(songstring@)
            }),
            lines_fit(r@.lines),
    {
        let tgt: Option<u8> = match target {
            Some(k) => Some(k.semitone()),
            None => None,
        };
        let ghost gtarget: Option<int> = match target {
            Some(k) => Some(k.semitone_of()),
            None => None,
        };
        let chars = crate::textops::str_to_chars(songstring.as_str());
        let norm = crate::textops::normalize_newlines(&chars);
        let lines = crate::textops::split_lines(&norm);
        let ghost glines = lines@.map(|k: int, l: Vec<char>| l@);
        proof {
            crate::textops::lemma_normalize_len(chars@);
            crate::textops::lemma_split_lines_len(norm@);
        }
        let mut st = BuildState {
            title: Vec::new(),
            subtitle: Vec::new(),
            chorus: false,
            comment: false,
            transposition: 0,
            lines: Vec::new(),
        };
        proof {
            assert(st@ =~= initial_build());
            assert(st@.lines.len() == 0);
        }
        let mut i: usize = 0;
        while i < lines.len()
            invariant
                i <= lines@.len(),
                glines == lines@.map(|k: int, l: Vec<char>| l@),
                glines == crate::textops::split_lines_spec(norm@),
                norm@ == crate::textops::normalize_newlines_spec(songstring@),
                forall|k: int| 0 <= k < glines.len() ==> (#[trigger] glines[k]).len() <= norm@.len(),
                norm@.len() <= usize::MAX / 8,
                match tgt {
                    Some(v) => v < 12 && gtarget == Some(v as int),
                    None => gtarget == (None::<int>),
                },
                st.transposition < 12,
                lines_fit(st@.lines),
                build_song_spec(songstring@, gtarget) == build_lines(st@, glines, i as int, gtarget),
            decreases lines@.len() - i,
        {
            proof {
                assert(glines[i as int] == lines@[i as int]@);
            }
            do_line(&mut st, &lines[i], tgt);
            i = i + 1;
        }
        let title = crate::textops::chars_to_string(&st.title);
        let subtitle = crate::textops::chars_to_string(&st.subtitle);
        let songstring_out = crate::textops::chars_to_string(&norm);
        Song { title, subtitle, songstring: songstring_out, text: st.lines }
    }

    /// The display name of a source text, without building the song:
    /// `"{title}"`, or `"{title} - {subtitle}"` when a subtitle occurs,
    /// with `"Untitled"` standing in for a missing title.
    pub fn get_name(songstring: &str) -> (r: String)
        ensures
            r@ == get_name_spec(songstring@),
    {
        let chars = crate::textops::str_to_chars(songstring);
        let norm = crate::textops::normalize_newlines(&chars);
        let lines = crate::textops::split_lines(&norm);
        let ghost glines = lines@.map(|k: int, l: Vec<char>| l@);
        let mut title = crate::textops::str_to_chars("Untitled");
        let mut subtitle: Vec<char> = Vec::new();
        let mut i: usize = 0;
        while i < lines.len()
            invariant
                i <= lines@.len(),
                glines == lines@.map(|k: int, l: Vec<char>| l@),
                glines == crate::textops::split_lines_spec(norm@),
                norm@ == crate::textops::normalize_newlines_spec(songstring@),
                name_lines(glines, 0, "Untitled"@, Seq::empty()) == name_lines(
                    glines,
                    i as int,
                    title@,
                    subtitle@,
                ),
            decreases lines@.len() - i,
        {
            let toks: Vec<Segment> = crate::token::tokenize(MarkKind::Tag, &lines[i]);
            let ghost gtoks = toks@.map(|k: int, seg: Segment| seg@);
            let ghost t0 = title@;
            let ghost s0 = subtitle@;
            proof {
                assert(glines[i as int] == lines@[i as int]@);
            }
            let mut n: usize = 0;
            let mut consumed = false;
            while n < toks.len() && !consumed
                invariant
                    n <= toks@.len(),
                    gtoks == toks@.map(|k: int, seg: Segment| seg@),
                    if consumed {
                        name_tokens(gtoks, 0, t0, s0) == (title@, subtitle@)
                    } else {
                        name_tokens(gtoks, 0, t0, s0) == name_tokens(
                            gtoks,
                            n as int,
                            title@,
                            subtitle@,
                        )
                    },
                decreases toks@.len() - n,
            {
                let ghost gtok = gtoks[n as int];
                let tok_len = toks[n].text.len();
                if toks[n].matched && tok_len >= 2 {
                    let inside = crate::textops::subrange_chars(&toks[n].text, 1, tok_len - 1);
                    proof {
                        assert(inside@ =~= tag_inside(gtok.text));
                    }
                    let (name, arg) = tag_split(&inside);
                    if crate::textops::chars_eq_str(&name, "t") || crate::textops::chars_eq_str(
                        &name,
                        "title",
                    ) {
                        match arg {
                            Some(a) => {
                                title = crate::textops::trim(&a);
                            },
                            None => {},
                        }
                        consumed = true;
                    } else if crate::textops::chars_eq_str(&name, "st")
                        || crate::textops::chars_eq_str(&name, "subtitle") {
                        match arg {
                            Some(a) => {
                                subtitle = crate::textops::trim(&a);
                            },
                            None => {},
                        }
                        consumed = true;
                    } else if crate::textops::chars_eq_str(&name, "key")
                        || crate::textops::chars_eq_str(&name, "soc")
                        || crate::textops::chars_eq_str(&name, "start_of_chorus")
                        || crate::textops::chars_eq_str(&name, "tag")
                        || crate::textops::chars_eq_str(&name, "tag:") {
                        consumed = true;
                    }
                }
                n = n + 1;
            }
            i = i + 1;
        }
        if subtitle.len() == 0 {
            crate::textops::chars_to_string(&title)
        } else {
            let ghost gt = title@;
            title.push(' ');
            title.push('-');
            title.push(' ');
            crate::textops::append_chars(&mut title, &subtitle);
            proof {
                assert(title@ =~= gt + seq![' ', '-', ' '] + subtitle@);
            }
            crate::textops::chars_to_string(&title)
        }
    }
}

} // verus!
