use gpro::pitch::{transpose_chord, PitchClass};
use gpro::token::{tokenize, MarkKind};

#[test]
fn parse_accepts_roots_with_accidentals() {
    assert_eq!(PitchClass::parse("C").unwrap().name(), "C");
    assert_eq!(PitchClass::parse("F#").unwrap().name(), "F#");
    assert_eq!(PitchClass::parse("Bb").unwrap().name(), "A#");
    assert_eq!(PitchClass::parse("Cb").unwrap().name(), "B");
    assert!(PitchClass::parse("H").is_none());
    assert!(PitchClass::parse("").is_none());
    assert!(PitchClass::parse("C#m").is_none());
    assert!(PitchClass::parse("c").is_none());
}

#[test]
fn transpose_wraps_around_the_circle() {
    let c = PitchClass::parse("C").unwrap();
    assert_eq!(c.transpose(2).name(), "D");
    assert_eq!(c.transpose(-1).name(), "B");
    assert_eq!(c.transpose(12).name(), "C");
    assert_eq!(c.transpose(-25).name(), "B");
    let g = PitchClass::parse("G").unwrap();
    assert_eq!(g.transpose(2).name(), "A");
    // transposing by a and then b is transposing by a + b
    assert_eq!(g.transpose(7).transpose(8).name(), g.transpose(15).name());
    assert_eq!(g.transpose(0).name(), "G");
}

#[test]
fn chord_text_keeps_its_suffix() {
    let chord: Vec<char> = "Am7/C".chars().collect();
    let moved: String = transpose_chord(&chord, 3).iter().collect();
    assert_eq!(moved, "Cm7/D#");
    let chord: Vec<char> = "Bbsus4".chars().collect();
    let moved: String = transpose_chord(&chord, 0).iter().collect();
    assert_eq!(moved, "A#sus4");
    let chord: Vec<char> = "x".chars().collect();
    let moved: String = transpose_chord(&chord, 5).iter().collect();
    assert_eq!(moved, "x");
}

#[test]
fn tokenizing_reconcatenates_to_the_input() {
    let cases = [
        ("a{t:x}b{key: C}", MarkKind::Tag),
        ("{broken {pair} done}", MarkKind::Tag),
        ("[C]la [G7]la []", MarkKind::Chord),
        ("no markup at all", MarkKind::Chord),
        ("Am7/C Bb", MarkKind::Root),
        ("", MarkKind::Tag),
    ];
    for (src, kind) in cases {
        let chars: Vec<char> = src.chars().collect();
        let segs = tokenize(kind, &chars);
        let glued: String = segs.iter().flat_map(|s| s.text.iter().cloned()).collect();
        assert_eq!(glued, src);
    }
}

#[test]
fn tokenizer_is_leftmost_and_nonoverlapping() {
    let chars: Vec<char> = "a[C]b[G]".chars().collect();
    let segs = tokenize(MarkKind::Chord, &chars);
    let texts: Vec<String> = segs.iter().map(|s| s.text.iter().collect()).collect();
    let matched: Vec<bool> = segs.iter().map(|s| s.matched).collect();
    assert_eq!(texts, vec!["a", "[C]", "b", "[G]"]);
    assert_eq!(matched, vec![false, true, false, true]);
}

#[test]
fn unclosed_markup_stays_literal() {
    let chars: Vec<char> = "{no end".chars().collect();
    let segs = tokenize(MarkKind::Tag, &chars);
    assert_eq!(segs.len(), 1);
    assert!(!segs[0].matched);
    let chars: Vec<char> = "{}".chars().collect();
    let segs = tokenize(MarkKind::Tag, &chars);
    assert!(!segs[0].matched);
    let chars: Vec<char> = "[]".chars().collect();
    let segs = tokenize(MarkKind::Chord, &chars);
    assert!(segs[0].matched);
}
