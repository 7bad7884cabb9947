use gpro::line::SongLine;
use gpro::pitch::PitchClass;
use gpro::song::Song;
use gpro::style::Style;

fn span_text(line: &SongLine) -> (Vec<String>, Vec<String>) {
    match line {
        SongLine::Both { chords, text } => (
            chords.spans.iter().map(|s| s.content.iter().collect()).collect(),
            text.spans.iter().map(|s| s.content.iter().collect()).collect(),
        ),
        SongLine::Text(text) => (
            Vec::new(),
            text.spans.iter().map(|s| s.content.iter().collect()).collect(),
        ),
        SongLine::Chords(chords) => (
            chords.spans.iter().map(|s| s.content.iter().collect()).collect(),
            Vec::new(),
        ),
        SongLine::Empty => (Vec::new(), Vec::new()),
    }
}

#[test]
fn transpose_to_target_key() {
    let src = "{title: Amazing}\n{key: C}\n[C]Hello [G]world";
    let key = PitchClass::parse("D").unwrap();
    let song = Song::in_key(String::from(src), key);
    assert_eq!(song.title, "Amazing");
    assert_eq!(song.subtitle, "");
    assert_eq!(song.text.len(), 1);
    let (chords, text) = span_text(&song.text[0]);
    assert_eq!(chords, vec![String::from("D     A ")]);
    assert_eq!(text, vec![String::from("Hello world")]);
    // D sits above the first character of "Hello", A above "world"
    assert_eq!(text[0].chars().nth(6).unwrap(), 'w');
    assert_eq!(chords[0].chars().nth(6).unwrap(), 'A');
}

#[test]
fn chorus_marker_prefixes_both_runs() {
    let song = Song::from(String::from("{soc}\n[Em]La la\n{eoc}"));
    let (chords, text) = span_text(&song.text[0]);
    assert_eq!(chords[0], "| ");
    assert_eq!(text[0], "| ");
    assert_eq!(chords[1], "Em ");
    assert_eq!(text[1], "La la");
    match &song.text[0] {
        SongLine::Both { chords, text } => {
            assert_eq!(chords.spans[0].style, Style::Comment);
            assert_eq!(text.spans[0].style, Style::Comment);
            assert_eq!(chords.spans[1].style, Style::Chord);
            assert_eq!(text.spans[1].style, Style::Plain);
        },
        _ => panic!("expected both runs"),
    }
}

#[test]
fn get_name_uses_title_and_subtitle() {
    assert_eq!(Song::get_name("{t:Foo}\n{st:Bar}"), "Foo - Bar");
    assert_eq!(Song::get_name(""), "Untitled");
    assert_eq!(Song::get_name("{title: Spaced }"), "Spaced");
    assert_eq!(Song::get_name("la la la"), "Untitled");
}

#[test]
fn subtitle_becomes_title_styled_line() {
    let song = Song::from(String::from("{st:Low}"));
    assert_eq!(song.subtitle, "Low");
    assert_eq!(song.text.len(), 1);
    match &song.text[0] {
        SongLine::Text(run) => {
            assert_eq!(run.spans[0].style, Style::Title);
            let s: String = run.spans[0].content.iter().collect();
            assert_eq!(s, "Low");
        },
        _ => panic!("expected a text line"),
    }
}

#[test]
fn capo_directive_lowers_chords() {
    let song = Song::from(String::from("{Capo-Bass_Guitar: 2}\n[D]x"));
    let (chords, text) = span_text(&song.text[1]);
    assert_eq!(chords, vec![String::from("C ")]);
    assert_eq!(text, vec![String::from("x")]);
}

#[test]
fn malformed_capo_is_ignored() {
    let song = Song::from(String::from("{Capo-Bass_Guitar: two}\n[D]x"));
    let (chords, _) = span_text(&song.text[1]);
    assert_eq!(chords, vec![String::from("D ")]);
}

#[test]
fn comment_block_suppresses_chord_parsing() {
    let song = Song::from(String::from("{soh}\nhello [C]x\n{eoh}"));
    let (chords, text) = span_text(&song.text[1]);
    assert!(chords.is_empty());
    assert_eq!(text, vec![String::from("hello [C]x")]);
    match &song.text[1] {
        SongLine::Text(run) => assert_eq!(run.spans[0].style, Style::Comment),
        _ => panic!("expected a text line"),
    }
}

#[test]
fn inline_comment_is_styled() {
    let song = Song::from(String::from("{c:Refrain}"));
    match &song.text[0] {
        SongLine::Text(run) => {
            assert_eq!(run.spans[0].style, Style::Comment);
            let s: String = run.spans[0].content.iter().collect();
            assert_eq!(s, "Refrain");
        },
        _ => panic!("expected a text line"),
    }
}

#[test]
fn chords_padded_into_words_use_hyphens() {
    // the second chord starts past the lyrics, inside a word: the lyric
    // side is padded with hyphens up to it
    let song = Song::from(String::from("ge[Gmaj7][C]bed"));
    let (chords, text) = span_text(&song.text[0]);
    assert_eq!(chords, vec![String::from("  Gmaj7 C ")]);
    assert_eq!(text, vec![String::from("ge------bed")]);
}

#[test]
fn unknown_directives_are_ignored() {
    let song = Song::from(String::from("{weird:stuff}[C]a"));
    let (chords, text) = span_text(&song.text[0]);
    assert_eq!(chords, vec![String::from("C ")]);
    assert_eq!(text, vec![String::from("a")]);
}

#[test]
fn empty_source_yields_no_lines() {
    let song = Song::from(String::new());
    assert_eq!(song.title, "");
    assert_eq!(song.text.len(), 0);
}

#[test]
fn line_endings_are_normalized() {
    let song = Song::from(String::from("{t:X}\r\na\rb"));
    assert_eq!(song.title, "X");
    assert_eq!(song.songstring, "{t:X}\na\nb");
    assert_eq!(song.text.len(), 2);
}

#[test]
fn empty_chord_brackets_only_align() {
    // an empty bracket contributes alignment and its trailing space only
    let song = Song::from(String::from("[C]one [][G]two"));
    let (chords, text) = span_text(&song.text[0]);
    assert_eq!(chords, vec![String::from("C    G ")]);
    assert_eq!(text, vec![String::from("one  two")]);
}

#[test]
fn key_directives_accumulate() {
    let key = PitchClass::parse("D").unwrap();
    let song = Song::in_key(String::from("{key: C}\n{key: C}\n[C]x"), key);
    let (chords, _) = span_text(&song.text[0]);
    assert_eq!(chords, vec![String::from("E ")]);
}

#[test]
fn flat_keys_transpose_too() {
    let key = PitchClass::parse("C").unwrap();
    let song = Song::in_key(String::from("{key: Bb}\n[Bb]x"), key);
    let (chords, _) = span_text(&song.text[0]);
    assert_eq!(chords, vec![String::from("C ")]);
}

#[test]
fn directives_without_arguments_have_no_effect() {
    let song = Song::from(String::from("{t}\nx"));
    assert_eq!(song.title, "");
    assert_eq!(song.text.len(), 1);
    assert_eq!(Song::get_name("{t}"), "Untitled");
}

#[test]
fn generic_tag_directive_consumes_its_line() {
    let song = Song::from(String::from("{tag: anything}rest\nx"));
    assert_eq!(song.text.len(), 1);
    let (_, text) = span_text(&song.text[0]);
    assert_eq!(text, vec![String::from("x")]);
}

#[test]
fn chorus_end_line_leaves_a_spacer() {
    let song = Song::from(String::from("{soc}\n[Em]La la\n{eoc}"));
    assert_eq!(song.text.len(), 2);
    match &song.text[1] {
        SongLine::Text(run) => assert!(run.spans.is_empty()),
        _ => panic!("expected an empty text line"),
    }
    assert_eq!(song.text[1].height(), 1);
}

#[test]
fn comment_block_opens_on_its_own_line_text() {
    // text after the opening tag on the same line is already commented
    let song = Song::from(String::from("{soh}note [C]x"));
    let (chords, text) = span_text(&song.text[0]);
    assert!(chords.is_empty());
    assert_eq!(text, vec![String::from("note [C]x")]);
}

#[test]
fn alignment_counts_earlier_spans_on_the_line() {
    // the inline comment already occupies two columns of the lyric row,
    // so the first chord is padded past it
    let song = Song::from(String::from("{c:no}[C]a"));
    let (chords, text) = span_text(&song.text[0]);
    assert_eq!(chords, vec![String::from("  C ")]);
    assert_eq!(text, vec![String::from("no"), String::from("a")]);
}

#[test]
fn get_name_agrees_with_the_builder_on_stacked_tags() {
    // a title directive consumes the rest of its line in the builder,
    // and the name scan reads the line the same way
    let song = Song::from(String::from("{t:A}{t:B}"));
    assert_eq!(song.title, "A");
    assert_eq!(Song::get_name("{t:A}{t:B}"), "A");
}

#[test]
fn consuming_directives_hide_later_tags_from_the_name_scan() {
    let song = Song::from(String::from("{key: C}{t:X}"));
    assert_eq!(song.title, "");
    assert_eq!(Song::get_name("{key: C}{t:X}"), "Untitled");
    assert_eq!(Song::get_name("{soc}{st:Y}\n{t:Z}"), "Z");
}
