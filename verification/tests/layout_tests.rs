use gpro::layout::{wrap_lines, Column};
use gpro::line::{SongLine, SplitError};
use gpro::song::Song;
use gpro::style::{Span, Style, StyledRun};

fn plain_line(text: &str) -> SongLine {
    SongLine::from_text(StyledRun::single(Span::new(text.chars().collect(), Style::Plain)))
}

#[test]
fn linewrap() {
    let song = Song::from(String::from(
        "
[|][F]Zelfs de blinden [|][C]zien uw heerschap[|][G]pij [F][|][G]
{c:Refrein}
[|][F]Hoor [C]ons ge[|][G]bed en [|][C]kom! [⁄][⁄][⁄][|][C][⁄][⁄][⁄]

",
    ));
    let wrapped = wrap_lines(&song.text, 20, 20);
    println!("{:#?}", wrapped);
}

#[test]
fn thirty_lines_make_four_columns() {
    // height 10 minus the 2-cell margin leaves 8 usable rows
    let mut lines: Vec<SongLine> = Vec::new();
    for _ in 0..30 {
        lines.push(plain_line("x"));
    }
    let cols = wrap_lines(&lines, 10, 40);
    assert_eq!(cols.len(), 4);
    let heights: Vec<usize> = cols.iter().map(|c| c.height()).collect();
    assert_eq!(heights, vec![8, 8, 8, 6]);
}

#[test]
fn wide_lines_are_split_at_the_width() {
    let lines = vec![plain_line("abcdefghijklmnopqrstuvwxyz")];
    let cols = wrap_lines(&lines, 20, 12);
    let mut pieces: Vec<String> = Vec::new();
    for col in &cols {
        for line in &col.content {
            match line {
                SongLine::Text(run) => pieces.push(run.spans.iter().flat_map(|s| {
                    s.content.iter().cloned()
                }).collect()),
                _ => panic!("expected text lines"),
            }
        }
    }
    assert_eq!(
        pieces,
        vec![
            String::from("abcdefghij"),
            String::from("klmnopqrst"),
            String::from("uvwxyz"),
        ],
    );
}

#[test]
fn rewrapping_is_idempotent() {
    let song = Song::from(String::from(
        "{t:W}\n[C]Hello [G]world of long lyric lines that need splitting\nla la la\n[Em]x",
    ));
    let once = wrap_lines(&song.text, 8, 14);
    let mut flat: Vec<SongLine> = Vec::new();
    for col in &once {
        for line in &col.content {
            flat.push(line.duplicate());
        }
    }
    let twice = wrap_lines(&flat, 8, 14);
    assert_eq!(format!("{:#?}", once), format!("{:#?}", twice));
}

#[test]
fn split_at_divides_both_runs() {
    let line = SongLine::from(
        StyledRun::single(Span::new("C   G".chars().collect(), Style::Chord)),
        StyledRun::single(Span::new("one two".chars().collect(), Style::Plain)),
    );
    let (a, b) = line.split_at(3).unwrap();
    match (&a, &b) {
        (SongLine::Both { chords: ca, text: ta }, SongLine::Both { chords: cb, text: tb }) => {
            let s: String = ca.spans[0].content.iter().collect();
            assert_eq!(s, "C  ");
            let s: String = ta.spans[0].content.iter().collect();
            assert_eq!(s, "one");
            let s: String = cb.spans[0].content.iter().collect();
            assert_eq!(s, " G");
            let s: String = tb.spans[0].content.iter().collect();
            assert_eq!(s, " two");
            assert_eq!(cb.spans[0].style, Style::Chord);
        },
        _ => panic!("expected both-run halves"),
    }
    assert_eq!(a.width(), 3);
    assert_eq!(b.width(), 4);
    assert_eq!(a.height(), 2);
}

#[test]
fn split_errors_are_reported() {
    assert!(matches!(SongLine::Empty.split_at(0), Err(SplitError::EmptyLine)));
    let line = plain_line("abc");
    assert_eq!(line.split_at(3).unwrap_err(), SplitError::IndexOutOfRange);
    assert_eq!(line.split_at(7).unwrap_err(), SplitError::IndexOutOfRange);
}

#[test]
fn column_reports_height_and_spans() {
    let col = Column::from(vec![
        plain_line("a"),
        SongLine::from(
            StyledRun::single(Span::new("C".chars().collect(), Style::Chord)),
            StyledRun::single(Span::new("b".chars().collect(), Style::Plain)),
        ),
    ]);
    assert_eq!(col.height(), 3);
    let spans = col.to_spans();
    assert_eq!(spans.len(), 3);
    let s: String = spans[1].spans[0].content.iter().collect();
    assert_eq!(s, "C");
}
