use gpro::playlist::{FolderEntry, Playlist};
use gpro::textops::{normalize_newlines, parse_i32, split_lines, trim};

fn chars(s: &str) -> Vec<char> {
    s.chars().collect()
}

fn string(v: &[char]) -> String {
    v.iter().collect()
}

#[test]
fn newline_variants_collapse_to_one() {
    assert_eq!(string(&normalize_newlines(&chars("a\r\nb\rc\nd\n\re"))), "a\nb\nc\nd\ne");
    assert_eq!(string(&normalize_newlines(&chars(""))), "");
    assert_eq!(string(&normalize_newlines(&chars("\n\n"))), "\n\n");
}

#[test]
fn lines_split_like_str_lines() {
    let got: Vec<String> = split_lines(&chars("a\nb\n")).iter().map(|l| string(l)).collect();
    assert_eq!(got, vec!["a", "b"]);
    let got: Vec<String> = split_lines(&chars("a\n\nb")).iter().map(|l| string(l)).collect();
    assert_eq!(got, vec!["a", "", "b"]);
    let got: Vec<String> = split_lines(&chars(""))
        .iter()
        .map(|l| string(l))
        .collect();
    assert!(got.is_empty());
}

#[test]
fn trim_strips_surrounding_whitespace() {
    assert_eq!(string(&trim(&chars("  a b\t"))), "a b");
    assert_eq!(string(&trim(&chars("\t \t"))), "");
    assert_eq!(string(&trim(&chars("ab"))), "ab");
}

#[test]
fn integers_parse_with_sign_and_range() {
    assert_eq!(parse_i32(&chars("12")), Some(12));
    assert_eq!(parse_i32(&chars("-3")), Some(-3));
    assert_eq!(parse_i32(&chars("+0007")), Some(7));
    assert_eq!(parse_i32(&chars("2147483647")), Some(2147483647));
    assert_eq!(parse_i32(&chars("-2147483648")), Some(-2147483648));
    assert_eq!(parse_i32(&chars("2147483648")), None);
    assert_eq!(parse_i32(&chars("-2147483649")), None);
    assert_eq!(parse_i32(&chars("")), None);
    assert_eq!(parse_i32(&chars("-")), None);
    assert_eq!(parse_i32(&chars("1 2")), None);
    assert_eq!(parse_i32(&chars("two")), None);
}

#[test]
fn playlists_take_title_then_songs() {
    let p = Playlist::new(String::from("Evening\r\nfirst.txt\r\nsecond.txt\r\n"));
    assert_eq!(p.title, "Evening");
    assert_eq!(p.songs.len(), 2);
    let FolderEntry::Song(name) = &p.songs[0];
    assert_eq!(name, "first.txt");
    let FolderEntry::Song(name) = &p.songs[1];
    assert_eq!(name, "second.txt");
    assert_eq!(p.playliststring, "Evening\r\nfirst.txt\r\nsecond.txt\r\n");
}
