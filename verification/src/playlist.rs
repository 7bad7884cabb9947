//! Playlists: a titled list of song entries, read from a plain text
//! where the first line is the title and each further line names a song.

use vstd::prelude::*;

verus! {

/// An entry of the file browser's list.
#[derive(Debug, Clone)]
pub enum FolderEntry {
    /// A song, by name.
    Song(String),
}

/// A line with a trailing carriage return removed, as `str::lines`
/// hands lines out.
pub open spec fn strip_cr(l: Seq<char>) -> Seq<char> {
    if l.len() > 0 && l.last() == '\r' {
        l.drop_last()
    } else {
        l
    }
}

/// The lines of a playlist file: split at `\n`, each line without its
/// trailing carriage return, no extra line for a trailing newline.
pub open spec fn playlist_lines(s: Seq<char>) -> Seq<Seq<char>> {
    crate::textops::split_lines_spec(s).map(|k: int, l: Seq<char>| strip_cr(l))
}

/// A playlist: its title, its songs in order, and the text it was read
/// from.
#[derive(Debug)]
pub struct Playlist {
    pub title: String,
    pub songs: Vec<FolderEntry>,
    pub playliststring: String,
}

impl Playlist {
    /// Read a playlist: the first line is the title, every further line
    /// one song entry, in order.
    pub fn new(playliststring: String) -> (r: Playlist)
        requires
            playliststring@.len() > 0,
        ensures
            r.playliststring@ == playliststring@,
            r.title@ == playlist_lines(playliststring@)[0],
            r.songs@.len() == playlist_lines(playliststring@).len() - 1,
            forall|k: int|
                0 <= k < r.songs@.len() ==> (#[trigger] r.songs@[k])->Song_0@ == playlist_lines(
                    playliststring@,
                )[k + 1],
    {
        let ghost gls = playlist_lines(playliststring@);
        let chars = crate::textops::str_to_chars(playliststring.as_str());
        let lines = crate::textops::split_lines(&chars);
        proof {
            assert(lines@.map(|k: int, l: Vec<char>| l@).len() >= 1);
        }
        let first = strip_line(&lines[0]);
        proof {
            assert(gls[0] == strip_cr(lines@[0]@));
        }
        let title = crate::textops::chars_to_string(&first);
        let mut songs: Vec<FolderEntry> = Vec::new();
        let mut i: usize = 1;
        while i < lines.len()
            invariant
                1 <= i <= lines@.len(),
                lines@.map(|k: int, l: Vec<char>| l@) == crate::textops::split_lines_spec(
                    playliststring@,
                ),
                gls == playlist_lines(playliststring@),
                songs@.len() == i - 1,
                forall|k: int|
                    0 <= k < songs@.len() ==> (#[trigger] songs@[k])->Song_0@ == gls[k + 1],
            decreases lines@.len() - i,
        {
            let stripped = strip_line(&lines[i]);
            proof {
                assert(gls[i as int] == strip_cr(lines@[i as int]@));
            }
            songs.push(FolderEntry::Song(crate::textops::chars_to_string(&stripped)));
            i = i + 1;
        }
        Playlist { title, songs, playliststring }
    }
}

/// Remove a trailing carriage return.
fn strip_line(l: &Vec<char>) -> (r: Vec<char>)
    ensures
        r@ == strip_cr(l@),
{
    let n = l.len();
    if n > 0 && l[n - 1] == '\r' {
        crate::textops::subrange_chars(l, 0, n - 1)
    } else {
        crate::textops::subrange_chars(l, 0, n)
    }
}

} // verus!
