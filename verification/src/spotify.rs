//! The text shown for the track Spotify is playing.
use vstd::prelude::*;
use crate::strings::{chars_of, string_from_chars};
use crate::text::{split_newlines, split_paragraphs, texts};

verus! {

/// The track Spotify reports.
#[derive(Debug, Clone)]
pub struct NowPlaying {
    pub track: String,
    pub artist: String,
    pub is_playing: bool,
}

/// `text` cut to at most `max_len` chars: kept whole when short enough,
/// otherwise its first chars followed by "..." when there is room for the
/// dots, or just its first `max_len` chars when there is not.
pub open spec fn spec_trim_to_width(text: Seq<char>, max_len: nat) -> Seq<char> {
    if max_len == 0 {
        Seq::empty()
    } else if text.len() <= max_len {
        text
    } else if max_len <= 3 {
        text.take(max_len as int)
    } else {
        text.take(max_len - 3) + seq!['.', '.', '.']
    }
}

fn trim_chars(text: &[char], max_len: usize) -> (r: Vec<char>)
    ensures
        r@ == spec_trim_to_width(text@, max_len as nat),
{
    if max_len == 0 {
        return Vec::new();
    }
    if text.len() <= max_len {
        return vstd::slice::slice_to_vec(text);
    }
    if max_len <= 3 {
        return vstd::slice::slice_to_vec(&text[0..max_len]);
    }
    let mut r = vstd::slice::slice_to_vec(&text[0..max_len - 3]);
    r.push('.');
    r.push('.');
    r.push('.');
    assert(r@ =~= text@.take(max_len - 3) + seq!['.', '.', '.']);
    r
}

/// Cuts `text` to at most `max_len` chars (see `spec_trim_to_width`).
pub fn trim_to_width(text: &str, max_len: usize) -> (r: String)
    ensures
        r@ == spec_trim_to_width(text@, max_len as nat),
{
    let chars = chars_of(text);
    string_from_chars(trim_chars(chars.as_slice(), max_len).as_slice())
}

/// `n - k`, or 0 when `k` is larger.
pub open spec fn saturating_sub(n: nat, k: nat) -> nat {
    if n >= k {
        (n - k) as nat
    } else {
        0
    }
}

/// Two lines: a play or pause symbol and the track, then "by" and the
/// artist, each cut to `max_len` chars.
pub open spec fn spec_format_spotify_text(track: Seq<char>, artist: Seq<char>, is_playing: bool, max_len: nat) -> Seq<char> {
    let prefix = if is_playing {
        seq!['\u{266A}']
    } else {
        seq!['|', '|']
    };
    let track_line = prefix + seq![' '] + spec_trim_to_width(
        track,
        saturating_sub(max_len, prefix.len() + 1),
    );
    let artist_line = seq!['b', 'y', ' '] + spec_trim_to_width(artist, saturating_sub(max_len, 3));
    track_line + seq!['\n'] + artist_line
}

/// The two-line text for a track (see `spec_format_spotify_text`).
pub fn format_spotify_text(track: &str, artist: &str, is_playing: bool, max_len: usize) -> (r: String)
    ensures
        r@ == spec_format_spotify_text(track@, artist@, is_playing, max_len as nat),
{
    let prefix: Vec<char> = if is_playing {
        let mut p = Vec::new();
        p.push('\u{266A}');
        p
    } else {
        let mut p = Vec::new();
        p.push('|');
        p.push('|');
        p
    };
    let prefix_len = prefix.len();
    let track_chars = chars_of(track);
    let artist_chars = chars_of(artist);
    let track_room = max_len.saturating_sub(prefix_len + 1);
    let artist_room = max_len.saturating_sub(3);
    let mut out = prefix;
    out.push(' ');
    let trimmed_track = trim_chars(track_chars.as_slice(), track_room);
    let mut i: usize = 0;
    let ghost head = out@;
    while i < trimmed_track.len()
        invariant
            i <= trimmed_track@.len(),
            out@ == head + trimmed_track@.take(i as int),
        decreases trimmed_track@.len() - i,
    {
        out.push(trimmed_track[i]);
        assert(trimmed_track@.take(i as int + 1) =~= trimmed_track@.take(i as int).push(
            trimmed_track@[i as int],
        ));
        i += 1;
    }
    assert(trimmed_track@.take(trimmed_track@.len() as int) =~= trimmed_track@);
    out.push('\n');
    out.push('b');
    out.push('y');
    out.push(' ');
    let trimmed_artist = trim_chars(artist_chars.as_slice(), artist_room);
    let ghost head2 = out@;
    let mut j: usize = 0;
    while j < trimmed_artist.len()
        invariant
            j <= trimmed_artist@.len(),
            out@ == head2 + trimmed_artist@.take(j as int),
        decreases trimmed_artist@.len() - j,
    {
        out.push(trimmed_artist[j]);
        assert(trimmed_artist@.take(j as int + 1) =~= trimmed_artist@.take(j as int).push(
            trimmed_artist@[j as int],
        ));
        j += 1;
    }
    assert(trimmed_artist@.take(trimmed_artist@.len() as int) =~= trimmed_artist@);
    assert(out@ =~= spec_format_spotify_text(track@, artist@, is_playing, max_len as nat));
    string_from_chars(out.as_slice())
}


/// Whether two reports name the same track, artist and play state; two
/// missing reports count as the same.
pub open spec fn same_report(a: Option<NowPlaying>, b: Option<NowPlaying>) -> bool {
    match (a, b) {
        (None, None) => true,
        (Some(x), Some(y)) => x.track@ == y.track@ && x.artist@ == y.artist@ && x.is_playing
            == y.is_playing,
        _ => false,
    }
}

/// Whether the display must be redrawn: nothing shown yet, or the report
/// differs from the one shown last.
pub fn needs_redraw(last_shown: &Option<Option<NowPlaying>>, now: &Option<NowPlaying>) -> (r: bool)
    ensures
        r == match *last_shown {
            None => true,
            Some(prev) => !same_report(prev, *now),
        },
{
    match last_shown {
        None => true,
        Some(prev) => match (prev, now) {
            (None, None) => false,
            (Some(x), Some(y)) => !(x.track == y.track && x.artist == y.artist && x.is_playing
                == y.is_playing),
            _ => true,
        },
    }
}

/// The text shown for a report: the two-line track text, or a note that
/// Spotify is not running.
pub open spec fn spec_spotify_text(now: Option<NowPlaying>, max_line_len: nat) -> Seq<char> {
    match now {
        Some(np) => spec_format_spotify_text(np.track@, np.artist@, np.is_playing, max_line_len),
        None => "Spotify not running"@,
    }
}

/// The text shown for a report (see `spec_spotify_text`).
pub fn spotify_text(now: &Option<NowPlaying>, max_line_len: usize) -> (r: String)
    ensures
        r@ == spec_spotify_text(*now, max_line_len as nat),
{
    match now {
        Some(np) => format_spotify_text(np.track.as_str(), np.artist.as_str(), np.is_playing, max_line_len),
        None => "Spotify not running".to_owned(),
    }
}


/// A trimmed text never exceeds `max_len` chars, and begins with the text
/// (all of it, or all but the three chars that the "..." replaces).
pub proof fn lemma_trim_fits(text: Seq<char>, max_len: nat)
    ensures
        spec_trim_to_width(text, max_len).len() <= max_len,
        spec_trim_to_width(text, max_len).len() == if text.len() <= max_len {
            text.len()
        } else {
            max_len
        },
        max_len > 3 && text.len() > max_len ==> spec_trim_to_width(text, max_len) == text.take(
            max_len - 3,
        ) + seq!['.', '.', '.'],
        max_len <= 3 || text.len() <= max_len ==> spec_trim_to_width(text, max_len) == text.take(
            spec_trim_to_width(text, max_len).len() as int,
        ),
{
    if text.len() <= max_len {
        assert(text.take(text.len() as int) =~= text);
    }
}

/// With room for the play symbol and a space (three chars), both lines of
/// the track text are at most `max_len` chars long.
pub proof fn lemma_spotify_lines_fit(track: Seq<char>, artist: Seq<char>, is_playing: bool, max_len: nat)
    requires
        max_len >= 3,
    ensures
        exists|first: Seq<char>, second: Seq<char>|
            {
                &&& spec_format_spotify_text(track, artist, is_playing, max_len) == first
                    + seq!['\n'] + second
                &&& first.len() <= max_len
                &&& second.len() <= max_len
            },
{
    let prefix = if is_playing {
        seq!['\u{266A}']
    } else {
        seq!['|', '|']
    };
    let room = saturating_sub(max_len, prefix.len() + 1);
    lemma_trim_fits(track, room);
    lemma_trim_fits(artist, saturating_sub(max_len, 3));
    let first = prefix + seq![' '] + spec_trim_to_width(track, room);
    let second = seq!['b', 'y', ' '] + spec_trim_to_width(artist, saturating_sub(max_len, 3));
    assert(spec_format_spotify_text(track, artist, is_playing, max_len) == first + seq!['\n']
        + second);
}


/// `s` without the newlines at its end.
pub open spec fn strip_trailing_newlines(s: Seq<char>) -> Seq<char>
    decreases s.len(),
{
    if s.len() > 0 && s.last() == '\n' {
        strip_trailing_newlines(s.drop_last())
    } else {
        s
    }
}

/// The report in Spotify's answer, read as lines after the trailing
/// newlines are dropped: track, artist and player state; `None` when there
/// are fewer than three lines or the track is empty. The track plays when the
/// state line is exactly "playing".
pub open spec fn spec_parse_now_playing(answer: Seq<char>) -> Option<(Seq<char>, Seq<char>, bool)> {
    let lines = split_newlines(strip_trailing_newlines(answer));
    if lines.len() < 3 || lines[0].len() == 0 {
        None
    } else {
        Some((lines[0], lines[1], lines[2] == seq!['p', 'l', 'a', 'y', 'i', 'n', 'g']))
    }
}

fn chars_equal(a: &[char], b: &[char]) -> (r: bool)
    ensures
        r == (a@ == b@),
{
    if a.len() != b.len() {
        return false;
    }
    let mut i: usize = 0;
    while i < a.len()
        invariant
            i <= a@.len(),
            a@.len() == b@.len(),
            forall|j: int| 0 <= j < i ==> a@[j] == b@[j],
        decreases a@.len() - i,
    {
        if a[i] != b[i] {
            return false;
        }
        i += 1;
    }
    assert(a@ =~= b@);
    true
}

/// Reads the report in Spotify's answer (see `spec_parse_now_playing`).
pub fn parse_now_playing(answer: &str) -> (r: Option<NowPlaying>)
    ensures
        match r {
            Some(np) => spec_parse_now_playing(answer@) == Some(
                (np.track@, np.artist@, np.is_playing),
            ),
            None => spec_parse_now_playing(answer@) is None,
        },
{
    let chars = chars_of(answer);
    let mut end = chars.len();
    assert(chars@.take(end as int) =~= chars@);
    while end > 0 && chars[end - 1] == '\n'
        invariant
            end <= chars@.len(),
            strip_trailing_newlines(chars@.take(end as int)) == strip_trailing_newlines(chars@),
        decreases end,
    {
        assert(chars@.take(end as int).drop_last() =~= chars@.take(end - 1));
        end -= 1;
    }
    let stripped = vstd::slice::slice_to_vec(&chars.as_slice()[0..end]);
    assert(stripped@ =~= chars@.take(end as int));
    assert(strip_trailing_newlines(stripped@) == stripped@);
    let lines = split_paragraphs(stripped.as_slice());
    if lines.len() < 3 || lines[0].len() == 0 {
        return None;
    }
    let playing = chars_of("playing");
    proof {
        reveal_strlit("playing");
        assert(playing@ =~= seq!['p', 'l', 'a', 'y', 'i', 'n', 'g']);
        assert(texts(lines@)[0] == lines@[0]@);
        assert(texts(lines@)[1] == lines@[1]@);
        assert(texts(lines@)[2] == lines@[2]@);
    }
    let is_playing = chars_equal(lines[2].as_slice(), playing.as_slice());
    Some(NowPlaying {
        track: string_from_chars(lines[0].as_slice()),
        artist: string_from_chars(lines[1].as_slice()),
        is_playing,
    })
}


/// The shown text starts with the note symbol for a playing track and with
/// "||" for a paused one; when the track and the artist each fit in the line
/// beside the symbol or "by ", the text is the symbol, a space and the
/// track, then a newline, "by " and the artist, unchanged. With no report it
/// says that Spotify is not running.
pub proof fn lemma_spotify_text_shape(now: Option<NowPlaying>, max_line_len: nat)
    ensures
        match now {
            Some(np) => {
                let t = spec_spotify_text(now, max_line_len);
                &&& (t[0] == '\u{266A}') == np.is_playing
                &&& (t.take(2) == seq!['|', '|']) == !np.is_playing
                &&& (max_line_len >= np.track@.len() + 3 && max_line_len >= np.artist@.len() + 3)
                    ==> t == (if np.is_playing {
                    seq!['\u{266A}', ' ']
                } else {
                    seq!['|', '|', ' ']
                }) + np.track@ + seq!['\n', 'b', 'y', ' '] + np.artist@
            },
            None => spec_spotify_text(now, max_line_len) == "Spotify not running"@,
        },
{
    if let Some(np) = now {
        let t = spec_spotify_text(now, max_line_len);
        let prefix = if np.is_playing {
            seq!['\u{266A}']
        } else {
            seq!['|', '|']
        };
        let room = saturating_sub(max_line_len, prefix.len() + 1);
        lemma_trim_fits(np.track@, room);
        lemma_trim_fits(np.artist@, saturating_sub(max_line_len, 3));
        assert(t[0] == prefix[0]);
        if np.is_playing {
            assert(t[1] == ' ');
            assert(t.take(2) != seq!['|', '|']) by {
                assert(t.take(2)[0] == '\u{266A}');
            }
        } else {
            assert(t.take(2) =~= seq!['|', '|']);
        }
        if max_line_len >= np.track@.len() + 3 && max_line_len >= np.artist@.len() + 3 {
            assert(np.track@.take(np.track@.len() as int) =~= np.track@);
            assert(np.artist@.take(np.artist@.len() as int) =~= np.artist@);
            assert(t =~= (if np.is_playing {
                seq!['\u{266A}', ' ']
            } else {
                seq!['|', '|', ' ']
            }) + np.track@ + seq!['\n', 'b', 'y', ' '] + np.artist@);
        }
    }
}

} // verus!
