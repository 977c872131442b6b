use display_fs::spotify::{
    format_spotify_text, needs_redraw, parse_now_playing, spotify_text, trim_to_width, NowPlaying,
};

fn np(track: &str, artist: &str, is_playing: bool) -> NowPlaying {
    NowPlaying { track: track.to_string(), artist: artist.to_string(), is_playing }
}

#[test]
fn trim_keeps_short_text() {
    assert_eq!(trim_to_width("Hello", 5), "Hello");
    assert_eq!(trim_to_width("Hello", 0), "");
}

#[test]
fn trim_adds_ellipsis() {
    assert_eq!(trim_to_width("Hello World", 8), "Hello...");
    assert_eq!(trim_to_width("Hello", 3), "Hel");
    assert_eq!(trim_to_width("ÄÖÜäöü", 4), "Ä...");
}

#[test]
fn format_two_lines() {
    assert_eq!(format_spotify_text("Song", "Band", true, 20), "\u{266A} Song\nby Band");
    assert_eq!(format_spotify_text("Song", "Band", false, 20), "|| Song\nby Band");
    assert_eq!(
        format_spotify_text("A very long title", "Someone", true, 10),
        "\u{266A} A ver...\nby Someone"
    );
    assert_eq!(format_spotify_text("Song", "Band", false, 0), "|| \nby ");
    assert_eq!(format_spotify_text("Song", "Somebody", true, 7), "\u{266A} Song\nby S...");
    assert_eq!(format_spotify_text("Song", "Somebody", true, 6), "\u{266A} Song\nby Som");
}

#[test]
fn redraw_only_on_change() {
    assert!(needs_redraw(&None, &None));
    assert!(!needs_redraw(&Some(None), &None));
    assert!(needs_redraw(&Some(None), &Some(np("a", "b", true))));
    assert!(!needs_redraw(&Some(Some(np("a", "b", true))), &Some(np("a", "b", true))));
    assert!(needs_redraw(&Some(Some(np("a", "b", true))), &Some(np("a", "b", false))));
}

#[test]
fn text_when_not_running() {
    assert_eq!(spotify_text(&None, 10), "Spotify not running");
    assert_eq!(spotify_text(&Some(np("x", "y", true)), 10), "\u{266A} x\nby y");
}

#[test]
fn both_lines_stay_within_width() {
    for max_len in 3..12 {
        for playing in [true, false] {
            let text = format_spotify_text("A long track title", "An artist name", playing, max_len);
            for line in text.split('\n') {
                assert!(line.chars().count() <= max_len, "{:?} longer than {}", line, max_len);
            }
        }
    }
}

#[test]
fn parse_spotify_answer() {
    let np = parse_now_playing("Song\nBand\nplaying\n").unwrap();
    assert_eq!((np.track.as_str(), np.artist.as_str(), np.is_playing), ("Song", "Band", true));
    let np = parse_now_playing("Song\nBand\npaused").unwrap();
    assert!(!np.is_playing);
    assert!(parse_now_playing("").is_none());
    assert!(parse_now_playing("\n\n").is_none());
    assert!(parse_now_playing("Song\nBand\n").is_none());
    assert!(parse_now_playing("\nBand\nplaying").is_none());
}
