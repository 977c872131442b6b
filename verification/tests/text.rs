use display_fs::strings::char_is_whitespace;
use display_fs::text::{paginate, wrap_text};

/// A stand-in for glyph measurement: 8 px per char, 14 px for 'W'.
fn width(s: &str) -> u32 {
    s.chars().map(|c| if c == 'W' { 14 } else { 8 }).sum()
}

fn fits_160(s: &str) -> bool {
    width(s) <= 160
}

#[test]
fn wrap_empty_text_gives_no_lines() {
    assert!(wrap_text("", fits_160).is_empty());
    assert!(paginate("", 5, fits_160).is_empty());
}

#[test]
fn single_word_that_fits() {
    let pages = paginate("Hello", 5, fits_160);
    assert_eq!(pages, vec!["Hello".to_string()]);
}

#[test]
fn words_fill_lines_greedily() {
    // 20 chars fit on a line.
    let lines = wrap_text("aaaa bbbb cccc dddd eeee ffff", fits_160);
    assert_eq!(lines, vec!["aaaa bbbb cccc dddd".to_string(), "eeee ffff".to_string()]);
}

#[test]
fn newlines_keep_paragraphs_and_blank_lines() {
    let lines = wrap_text("Line one\n\nLine   two  ", fits_160);
    assert_eq!(lines, vec!["Line one".to_string(), String::new(), "Line two".to_string()]);
}

#[test]
fn long_word_is_cut_without_losing_chars() {
    let word = "W".repeat(60);
    let pages = paginate(&word, 3, fits_160);
    assert!(!pages.is_empty());
    let displayed: String = pages.iter().flat_map(|p| p.chars()).filter(|c| *c != '\n').collect();
    assert_eq!(displayed, word);
    for page in &pages {
        for line in page.lines() {
            assert!(fits_160(line), "line '{}' too wide", line);
        }
    }
    // 11 'W' fit in 160 px: 60 = 5 * 11 + 5.
    let lines = wrap_text(&word, fits_160);
    assert_eq!(lines.len(), 6);
    assert_eq!(lines[5], "W".repeat(5));
}

#[test]
fn glyph_wider_than_display_stands_alone() {
    let lines = wrap_text("ab", |s: &str| !s.contains('b') && s.chars().count() <= 1);
    assert_eq!(lines, vec!["a".to_string(), "b".to_string()]);
}

#[test]
fn long_word_after_words_starts_new_line() {
    let lines = wrap_text("hi WWWWWWWWWWWWW x", fits_160);
    assert_eq!(
        lines,
        vec!["hi".to_string(), "WWWWWWWWWWW".to_string(), "WW".to_string(), "x".to_string()]
    );
}

#[test]
fn pages_hold_at_most_max_lines() {
    let text = "one two three four five six seven eight nine ten eleven twelve";
    let pages = paginate(text, 2, |s: &str| s.chars().count() <= 9);
    assert_eq!(
        pages,
        vec![
            "one two\nthree".to_string(),
            "four five\nsix seven".to_string(),
            "eight\nnine ten".to_string(),
            "eleven\ntwelve".to_string(),
        ]
    );
    assert!(paginate(text, 0, fits_160).is_empty());
}

#[test]
fn text_requiring_multiple_pages() {
    let long_text = "This is a long message that will definitely need to be split across multiple pages because it contains many words and the display is only 160x80 pixels which is quite small for displaying lengthy text content.";
    let pages = paginate(long_text, 4, fits_160);
    assert!(pages.len() > 1);
    let words: Vec<&str> = long_text.split_whitespace().collect();
    let shown: Vec<&str> = pages.iter().flat_map(|p| p.split_whitespace()).collect();
    assert_eq!(words, shown);
}

#[test]
fn unicode_whitespace_separates_words() {
    let lines = wrap_text("a\tb\u{3000}c\u{A0}d e\r", |s: &str| s.chars().count() <= 3);
    assert_eq!(lines, vec!["a b".to_string(), "c d".to_string(), "e".to_string()]);
    // No line holds a newline; each paragraph gives a line.
    let lines = wrap_text("x\n\ny", fits_160);
    assert_eq!(lines, vec!["x".to_string(), String::new(), "y".to_string()]);
}

fn pages(text: &str) -> Vec<String> {
    // Stand-in for the 160 x 80 landscape panel at 14 px: five lines of 160 px.
    paginate(text, 5, fits_160)
}

#[test]
fn test_split_with_newlines() {
    let text = "Line one\nLine two\nLine three";
    let pages = pages(text);

    // Should preserve line structure
    assert!(!pages.is_empty());

    // The combined pages should contain all original lines
    let combined: String = pages.join("\n");
    assert!(combined.contains("Line one"));
    assert!(combined.contains("Line two"));
    assert!(combined.contains("Line three"));
}

#[test]
fn test_word_boundary_splitting() {
    // Verify words aren't broken mid-word
    let text = "Hello World Test";
    let pages = pages(text);

    for page in &pages {
        // Check no partial words (assuming these are complete words)
        let words: Vec<&str> = page.split_whitespace().collect();
        for word in words {
            assert!(text.contains(word), "Found unexpected word fragment: {}", word);
        }
    }
}

#[test]
fn whitespace_set() {
    for c in [' ', '\t', '\n', '\r', '\u{0B}', '\u{0C}', '\u{85}', '\u{A0}', '\u{1680}', '\u{2000}',
        '\u{200A}', '\u{2028}', '\u{2029}', '\u{202F}', '\u{205F}', '\u{3000}'] {
        assert!(char_is_whitespace(c), "{:?}", c);
        assert_eq!(char_is_whitespace(c), c.is_whitespace());
    }
    for c in ['H', '\u{200B}', '\u{180E}', '\u{FEFF}', '_', '\u{1F}'] {
        assert!(!char_is_whitespace(c), "{:?}", c);
        assert_eq!(char_is_whitespace(c), c.is_whitespace());
    }
}
