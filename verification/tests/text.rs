use gfwsni::text::{
    chars_of, find_char, is_empty, is_whitespace, lower_of, next_line, next_piece, next_word, same_ignoring_case, string_of,
    strip_prefix, trim_end_char_of, trim_end_of, trim_of, trim_start_char_of, trim_start_of,
};

const SAMPLES: [&str; 12] = [
    "",
    "\n",
    "\r\n",
    "a",
    "a\r",
    "a\r\r\nb\n\nc",
    "one two\tthree\n four \r\n",
    "\u{3000}x\u{a0}y\u{85}",
    "..a.b..",
    "[[::1]]",
    "Größe ÄB z",
    "\u{2028}\u{1680}\u{205f}end\u{2009}",
];

fn text(s: &[char]) -> String {
    s.iter().collect()
}

#[test]
fn lines_are_those_of_a_string() {
    for s in SAMPLES {
        let all = chars_of(s);
        let mut rest: &[char] = &all;
        let mut got = Vec::new();
        while let Some((line, tail)) = next_line(rest) {
            got.push(text(line));
            rest = tail;
        }
        let want: Vec<&str> = s.lines().collect();
        assert_eq!(got, want);
    }
}

#[test]
fn lines_with_their_endings_are_those_of_a_string() {
    for s in SAMPLES {
        let all = chars_of(s);
        let mut rest: &[char] = &all;
        let mut got = Vec::new();
        while let Some((line, tail)) = next_piece(rest) {
            got.push(text(line));
            rest = tail;
        }
        let want: Vec<&str> = s.split_inclusive('\n').collect();
        assert_eq!(got, want);
    }
}

#[test]
fn words_are_those_of_a_string() {
    for s in SAMPLES {
        let all = chars_of(s);
        let mut rest: &[char] = &all;
        let mut got = Vec::new();
        while let Some((word, tail)) = next_word(rest) {
            got.push(text(word));
            rest = tail;
        }
        let want: Vec<&str> = s.split_whitespace().collect();
        assert_eq!(got, want);
    }
}

#[test]
fn white_space_is_that_of_unicode() {
    for c in '\0'..='\u{ffff}' {
        assert_eq!(is_whitespace(c), c.is_whitespace());
    }
}

#[test]
fn texts_are_trimmed() {
    for s in SAMPLES {
        let all = chars_of(s);
        assert_eq!(text(trim_of(&all)), s.trim());
        assert_eq!(text(trim_start_of(&all)), s.trim_start());
        assert_eq!(text(trim_end_of(&all)), s.trim_end());
        assert_eq!(text(trim_end_char_of(&all, '.')), s.trim_end_matches('.'));
        assert_eq!(text(trim_start_char_of(&all, '[')), s.trim_start_matches('['));
    }
}

#[test]
fn texts_are_compared() {
    for s in SAMPLES {
        let all = chars_of(s);
        assert_eq!(text(&lower_of(&all)), s.to_ascii_lowercase());
        assert!(same_ignoring_case(&all, &chars_of(&s.to_ascii_uppercase())));
        assert_eq!(string_of(&all), s);
        assert_eq!(is_empty(s), s.is_empty());
        assert_eq!(find_char(&all, 'b'), s.chars().position(|c| c == 'b'));
        assert_eq!(
            strip_prefix(&all, &['a']).map(|r| text(r)),
            s.strip_prefix('a').map(|r| r.to_string())
        );
    }
    assert!(!same_ignoring_case(&chars_of("ä"), &chars_of("Ä")));
}
