use carsync::text::{chars_of, next_word, string_of, trim, white_space};

#[test]
fn chars_and_string_round_trip() {
    for s in ["", "abc", "héllo wörld", "🐟🐈"] {
        let chars = chars_of(s);
        assert_eq!(chars, s.chars().collect::<Vec<char>>());
        assert_eq!(string_of(&chars), s);
    }
}

#[test]
fn white_space_agrees_with_char_is_whitespace() {
    for u in 0..0x3100u32 {
        if let Some(c) = char::from_u32(u) {
            assert_eq!(white_space(c), c.is_whitespace(), "{:#x}", u);
        }
    }
}

#[test]
fn trim_agrees_with_str_trim() {
    for s in ["", "   ", "  a b  ", "\tx\n", "\u{3000}wide\u{2009}", "no-space"] {
        let chars: Vec<char> = s.chars().collect();
        let t: String = trim(&chars).into_iter().collect();
        assert_eq!(t, s.trim());
    }
}

#[test]
fn next_word_walks_like_split_whitespace() {
    for s in ["", "one", "  one two\tthree\n", "a  b", " \u{a0}x\u{a0}"] {
        let chars: Vec<char> = s.chars().collect();
        let mut words: Vec<String> = Vec::new();
        let mut from = 0;
        while let Some((start, end)) = next_word(&chars, from) {
            words.push(chars[start..end].iter().collect());
            from = end;
        }
        let expected: Vec<String> = s.split_whitespace().map(|w| w.to_string()).collect();
        assert_eq!(words, expected);
    }
}
