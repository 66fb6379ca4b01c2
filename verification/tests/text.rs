use addrparts::text::{
    chars_of, is_whitespace_char, split_chars, string_of, trim_chars, words_chars,
};

fn s(v: &Vec<char>) -> String {
    v.iter().collect()
}

#[test]
fn whitespace_matches_std_for_every_char() {
    for code in 0u32..=0x10FFFF {
        if let Some(c) = char::from_u32(code) {
            assert_eq!(is_whitespace_char(c), c.is_whitespace(), "U+{code:04X}");
        }
    }
}

const SAMPLES: [&str; 8] = [
    "",
    "   ",
    "  a  b ",
    "\u{3000}x\u{a0}y\t",
    "a,,b, c ,",
    ",",
    "one",
    "\n\r\n mixed \u{2028} words\u{85}",
];

#[test]
fn trim_matches_std() {
    for text in SAMPLES {
        assert_eq!(s(&trim_chars(&chars_of(text))), text.trim());
    }
}

#[test]
fn split_matches_std() {
    for text in SAMPLES {
        let ours: Vec<String> = split_chars(&chars_of(text), ',').iter().map(s).collect();
        let std_pieces: Vec<String> = text.split(',').map(|p| p.to_string()).collect();
        assert_eq!(ours, std_pieces);
    }
}

#[test]
fn words_match_std() {
    for text in SAMPLES {
        let ours: Vec<String> = words_chars(&chars_of(text)).iter().map(s).collect();
        let std_words: Vec<String> = text.split_whitespace().map(|p| p.to_string()).collect();
        assert_eq!(ours, std_words);
    }
}

#[test]
fn string_round_trip() {
    for text in SAMPLES {
        assert_eq!(string_of(&chars_of(text)), text);
    }
}
