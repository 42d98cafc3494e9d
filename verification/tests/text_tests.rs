use pidnest::text::{
    append_decimal, char_is_space, chars_of, contains_chars, first_word_range, parse_u32_range,
    trim_range,
};

#[test]
fn whitespace_is_what_std_calls_whitespace() {
    for code in 0..=0x10FFFFu32 {
        if let Some(c) = char::from_u32(code) {
            assert_eq!(char_is_space(c), c.is_whitespace(), "U+{code:04X}");
        }
    }
}

fn samples() -> Vec<&'static str> {
    vec![
        "", " ", "0", "+", "-", "+0", "-0", "42", " 42", "42 ", "+42", "++1", "4294967295",
        "4294967296", "00000000004294967295", "99999999999999999999", "1a", "a1", "\u{661}",
        "\t\u{3000}x y\u{85}", "  two words ", "\u{a0}\u{a0}",
    ]
}

#[test]
fn numbers_read_as_std_reads_them() {
    for s in samples() {
        let chars = chars_of(s);
        assert_eq!(parse_u32_range(&chars, 0, chars.len()), s.parse::<u32>().ok(), "{s:?}");
    }
}

#[test]
fn trimming_and_words_as_std_gives_them() {
    for s in samples() {
        let chars = chars_of(s);
        let (a, b) = trim_range(&chars, 0, chars.len());
        let trimmed: String = chars[a..b].iter().collect();
        assert_eq!(trimmed, s.trim(), "{s:?}");
        let word = first_word_range(&chars, 0, chars.len())
            .map(|(a, b)| chars[a..b].iter().collect::<String>());
        assert_eq!(word.as_deref(), s.split_whitespace().next(), "{s:?}");
    }
}

#[test]
fn decimal_as_display_writes_it() {
    for n in [0u64, 7, 10, 99, 100, 12345, u32::MAX as u64, u64::MAX] {
        let mut out = String::from("n=");
        append_decimal(&mut out, n);
        assert_eq!(out, format!("n={n}"));
    }
}

#[test]
fn substring_search_as_std_does_it() {
    let cases = [
        ("codex", "dex"),
        ("codex", ""),
        ("", ""),
        ("", "a"),
        ("abc", "abcd"),
        ("aaab", "aab"),
        ("héllo", "él"),
        ("héllo", "el"),
    ];
    for (hay, needle) in cases {
        assert_eq!(
            contains_chars(&chars_of(hay), &chars_of(needle)),
            hay.contains(needle),
            "{hay:?} {needle:?}"
        );
    }
}
