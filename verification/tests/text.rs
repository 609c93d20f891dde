use import_utility::text::{
    comes_before, is_whitespace, parse_extensions, same_ignoring_ascii_case, trimmed,
};

fn reference_extensions(input: &str) -> Vec<String> {
    input
        .split(',')
        .map(|s| s.trim().to_string())
        .filter(|s| !s.is_empty())
        .collect()
}

#[test]
fn lists_of_extensions() {
    assert_eq!(parse_extensions("mp4, mkv, nev, wav"), ["mp4", "mkv", "nev", "wav"]);
    assert_eq!(parse_extensions(""), Vec::<String>::new());
    assert_eq!(parse_extensions(" , ,,"), Vec::<String>::new());
    assert_eq!(parse_extensions("  MP4\t,\u{a0}wav\u{3000}"), ["MP4", "wav"]);
    assert_eq!(parse_extensions("a b, c"), ["a b", "c"]);
    for input in ["mp4", ",mp4", "mp4,", "\u{e9}, \u{1f3a5} ,x", "a,,b , ,c\n"] {
        assert_eq!(parse_extensions(input), reference_extensions(input));
    }
}

#[test]
fn entries_of_lists_are_clean() {
    for entry in parse_extensions(" x ,, y z\t,\u{2003}w,") {
        assert!(!entry.is_empty());
        assert!(!entry.contains(','));
        assert_eq!(entry.trim(), entry);
    }
}

#[test]
fn white_space_is_that_of_unicode() {
    for u in 0..=0x10ffffu32 {
        if let Some(c) = char::from_u32(u) {
            assert_eq!(is_whitespace(c), c.is_whitespace());
        }
    }
}

#[test]
fn trimming() {
    for s in ["", " ", "a", " a ", "\u{85}a b\u{202f}", "\n\t", "\u{200b}a\u{200b}"] {
        assert_eq!(trimmed(s), s.trim());
        assert_eq!(trimmed(&trimmed(s)), trimmed(s));
    }
}

#[test]
fn ascii_case() {
    for (a, b) in [
        ("mp4", "MP4"),
        ("mp4", "mp3"),
        ("", ""),
        ("a", "ab"),
        ("\u{e9}", "\u{c9}"),
        ("[", "{"),
        ("@Z", "@z"),
        ("k", "\u{212a}"),
    ] {
        assert_eq!(same_ignoring_ascii_case(a, b), a.eq_ignore_ascii_case(b));
        assert_eq!(same_ignoring_ascii_case(b, a), b.eq_ignore_ascii_case(a));
    }
}

#[test]
fn dictionary_order() {
    let words = ["", "a", "aa", "ab", "b", "B", "2024-01-02", "2024-01-10", "Unknown", "+10000-01-01",
        "\u{e9}", "\u{ffff}", "\u{10000}", "z\u{0}"];
    for a in words {
        for b in words {
            assert_eq!(comes_before(a, b), a < b);
        }
    }
}
