use dprintx::text::{
    among, contains, is_whitespace, lines_of, parse_usize, print_usize, same_text, starts_with,
    strip_prefix, trim,
};

#[test]
fn white_space_is_what_unicode_says() {
    for n in 0..=0x10ffff_u32 {
        if let Some(c) = char::from_u32(n) {
            assert_eq!(is_whitespace(c), c.is_whitespace(), "{n:x}");
        }
    }
}

#[test]
fn trimming_is_what_std_does() {
    for s in [
        "", " ", "a", " a ", "\t a b \r\n", "\u{2003}x\u{3000}", "\u{200b}x", "  \n  ", "a\u{85}",
    ] {
        assert_eq!(trim(s), s.trim());
    }
}

#[test]
fn numbers_are_read_like_std_reads_them() {
    for s in [
        "", "0", "7", "42", "+42", "-1", "+", "-", "++1", " 1", "1 ", "1a", "007",
        "18446744073709551615", "18446744073709551616", "99999999999999999999999", "0x10",
        "\u{664}", "+0",
    ] {
        assert_eq!(parse_usize(s), s.parse::<usize>().ok(), "{s:?}");
    }
}

#[test]
fn printed_numbers_come_back() {
    for n in [0, 1, 9, 10, 99, 100, 12345, usize::MAX] {
        assert_eq!(print_usize(n), n.to_string());
        assert_eq!(parse_usize(&print_usize(n)), Some(n));
    }
}

#[test]
fn lines_are_what_std_gives() {
    for s in [
        "", "\n", "a", "a\n", "a\nb", "a\r\nb\r\n", "a\rb", "\r\n", "a\n\nb", "a\r", "\n\n",
        "x\r\r\n", "/a b\n/c",
    ] {
        let expected: Vec<&str> = s.lines().collect();
        assert_eq!(lines_of(s), expected, "{s:?}");
    }
}

#[test]
fn searching_is_what_std_does() {
    for s in ["", "a", "abc", "aab", "--no-gitignore", "x --no-gitignore y", "\u{e9}a"] {
        for part in ["", "a", "ab", "bc", "abcd", "--no-gitignore", "\u{e9}"] {
            assert_eq!(contains(s, part), s.contains(part));
            assert_eq!(starts_with(s, part), s.starts_with(part));
            assert_eq!(strip_prefix(s, part).as_deref(), s.strip_prefix(part));
            assert_eq!(same_text(s, part), s == part);
        }
    }
}

#[test]
fn lists_hold_texts() {
    let list = vec!["a".to_string(), "b".to_string()];
    assert!(among(&list, "b"));
    assert!(!among(&list, "c"));
}
