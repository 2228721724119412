use ai_memory_panel::number::{decimal_text, parse_signed, parse_size, signed_text};
use ai_memory_panel::order::{distinct_sorted, text_less};
use ai_memory_panel::text::{
    begins_with, finishes_with, join, replace_all, space, split, split_words, trim,
};
use ai_memory_panel::utf8::{byte_len, str_eq, truncate_at_char_boundary};

#[test]
fn space_is_what_unicode_says() {
    for code in 0..=0x10FFFFu32 {
        if let Some(c) = char::from_u32(code) {
            assert_eq!(space(c), c.is_whitespace(), "{code:x}");
        }
    }
}

#[test]
fn trimming_and_splitting_follow_the_standard_library() {
    for s in ["", " ", "a", "  a b\u{a0}c\t", "\u{3000}x\u{2003}", "á  é\n\nz", "///", "a/b", "/a/"] {
        assert_eq!(trim(s), s.trim());
        let words: Vec<String> = s.split_whitespace().map(|w| w.to_string()).collect();
        assert_eq!(split_words(s), words);
        let parts: Vec<String> = s.split('/').map(|w| w.to_string()).collect();
        assert_eq!(split(s, '/'), parts);
        assert_eq!(join(&parts, "/"), s);
    }
}

#[test]
fn replacing_follows_the_standard_library() {
    for (s, pat, rep) in [
        ("aaaa", "aa", "b"),
        ("aaa", "aa", "aa"),
        ("xáyáz", "á", "__"),
        ("", "a", "b"),
        ("abc", "d", "e"),
        ("ababab", "abab", ""),
    ] {
        assert_eq!(replace_all(s, pat, rep), s.replace(pat, rep));
        assert_eq!(begins_with(s, pat), s.starts_with(pat));
        assert_eq!(finishes_with(s, pat), s.ends_with(pat));
    }
}

#[test]
fn truncation_never_splits_a_character() {
    let s = "aá🧭z";
    assert_eq!(byte_len(s), 8);
    for (max, expected) in [
        (0, ""),
        (1, "a"),
        (2, "a"),
        (3, "aá"),
        (6, "aá"),
        (7, "aá🧭"),
        (8, "aá🧭z"),
        (100, "aá🧭z"),
    ] {
        assert_eq!(truncate_at_char_boundary(s, max), expected);
    }
}

#[test]
fn numbers_are_written_and_read_as_by_the_standard_library() {
    for n in [0u64, 1, 9, 10, 99, 100, 12345, u64::MAX] {
        assert_eq!(decimal_text(n), n.to_string());
    }
    for n in [0i64, 1, -1, 42, i64::MAX, i64::MIN] {
        assert_eq!(signed_text(n), n.to_string());
    }
    for s in [
        "", "+", "-", "0", "-0", "+7", "--7", "7", "30", " 30", "3x", "٣",
        "9223372036854775807", "9223372036854775808", "-9223372036854775808",
        "-9223372036854775809", "18446744073709551615", "18446744073709551616", "000012",
    ] {
        assert_eq!(parse_signed(s), s.parse::<i64>().ok(), "{s}");
        assert_eq!(parse_size(s), s.parse::<usize>().ok(), "{s}");
    }
}

#[test]
fn text_order_is_that_of_the_standard_library() {
    let texts = ["", "a", "aa", "ab", "b", "B", "á", "🧭", "\u{ffff}", "-1", "10"];
    for a in texts {
        for b in texts {
            assert_eq!(text_less(a, b), a < b, "{a} {b}");
            assert_eq!(str_eq(a, b), a == b);
        }
    }
    let mut items: Vec<String> = Vec::new();
    for t in ["b", "a", "á", "b", "", "a"] {
        items.push(t.to_string());
    }
    assert_eq!(distinct_sorted(&items), vec!["", "a", "b", "á"]);
}
