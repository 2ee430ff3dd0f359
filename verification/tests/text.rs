//! Strings.

use pulse_ingestor::text::{
    chars_of, head_line, is_blank, push_decimal, push_signed_decimal, starts_with, string_of, trim,
    trim_trailing, truncate, whitespace,
};

#[test]
fn white_space_is_what_the_standard_library_takes_it_for() {
    for c in '\0'..=char::MAX {
        assert_eq!(whitespace(c), c.is_whitespace(), "{c:?}");
    }
}

#[test]
fn a_text_is_trimmed_at_both_ends() {
    for text in ["", " ", "a", " a b ", "\u{3000}x\u{a0}", "\t\r\n", "é "] {
        assert_eq!(trim(text), text.trim());
        assert_eq!(is_blank(text), text.trim().is_empty());
    }
}

#[test]
fn numbers_are_written_in_decimal() {
    for n in [0, 7, 10, 99, 100, u64::MAX] {
        let mut out = String::from("n=");
        push_decimal(&mut out, n);
        assert_eq!(out, format!("n={n}"));
    }
    for i in [0, -1, 42, i32::MIN, i32::MAX] {
        let mut out = String::new();
        push_signed_decimal(&mut out, i);
        assert_eq!(out, i.to_string());
    }
}

#[test]
fn prefixes_suffixes_and_lines() {
    assert!(starts_with("http://x", "http://"));
    assert!(starts_with("a", ""));
    assert!(!starts_with("http:/", "http://"));
    assert!(!starts_with("xhttp://", "http://"));
    assert_eq!(trim_trailing("a//", '/'), "a");
    assert_eq!(trim_trailing("/a", '/'), "/a");
    assert_eq!(trim_trailing("//", '/'), "");
    assert_eq!(head_line("one\ntwo"), "one");
    assert_eq!(head_line("one"), "one");
    assert_eq!(head_line("\n"), "");
    assert_eq!(string_of(&chars_of("häß€😀")), "häß€😀");
}

#[test]
fn a_cut_never_splits_a_character() {
    let text = "aé€😀";
    for max in 0..=text.len() + 1 {
        let mut cut = max.min(text.len());
        while !text.is_char_boundary(cut) {
            cut -= 1;
        }
        let expected = if text.len() <= max {
            text.to_owned()
        } else {
            format!("{}…", &text[..cut])
        };
        assert_eq!(truncate(text, max), expected, "at {max}");
    }
}
