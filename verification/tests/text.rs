use icon_gen::text::{
    char_is_space, chars_of, find_text, lower_chars, matches_at, push_chars, rfind_text,
    same_chars, same_text, string_of, trim_chars, trim_end_chars, without_space_chars,
};

fn pieces() -> Vec<&'static str> {
    vec![
        "", "a", "aa", "aba", "<svg", "</svg>", "abcabcabd", "<<rect", " x ", "\u{3000}x\u{a0}",
        "\u{e9}<rect>\u{1f600}>", "aaab", "\t\n", "A b C", "Stra\u{df}e \u{c4}",
    ]
}

#[test]
fn whitespace_agrees_with_the_standard_library() {
    for code in 0..=0x10ffffu32 {
        if let Some(c) = char::from_u32(code) {
            assert_eq!(char_is_space(c), c.is_whitespace(), "{code:x}");
        }
    }
}

#[test]
fn searching_agrees_with_the_standard_library() {
    for text in pieces() {
        for pattern in pieces() {
            let t = chars_of(text);
            let p = chars_of(pattern);
            let first = text.find(pattern).map(|at| text[..at].chars().count());
            let last = text.rfind(pattern).map(|at| text[..at].chars().count());
            assert_eq!(find_text(&t, &p), first, "{text:?} {pattern:?}");
            assert_eq!(rfind_text(&t, &p), last, "{text:?} {pattern:?}");
        }
    }
}

#[test]
fn trimming_agrees_with_the_standard_library() {
    for text in pieces() {
        let t = chars_of(text);
        assert_eq!(string_of(trim_chars(&t)), text.trim());
        assert_eq!(string_of(trim_end_chars(&t)), text.trim_end());
    }
}

#[test]
fn changing_case_and_dropping_spaces_agree_with_the_standard_library() {
    for text in pieces() {
        let t = chars_of(text);
        assert_eq!(string_of(&lower_chars(&t)), text.to_ascii_lowercase());
        assert_eq!(string_of(&without_space_chars(&t)), text.replace(' ', ""));
    }
}

#[test]
fn every_ascii_letter_is_lowered() {
    let all: String = (0u8..128).map(|b| b as char).collect();
    let lowered = lower_chars(&chars_of(&all));
    assert_eq!(string_of(&lowered), all.to_ascii_lowercase());
}

#[test]
fn equal_texts_are_told_from_different_ones() {
    for a in pieces() {
        for b in pieces() {
            assert_eq!(same_text(a, b), a == b);
            assert_eq!(same_chars(&chars_of(a), &chars_of(b)), a == b);
        }
    }
}

#[test]
fn a_pattern_is_tested_at_any_place() {
    let text = chars_of("abcab");
    let pattern = chars_of("ab");
    let places: Vec<usize> = (0..8).filter(|&at| matches_at(&text, &pattern, at)).collect();
    assert_eq!(places, vec![0, 3]);
    assert!(!matches_at(&text, &pattern, usize::MAX));
}

#[test]
fn characters_are_appended_in_order() {
    let mut out = String::from("x");
    push_chars(&mut out, &chars_of("\u{e9}\u{1f600}z"));
    assert_eq!(out, "x\u{e9}\u{1f600}z");
}
