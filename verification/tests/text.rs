use fingermouse::text::{
    ascii_lower_char, ascii_upper_char, is_white_space, joined, lines_of, lower_str, split_str,
    to_decimal, trim_back_str, trim_str, words_of, CharClass,
};

const SAMPLES: [&str; 14] = [
    "",
    " ",
    "a",
    "  a b\t c  ",
    "a\r\nb\nc",
    "a\n\n",
    "\r\n",
    "a\r",
    "\r\r\n",
    "/x/",
    "//",
    "x/y//z",
    "\u{3000}caf\u{e9}\u{a0}",
    "\u{1f600}\n\u{85}",
];

#[test]
fn white_space_is_the_unicode_property() {
    for c in '\0'..=char::MAX {
        assert_eq!(is_white_space(c), c.is_whitespace(), "{c:?}");
    }
}

#[test]
fn letters_change_case_within_ascii() {
    for c in '\0'..=char::MAX {
        assert_eq!(ascii_lower_char(c), c.to_ascii_lowercase());
        assert_eq!(ascii_upper_char(c), c.to_ascii_uppercase());
    }
}

#[test]
fn numbers_in_decimal() {
    for n in [0, 7, 9, 10, 99, 100, 253, 4096, usize::MAX] {
        assert_eq!(to_decimal(n), n.to_string());
    }
}

#[test]
fn trimming_agrees_with_std() {
    for s in SAMPLES {
        assert_eq!(trim_str(s, CharClass::White), s.trim());
        assert_eq!(trim_str(s, CharClass::Slash), s.trim_matches('/'));
        assert_eq!(trim_back_str(s, CharClass::White), s.trim_end());
        assert_eq!(
            trim_back_str(s, CharClass::LineEnd),
            s.trim_end_matches(&['\r', '\n'][..])
        );
    }
}

#[test]
fn cutting_agrees_with_std() {
    for s in SAMPLES {
        assert_eq!(lines_of(s), s.lines().collect::<Vec<_>>());
        assert_eq!(words_of(s), s.split_whitespace().collect::<Vec<_>>());
        for sep in ['/', '@', 'a', '\n'] {
            assert_eq!(split_str(s, sep), s.split(sep).collect::<Vec<_>>());
        }
    }
}

#[test]
fn lower_case_and_joining() {
    assert_eq!(lower_str("\u{c9}ABC-z"), "\u{c9}abc-z");
    assert_eq!(joined("a\u{e9}", "b"), "a\u{e9}b");
}
