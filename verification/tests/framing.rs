use fingermouse::framing::{trim_line_endings, CrlfBuffer};

fn framed(input: &str) -> Vec<u8> {
    let mut buf = CrlfBuffer::default();
    buf.push_line(input);
    buf.into_bytes()
}

#[test]
fn push_line_normalises_endings() {
    let cases: [(&str, &[u8]); 5] = [
        ("", b"\r\n"),
        ("status", b"status\r\n"),
        ("status\r\n", b"status\r\n"),
        ("status\r", b"status\r\n"),
        ("status\n", b"status\r\n"),
    ];
    for (input, expected) in cases {
        assert_eq!(framed(input), expected, "input {input:?}");
    }
}

#[test]
fn lines_follow_one_another() {
    let mut buf = CrlfBuffer::with_capacity(64);
    buf.push_line("one");
    buf.push_line("");
    buf.push_line("two\n\r\n");
    assert_eq!(buf.into_bytes(), b"one\r\n\r\ntwo\r\n");
}

#[test]
fn inner_endings_are_kept() {
    assert_eq!(framed("a\r\nb\n\n"), b"a\r\nb\r\n");
    assert_eq!(framed("\r\n"), b"\r\n");
}

#[test]
fn text_beyond_ascii_is_sent_as_utf8() {
    assert_eq!(framed("h\u{e9}\n"), "h\u{e9}\r\n".as_bytes());
}

#[test]
fn trimming_endings_twice_changes_nothing() {
    for line in ["", "a", "a\r\n", "\n\n\r", "a \r\n", "\ra\n"] {
        let once = trim_line_endings(line);
        assert_eq!(trim_line_endings(once), once);
        assert_eq!(once, line.trim_end_matches(&['\r', '\n'][..]));
    }
}
