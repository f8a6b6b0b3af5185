use fingermouse::query::{parse, parse_user_host, QueryError};

fn to_line(query: &str) -> Vec<u8> {
    format!("{query}\r\n").into_bytes()
}

#[test]
fn successful_parse() {
    let cases = [
        ("alice", false, "alice", None),
        ("alice@remote", false, "alice", Some("remote")),
        ("/W alice", true, "alice", None),
        ("/W    alice@example.com", true, "alice", Some("example.com")),
        (
            "/W alice@example.com@other",
            true,
            "alice",
            Some("example.com"),
        ),
        ("/w alice", true, "alice", None),
        ("/w alice@example.com", true, "alice", Some("example.com")),
    ];
    for (input, verbose, expected_user, expected_host) in cases {
        let line = to_line(input);
        let query = match parse(&line) {
            Ok(value) => value,
            Err(err) => panic!("expected success, got {}", err.message()),
        };
        assert_eq!(query.verbose, verbose);
        assert_eq!(query.username.as_str(), expected_user);
        let host = query.host.as_ref().map(|host| host.as_str());
        assert_eq!(host, expected_host);
    }
}

#[test]
fn invalid_queries() {
    for input in [
        "/W alice more",
        "/x alice",
        "",
        "AL ice",
        "/walice",
        "/Walice@example.com",
    ] {
        let line = to_line(input);
        assert!(parse(&line).is_err(), "input {input:?}");
    }
}

#[test]
fn each_query_error_has_its_cause() {
    assert_eq!(parse(b"alice").err(), Some(QueryError::MissingCrlf));
    assert_eq!(parse(b"alice\n").err(), Some(QueryError::MissingCrlf));
    assert_eq!(parse(b"").err(), Some(QueryError::MissingCrlf));
    assert_eq!(
        parse(b"al\x07ice\r\n").err(),
        Some(QueryError::ControlCharacter)
    );
    assert_eq!(
        parse(b"al\tice\r\n").err(),
        Some(QueryError::ControlCharacter)
    );
    assert_eq!(parse(b"\r\n").err(), Some(QueryError::MissingUsername));
    assert_eq!(parse(b"/W\r\n").err(), Some(QueryError::MissingUsername));
    assert_eq!(
        parse(b"@host\r\n").err(),
        Some(QueryError::MissingUsername)
    );
    assert_eq!(
        parse(b"/x alice\r\n").err(),
        Some(QueryError::UnknownOption)
    );
    assert_eq!(
        parse(b"/W /W\r\n").err(),
        Some(QueryError::UnknownOption)
    );
    assert_eq!(
        parse(b"/W alice more\r\n").err(),
        Some(QueryError::TrailingInput)
    );
    assert_eq!(
        parse(b"bad.name\r\n").err(),
        Some(QueryError::InvalidUsername(
            "username may only contain ASCII letters, digits, hyphen, or underscore".to_owned()
        ))
    );
    assert_eq!(
        parse(b"alice@-bad\r\n").err(),
        Some(QueryError::InvalidHostname(
            "hostname labels must not begin or end with a hyphen".to_owned()
        ))
    );
    assert_eq!(
        parse(b"al\xffice\r\n").err(),
        Some(QueryError::InvalidEncoding)
    );
}

#[test]
fn query_messages() {
    let cases = [
        (QueryError::MissingCrlf, "request must terminate with CRLF"),
        (
            QueryError::ControlCharacter,
            "query may not contain embedded control characters",
        ),
        (QueryError::MissingUsername, "query must specify a username"),
        (QueryError::UnknownOption, "unrecognised option"),
        (QueryError::TrailingInput, "unexpected trailing input"),
        (
            QueryError::InvalidUsername("x".to_owned()),
            "invalid username: x",
        ),
        (
            QueryError::InvalidHostname("y".to_owned()),
            "invalid hostname: y",
        ),
        (QueryError::InvalidEncoding, "query contains invalid UTF-8"),
    ];
    for (err, expected) in cases {
        assert_eq!(err.message(), expected);
    }
}

#[test]
fn line_breaks_inside_a_query_are_white_space() {
    let query = parse(b"/W\nalice\r\n").unwrap();
    assert!(query.verbose);
    assert_eq!(query.username.as_str(), "alice");
}

#[test]
fn empty_host_is_no_host() {
    let query = parse(b"alice@\r\n").unwrap();
    assert!(query.host.is_none());
    assert!(parse(b"alice@@other\r\n").unwrap().host.is_none());
}

#[test]
fn case_and_space_do_not_matter() {
    let plain = parse(b"/W alice@example.com\r\n").unwrap();
    for line in [
        "/w ALICE@EXAMPLE.com\r\n",
        "   /W alice@example.com\r\n",
        "/W \u{3000} alice@Example.Com  \r\n",
    ] {
        let other = parse(line.as_bytes()).unwrap();
        assert_eq!(other, plain);
        assert_eq!(other.clone(), plain);
    }
}

#[test]
fn written_queries_read_back() {
    for text in ["bob_2", "/W bob_2", "bob_2@a-b.c", "/W bob_2@a-b.c"] {
        let query = parse(&to_line(text)).unwrap();
        let mut written = String::new();
        if query.verbose {
            written.push_str("/W ");
        }
        written.push_str(query.username.as_str());
        if let Some(host) = &query.host {
            written.push('@');
            written.push_str(host.as_str());
        }
        assert_eq!(written, text);
    }
}

#[test]
fn queries_as_text() {
    assert_eq!(parse(b"Alice\r\n").unwrap().to_text(), "alice@<default>");
    let query = parse(b"alice@Remote\r\n").unwrap();
    assert_eq!(query.to_text(), "alice@remote");
    assert_eq!(query.host_display(), "remote");
}

#[test]
fn user_is_judged_before_the_host() {
    assert_eq!(
        parse(b"@-bad\r\n").err(),
        Some(QueryError::MissingUsername)
    );
    assert!(matches!(
        parse(b"bad.name@-bad\r\n").err(),
        Some(QueryError::InvalidUsername(_))
    ));
    assert!(matches!(
        parse(b"alice@-bad\r\n").err(),
        Some(QueryError::InvalidHostname(_))
    ));
}

#[test]
fn case_never_matters() {
    for line in [
        &b"/w Alice@Example.com\r\n"[..],
        b"bob\r\n",
        b"/x Bob\r\n",
        b"Bad.Name\r\n",
        b"alice@-Bad\r\n",
        b"Al\xffice\r\n",
        b"\xc3\xa9A\r\n",
        b"Alice",
    ] {
        assert_eq!(parse(&line.to_ascii_lowercase()), parse(line));
        assert_eq!(parse(&line.to_ascii_uppercase()), parse(line));
    }
}

#[test]
fn words_of_user_and_host() {
    let plain = parse_user_host("alice@example.com").unwrap();
    assert_eq!(plain.0.as_str(), "alice");
    assert_eq!(plain.1.as_ref().map(|host| host.as_str()), Some("example.com"));
    assert_eq!(parse_user_host("alice@example.com@x@y").unwrap(), plain);
    let alone = parse_user_host("alice").unwrap();
    assert!(alone.1.is_none());
    assert_eq!(parse_user_host("alice@").unwrap(), alone);
    assert_eq!(
        parse_user_host("@example.com"),
        Err(QueryError::MissingUsername)
    );
    assert!(matches!(
        parse_user_host("bad.name@example.com"),
        Err(QueryError::InvalidUsername(_))
    ));
    assert!(matches!(
        parse_user_host("alice@-bad"),
        Err(QueryError::InvalidHostname(_))
    ));
}
