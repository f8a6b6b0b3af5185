use fingermouse::identity::{HostName, IdentityError, Username};

#[test]
fn username_validation() {
    let cases = [
        ("alice", Some("alice")),
        ("ALICE", Some("alice")),
        ("bob-1", Some("bob-1")),
        ("  charlie_2  ", Some("charlie_2")),
        ("", None),
        ("averylongusernamebeyondlimittoolong", None),
        ("bad.name", None),
        ("bad name", None),
    ];
    for (input, expected) in cases {
        let outcome = Username::parse(input);
        match expected {
            Some(value) => match outcome {
                Ok(username) => assert_eq!(username.as_str(), value),
                Err(err) => panic!("expected success, got {}", err.message()),
            },
            None => assert!(outcome.is_err(), "input {input:?}"),
        }
    }
}

#[test]
fn hostname_validation() {
    let cases = [
        ("example.com", Some("example.com")),
        ("Example.COM", Some("example.com")),
        ("a-b.c-d", Some("a-b.c-d")),
        ("-bad.com", None),
        ("bad-.com", None),
        ("bad..com", None),
        ("bad@com", None),
    ];
    for (input, expected) in cases {
        let outcome = HostName::parse(input);
        match expected {
            Some(value) => match outcome {
                Ok(hostname) => assert_eq!(hostname.as_str(), value),
                Err(err) => panic!("expected success, got {}", err.message()),
            },
            None => assert!(outcome.is_err(), "input {input:?}"),
        }
    }
}

#[test]
fn longest_usernames() {
    let longest = "a".repeat(32);
    assert!(Username::parse(&longest).is_ok());
    assert_eq!(
        Username::parse(&"a".repeat(33)).err(),
        Some(IdentityError::UsernameLength { max: 32 })
    );
    assert_eq!(
        Username::parse(" \t ").err(),
        Some(IdentityError::UsernameLength { max: 32 })
    );
    assert_eq!(Username::MAX_LEN, 32);
}

#[test]
fn username_length_counts_bytes() {
    let wide = "\u{e9}".repeat(17);
    assert_eq!(
        Username::parse(&wide).err(),
        Some(IdentityError::UsernameLength { max: 32 })
    );
    assert_eq!(
        Username::parse("\u{e9}").err(),
        Some(IdentityError::UsernameCharacters)
    );
}

#[test]
fn hostname_errors() {
    assert_eq!(
        HostName::parse("bad..com").err(),
        Some(IdentityError::HostEmptyLabel)
    );
    assert_eq!(
        HostName::parse("-bad.com").err(),
        Some(IdentityError::HostLabelHyphen)
    );
    assert_eq!(
        HostName::parse("bad-.com").err(),
        Some(IdentityError::HostLabelHyphen)
    );
    assert_eq!(
        HostName::parse("bad_host").err(),
        Some(IdentityError::HostCharacters)
    );
    assert_eq!(
        HostName::parse("").err(),
        Some(IdentityError::HostLength { max: 253 })
    );
    assert!(HostName::parse(&"a".repeat(253)).is_ok());
    assert_eq!(
        HostName::parse(&"a".repeat(254)).err(),
        Some(IdentityError::HostLength { max: 253 })
    );
    assert_eq!(HostName::MAX_LEN, 253);
}

#[test]
fn first_bad_label_decides() {
    assert_eq!(
        HostName::parse("ok.-x._").err(),
        Some(IdentityError::HostLabelHyphen)
    );
    assert_eq!(
        HostName::parse("ok._.-x").err(),
        Some(IdentityError::HostCharacters)
    );
    assert_eq!(
        HostName::parse("example.com.").err(),
        Some(IdentityError::HostEmptyLabel)
    );
}

#[test]
fn identity_messages() {
    let cases = [
        (
            IdentityError::UsernameLength { max: 32 },
            "username must be between 1 and 32 characters",
        ),
        (
            IdentityError::UsernameCharacters,
            "username may only contain ASCII letters, digits, hyphen, or underscore",
        ),
        (
            IdentityError::HostLength { max: 253 },
            "hostname must be between 1 and 253 characters",
        ),
        (
            IdentityError::HostCharacters,
            "hostname contains invalid characters",
        ),
        (
            IdentityError::HostLabelHyphen,
            "hostname labels must not begin or end with a hyphen",
        ),
        (IdentityError::HostEmptyLabel, "hostname has empty label"),
    ];
    for (err, expected) in cases {
        assert_eq!(err.message(), expected);
    }
}

#[test]
fn accepted_names_read_as_themselves() {
    for input in ["Alice", " bob-1 ", "C_3"] {
        let user = Username::parse(input).unwrap();
        assert_eq!(Username::parse(user.as_str()).unwrap(), user);
        assert_eq!(user.clone(), user);
    }
    for input in ["Example.COM", " localhost", "a-b.c"] {
        let host = HostName::parse(input).unwrap();
        assert_eq!(HostName::parse(host.as_str()).unwrap(), host);
        assert_eq!(host.clone(), host);
    }
    assert!(Username::parse("a").unwrap() != Username::parse("b").unwrap());
    assert!(HostName::parse("a").unwrap() != HostName::parse("b").unwrap());
}
