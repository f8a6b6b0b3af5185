use fingermouse::identity::{IdentityError, Username};
use fingermouse::user::{normalise_key, sanitise_line, FingerProfile, ProfileError};

fn parse_username(input: &str) -> Username {
    match Username::parse(input) {
        Ok(username) => username,
        Err(err) => panic!("failed to parse username '{input}': {}", err.message()),
    }
}

fn profile(user: &str, body: &str) -> FingerProfile {
    match FingerProfile::parse(parse_username(user), body.as_bytes()) {
        Ok(profile) => profile,
        Err(err) => panic!("expected a profile, got {}", err.message()),
    }
}

fn profile_error(body: &[u8]) -> ProfileError {
    match FingerProfile::parse(parse_username("alice"), body) {
        Ok(_) => panic!("expected profile parsing to fail"),
        Err(err) => err,
    }
}

fn text(profile: &FingerProfile, include_plan: bool, plan: Option<&str>) -> String {
    String::from_utf8(profile.render(include_plan, plan).as_bytes()).unwrap()
}

fn field(key: &str, value: Option<&str>) -> (String, Option<String>) {
    (key.to_owned(), value.map(str::to_owned))
}

#[test]
fn parses_profile() {
    let body = r#"
            username = "alice"
            full_name = "Alice Smith"
            email = "alice@example.com"
        "#;
    let text = text(&profile("alice", body), false, None);
    assert!(text.contains("User: alice"));
    assert!(text.contains("Full name: Alice Smith"));
    assert!(text.contains("Email: alice@example.com"));
}

#[test]
fn rejects_invalid_profile() {
    assert!(matches!(
        profile_error(b"username = \"bob\"\nfull_name = \"Alice Smith\"\n"),
        ProfileError::UsernameMismatch
    ));
    assert!(matches!(
        profile_error(b"username = \"bad name\"\nfull_name = \"Alice Smith\"\n"),
        ProfileError::UsernameInvalid(_)
    ));
    assert!(matches!(
        profile_error(b"full_name = \"Alice Smith\"\n"),
        ProfileError::MissingUsername
    ));
    assert!(matches!(
        profile_error(b"username = \"alice\"\nage = 42\n"),
        ProfileError::NonStringValue { key } if key == "age"
    ));
    assert!(matches!(
        profile_error(b"username = \"alice\"\nfull_name ="),
        ProfileError::Toml(_)
    ));
}

#[test]
fn rejects_profiles_that_are_not_text_or_tables() {
    assert!(matches!(
        profile_error(b"username = \"\xff\""),
        ProfileError::InvalidEncoding(_)
    ));
    assert!(matches!(
        profile_error(b"username = 1\n"),
        ProfileError::NonStringValue { key } if key == "username"
    ));
    assert!(matches!(
        FingerProfile::from_table(parse_username("alice"), None),
        Err(ProfileError::NotATable)
    ));
}

#[test]
fn first_value_that_is_no_string_is_named() {
    let table = vec![
        field("username", Some("alice")),
        field("b", None),
        field("a", None),
    ];
    assert!(matches!(
        FingerProfile::from_table(parse_username("alice"), Some(table)),
        Err(ProfileError::NonStringValue { key }) if key == "b"
    ));
}

#[test]
fn renders_plan_variants() {
    let body = r#"
            username = "alice"
        "#;
    let profile = profile("alice", body);
    for (plan, expected) in [(Some(""), "(empty plan)"), (None, "(no plan)")] {
        assert!(text(&profile, true, plan).contains(expected));
    }
}

#[test]
fn whole_answer_with_plan() {
    let table = vec![
        field("full_name", Some("Alice\u{7} Smith\u{e9}")),
        field("username", Some(" ALICE ")),
        field("_home_dir", Some("/home/alice")),
    ];
    let profile = FingerProfile::from_table(parse_username("alice"), Some(table)).unwrap();
    assert_eq!(
        text(&profile, true, Some("first\u{1b}[31m\r\n\nlast")),
        "User: alice\r\nFull name: Alice\u{7} Smith\u{e9}\r\n_home dir: /home/alice\r\n\r\nPlan:\r\n\
         first[31m\r\n\r\nlast\r\n\r\nPowered by fingermouse\r\n"
    );
    assert_eq!(
        text(&profile, false, Some("first")),
        "User: alice\r\nFull name: Alice\u{7} Smith\u{e9}\r\n_home dir: /home/alice\r\n\r\n\
         Powered by fingermouse\r\n"
    );
}

#[test]
fn plan_leaves_no_trace_unless_requested() {
    let profile = profile("alice", "username = \"alice\"\nproject = \"x\"\n");
    assert_eq!(
        text(&profile, false, Some("secret")),
        text(&profile, false, None)
    );
    assert!(!text(&profile, false, Some("secret")).contains("secret"));
}

#[test]
fn blank_plans_count_as_empty() {
    let profile = profile("alice", "username = \"alice\"\n");
    for blank in [" ", "\n\n", "\t\r\n", "\u{3000}"] {
        assert!(text(&profile, true, Some(blank)).contains("\r\nPlan:\r\n(empty plan)\r\n"));
    }
}

#[test]
fn repeated_fields_keep_their_first_place() {
    let table = vec![
        field("a", Some("1")),
        field("username", Some("alice")),
        field("b", Some("2")),
        field("a", Some("3")),
    ];
    let profile = FingerProfile::from_table(parse_username("alice"), Some(table)).unwrap();
    assert_eq!(
        profile.render(false, None).to_text(),
        "User: alice\nA: 3\nB: 2\n\nPowered by fingermouse\n"
    );
}

#[test]
fn copies_render_alike() {
    let profile = profile("alice", "username = \"alice\"\nproject = \"x\"\n");
    let body = profile.render(true, Some("plan"));
    assert_eq!(body.clone().as_bytes(), body.as_bytes());
    assert_eq!(text(&profile.clone(), false, None), text(&profile, false, None));
    assert_eq!(
        body.to_text(),
        "User: alice\nProject: x\n\nPlan:\nplan\n\nPowered by fingermouse\n"
    );
}

#[test]
fn keys_are_made_readable() {
    assert_eq!(normalise_key("full_name"), "Full name");
    assert_eq!(normalise_key("_x_"), "_x ");
    assert_eq!(normalise_key(""), "");
    assert_eq!(normalise_key("\u{e9}t\u{e9}"), "\u{e9}t\u{e9}");
}

#[test]
fn only_printable_ascii_is_kept() {
    assert_eq!(sanitise_line("a\u{0}b\tc~ \u{7f}\u{e9}\u{1f600}"), "abc~ ");
    let clean = sanitise_line("x\ny");
    assert_eq!(sanitise_line(&clean), clean);
    let printable: String = (' '..='~').collect();
    assert_eq!(sanitise_line(&printable), printable);
}

#[test]
fn profile_messages() {
    let cases = [
        (
            ProfileError::NotATable,
            "profile data must be a table of key/value pairs",
        ),
        (
            ProfileError::NonStringValue {
                key: "age".to_owned(),
            },
            "profile data must only contain string values (key: age)",
        ),
        (
            ProfileError::UsernameMismatch,
            "profile declares mismatched username",
        ),
        (
            ProfileError::UsernameInvalid(IdentityError::UsernameCharacters),
            "profile declares invalid username: username may only contain ASCII letters, \
             digits, hyphen, or underscore",
        ),
        (
            ProfileError::MissingUsername,
            "profile must declare a username field",
        ),
    ];
    for (err, expected) in cases {
        assert_eq!(err.message(), expected);
    }
    assert_eq!(
        profile_error(b"\xff").message(),
        "profile data must be UTF-8 encoded"
    );
    let reason = toml::from_str::<toml::Value>("username =").unwrap_err();
    assert_eq!(
        profile_error(b"username =").message(),
        format!("invalid profile data: {reason}")
    );
}

#[test]
fn values_are_shown_verbatim() {
    let profile = profile("alice", "username = \"alice\"\nfull_name = \"Zo\u{eb}\"\n");
    assert!(text(&profile, false, None).contains("\r\nFull name: Zo\u{eb}\r\n"));
}
