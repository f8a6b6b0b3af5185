use fingermouse::clock::{Span, Timestamp};
use fingermouse::config::{CliOptions, ServerConfig};
use fingermouse::identity::Username;
use fingermouse::query::FingerQuery;
use fingermouse::rate_limit::{ClientAddr, RateLimitError, RateLimiter};
use fingermouse::server::{
    render_message, ConnectionHandler, ReadError, Step, GENERIC_ERROR, HOST_MISMATCH,
    RATE_LIMIT_MESSAGE, USER_MISSING,
};
use fingermouse::storage::{
    FetchOutcome, LoadStep, ObjectStoreUserStore, RepositoryError, UserRecord,
};
use fingermouse::user::{FingerProfile, ProfileError};
use futures::executor::block_on;
use object_store::memory::InMemory;
use object_store::path::Path;
use object_store::{ObjectStore, PutPayload};

fn base_config() -> ServerConfig {
    ServerConfig::from_cli(CliOptions {
        default_host: "localhost".to_owned(),
        rate_limit: 10,
        rate_window_secs: 60,
        rate_capacity: 8192,
        request_timeout_ms: 5000,
        max_request_bytes: 512,
        ..CliOptions::default()
    })
    .unwrap()
}

fn user(name: &str) -> Username {
    match Username::parse(name) {
        Ok(user) => user,
        Err(err) => panic!("no username: {}", err.message()),
    }
}

fn build_profile(username: &str) -> FingerProfile {
    let payload = format!(
        r#"
                username = "{username}"
                full_name = "Test User"
            "#
    );
    FingerProfile::parse(user(username), payload.as_bytes()).unwrap()
}

#[test]
fn build_response_scenarios() {
    let cases = [
        ("alice", true, Some("Plan line"), "Test User", Some("Plan line")),
        ("bob", false, None, USER_MISSING, None),
    ];
    for (username, verbose, plan, expected_content, expected_plan) in cases {
        let config = base_config();
        let handler = ConnectionHandler { config: &config };
        let query = FingerQuery {
            username: user(username),
            host: None,
            verbose,
        };
        let Step::Load {
            username: wanted,
            include_plan,
        } = handler.respond_to_query(query)
        else {
            panic!("the default host is served");
        };
        assert_eq!(wanted.as_str(), username);
        assert_eq!(include_plan, verbose);
        let outcome = match username {
            "alice" => Ok(UserRecord {
                profile: build_profile("alice"),
                plan: plan.map(str::to_owned),
            }),
            _ => Err(RepositoryError::NotFound),
        };
        let response =
            String::from_utf8(handler.build_response(include_plan, outcome)).unwrap();
        assert!(
            response.contains(expected_content),
            "expected response to include '{expected_content}', got '{response}'"
        );
        if let Some(plan_fragment) = expected_plan {
            assert!(
                response.contains(plan_fragment),
                "expected response to include plan snippet '{plan_fragment}'"
            );
        }
    }
}

#[test]
fn failed_lookups_are_answered_alike() {
    let config = base_config();
    let handler = ConnectionHandler { config: &config };
    let refused = b"fingermouse: request refused\r\n";
    for err in [
        RepositoryError::InvalidPlanEncoding,
        RepositoryError::Parse(ProfileError::UsernameMismatch),
        RepositoryError::Parse(ProfileError::NotATable),
        RepositoryError::Storage {
            source: "disk gone".to_owned(),
        },
    ] {
        assert_eq!(handler.build_response(true, Err(err)), refused);
    }
    assert_eq!(
        handler.build_response(false, Err(RepositoryError::NotFound)),
        b"fingermouse: no matching record\r\n"
    );
}

#[test]
fn limited_clients_are_told_to_slow_down() {
    let config = base_config();
    let handler = ConnectionHandler { config: &config };
    let mut limiter = RateLimiter::new(config.rate);
    let now = Timestamp {
        secs: 1_700_000_000,
        nanos: 0,
    };
    for _ in 0..10 {
        let decision = limiter.check_at(now, ClientAddr::V4(1));
        assert!(matches!(
            handler.enforce_rate_limit(decision),
            Step::Read { limit: 513 }
        ));
    }
    let decision = limiter.check_at(now, ClientAddr::V4(1));
    assert!(matches!(
        decision,
        Err(RateLimitError::LimitExceeded { retry_in }) if retry_in == Span::from_secs(60)
    ));
    assert!(matches!(
        handler.enforce_rate_limit(decision),
        Step::Reply(payload) if payload == b"fingermouse: slow down\r\n"
    ));
}

#[test]
fn requests_are_measured_before_they_are_read() {
    let config = base_config();
    let handler = ConnectionHandler { config: &config };
    assert!(matches!(
        handler.read_query(b""),
        Step::Close(ReadError::ConnectionClosed)
    ));
    assert!(matches!(
        handler.read_query(&[b'a'; 513]),
        Step::Close(ReadError::RequestTooLarge)
    ));
    let mut longest = vec![b' '; 505];
    longest.extend_from_slice(b"alice\r\n");
    assert_eq!(longest.len(), 512);
    assert!(matches!(handler.read_query(&longest), Step::Load { .. }));
    assert!(handler.read_request(&longest).is_ok());
    assert_eq!(ReadError::ConnectionClosed.message(), "connection closed");
    assert_eq!(ReadError::RequestTooLarge.message(), "request too large");
}

#[test]
fn malformed_queries_are_refused() {
    let config = base_config();
    let handler = ConnectionHandler { config: &config };
    for line in [&b"alice\n"[..], b"/x alice\r\n", b"\xff\r\n", b"\r\n"] {
        assert!(matches!(
            handler.read_query(line),
            Step::Reply(payload) if payload == render_message(GENERIC_ERROR)
        ));
        assert!(matches!(
            handler.parse_query(line),
            Step::Reply(payload) if payload == render_message(GENERIC_ERROR)
        ));
    }
}

#[test]
fn unserved_hosts_are_refused() {
    let config = base_config();
    let handler = ConnectionHandler { config: &config };
    assert!(matches!(
        handler.read_query(b"alice@elsewhere\r\n"),
        Step::Reply(payload) if payload == render_message(HOST_MISMATCH)
    ));
    assert!(matches!(
        handler.read_query(b"alice@LOCALHOST\r\n"),
        Step::Load { .. }
    ));
}

#[test]
fn messages_on_the_wire() {
    for message in [GENERIC_ERROR, HOST_MISMATCH, RATE_LIMIT_MESSAGE, USER_MISSING] {
        assert_eq!(
            render_message(message),
            format!("{message}\r\n").into_bytes()
        );
    }
}

const MAX_REQUEST_BYTES: usize = 128;

struct TestContext {
    config: ServerConfig,
    layout: ObjectStoreUserStore,
    store: InMemory,
}

fn setup_server() -> TestContext {
    let store = InMemory::new();
    let alice_profile = r#"
        username = "alice"
        full_name = "Alice Example"
        email = "alice@test.host"
    "#;
    let bob_profile = r#"
        username = "bob"
        full_name = "Bob Test"
    "#;
    let files: [(&str, &[u8]); 3] = [
        ("profiles/alice.toml", alice_profile.as_bytes()),
        ("plans/alice.plan", b"Alice's Plan\r\nLine 2\r\n"),
        ("profiles/bob.toml", bob_profile.as_bytes()),
    ];
    for (path, content) in files {
        let path = Path::parse(path).unwrap();
        block_on(store.put(&path, PutPayload::from(content.to_vec()))).unwrap();
    }
    let config = ServerConfig::from_cli(CliOptions {
        default_host: "test.host".to_owned(),
        allowed_hosts: Some("test.host,other.host".to_owned()),
        rate_limit: 1000,
        request_timeout_ms: 2000,
        max_request_bytes: MAX_REQUEST_BYTES,
        ..CliOptions::default()
    })
    .unwrap();
    let layout = ObjectStoreUserStore::new(&config.profile_prefix, &config.plan_prefix);
    TestContext {
        config,
        layout,
        store,
    }
}

fn fetch(store: &InMemory, path: &str) -> FetchOutcome {
    let path = Path::parse(path).unwrap();
    match block_on(store.get(&path)) {
        Ok(found) => FetchOutcome::Found(block_on(found.bytes()).unwrap().to_vec()),
        Err(object_store::Error::NotFound { .. }) => FetchOutcome::Missing,
        Err(err) => FetchOutcome::Failed(err.to_string()),
    }
}

/// Runs one connection on which the client sends `sent`.
fn exchange(ctx: &TestContext, sent: &[u8]) -> String {
    let handler = ConnectionHandler {
        config: &ctx.config,
    };
    let mut limiter = RateLimiter::new(ctx.config.rate);
    let mut step = handler.enforce_rate_limit(limiter.check(ClientAddr::V4(0x7f00_0001)));
    loop {
        step = match step {
            Step::Read { limit } => {
                let limit = usize::try_from(limit).unwrap();
                let end = sent
                    .iter()
                    .position(|byte| *byte == b'\n')
                    .map_or(sent.len(), |at| at + 1);
                handler.read_query(&sent[..end.min(limit)])
            }
            Step::Load {
                username,
                include_plan,
            } => {
                let mut load = ctx.layout.load_user(&username, include_plan);
                let outcome = loop {
                    match load {
                        LoadStep::Done(outcome) => break outcome,
                        LoadStep::Fetch { path, state } => {
                            load = ctx.layout.resume(state, fetch(&ctx.store, &path));
                        }
                    }
                };
                Step::Reply(handler.build_response(include_plan, outcome))
            }
            Step::Reply(payload) => return String::from_utf8(payload).unwrap(),
            Step::Close(_) => return String::new(),
        };
    }
}

fn query_server(ctx: &TestContext, query: &str) -> String {
    exchange(ctx, format!("{query}\r\n").as_bytes())
}

#[test]
fn e2e_test_direct_query_includes_basic_profile_details() {
    let ctx = setup_server();
    let response = query_server(&ctx, "alice");
    assert!(
        response.contains("User: alice"),
        "missing username in response: {response:?}"
    );
    assert!(
        response.contains("Full name: Alice Example"),
        "missing full name in response: {response:?}"
    );
    assert!(
        response.contains("Email: alice@test.host"),
        "missing email field in response: {response:?}"
    );
    assert!(
        !response.contains("Plan:"),
        "non-verbose query should not include plan: {response:?}"
    );
}

#[test]
fn e2e_test_verbose_query_returns_plan_content() {
    let ctx = setup_server();
    let response = query_server(&ctx, "/W alice@test.host");
    assert!(
        response.contains("User: alice"),
        "missing username in verbose response: {response:?}"
    );
    assert!(
        response.contains("Plan:"),
        "verbose response missing plan header: {response:?}"
    );
    assert!(
        response.contains("Alice's Plan"),
        "verbose response missing plan contents: {response:?}"
    );
    assert!(
        response.contains("Line 2"),
        "verbose response missing trailing plan line: {response:?}"
    );
}

#[test]
fn e2e_test_verbose_query_reports_missing_plan() {
    let ctx = setup_server();
    let response = query_server(&ctx, "/W bob");
    assert!(
        response.contains("User: bob"),
        "missing username for bob response: {response:?}"
    );
    assert!(
        response.contains("(no plan)"),
        "expected missing plan marker: {response:?}"
    );
}

#[test]
fn e2e_test_query_handles_unknown_user_and_host_mismatch() {
    let ctx = setup_server();
    let missing_response = query_server(&ctx, "charlie");
    assert!(
        missing_response.contains(USER_MISSING),
        "missing user sentinel in response: {missing_response:?}"
    );
    let host_response = query_server(&ctx, "alice@wrong.host");
    assert!(
        host_response.contains(HOST_MISMATCH),
        "missing host mismatch sentinel in response: {host_response:?}"
    );
}

#[test]
fn e2e_test_query_user_via_proxy() {
    let ctx = setup_server();
    let response_alice = query_server(&ctx, "alice@test.host");
    assert!(
        response_alice.contains("User: alice"),
        "missing username in proxied response: {response_alice:?}"
    );
    assert!(
        response_alice.contains("Full name: Alice Example"),
        "missing full name in proxied response: {response_alice:?}"
    );
    let response_bob = query_server(&ctx, "/W bob");
    assert!(
        response_bob.contains("User: bob"),
        "missing username in proxied response: {response_bob:?}"
    );
    assert!(
        response_bob.contains("(no plan)"),
        "missing empty plan marker in proxied response: {response_bob:?}"
    );
}

#[test]
fn e2e_test_server_rejects_large_query() {
    let ctx = setup_server();
    let mut payload = vec![b'a'; MAX_REQUEST_BYTES + 50];
    payload.extend_from_slice(b"\r\n");
    let response = exchange(&ctx, &payload);
    assert!(
        response.trim().is_empty() || response.contains(GENERIC_ERROR),
        "expected generic error or disconnect, got {response:?}"
    );
}

#[test]
fn direct_test_direct_query_includes_basic_profile_details() {
    let ctx = setup_server();
    assert_eq!(
        query_server(&ctx, "alice"),
        "User: alice\r\nEmail: alice@test.host\r\nFull name: Alice Example\r\n\r\n\
         Powered by fingermouse\r\n"
    );
    let response = query_server(&ctx, "alice");
    assert!(response.contains("User: alice"));
    assert!(response.contains("Full name: Alice Example"));
    assert!(response.contains("Email: alice@test.host"));
    assert!(!response.contains("Plan:"));
}

#[test]
fn direct_test_verbose_query_returns_plan_content() {
    let ctx = setup_server();
    let response = query_server(&ctx, "/W alice@test.host");
    for needle in ["User: alice", "Plan:", "Alice's Plan", "Line 2"] {
        assert!(
            response.contains(needle),
            "missing {needle:?} in verbose response: {response:?}"
        );
    }
}

#[test]
fn direct_test_verbose_query_reports_missing_plan() {
    let ctx = setup_server();
    let response = query_server(&ctx, "/W bob");
    for needle in ["User: bob", "(no plan)"] {
        assert!(
            response.contains(needle),
            "missing {needle:?} in bob response: {response:?}"
        );
    }
}

#[test]
fn direct_test_query_handles_unknown_user_and_host_mismatch() {
    let ctx = setup_server();
    assert!(query_server(&ctx, "charlie").contains(USER_MISSING));
    assert!(query_server(&ctx, "alice@wrong.host").contains(HOST_MISMATCH));
}

#[test]
fn test_query_tolerates_case_and_whitespace_variations() {
    let ctx = setup_server();
    let cases = [
        ("/W ALICE@test.host", "uppercase input"),
        ("/W Alice@test.host", "mixed-case input"),
        ("   /W alice@test.host", "leading whitespace"),
        ("/W alice@test.host   ", "trailing whitespace"),
        ("/W    alice@test.host", "collapsed whitespace"),
    ];
    for (query, label) in cases {
        let response = query_server(&ctx, query);
        assert!(
            response.contains("User: alice"),
            "{label} should resolve to alice: {response:?}"
        );
    }
}

#[test]
fn proxy_test_query_user_via_proxy() {
    let cases: [(&str, &[&str]); 2] = [
        ("alice@test.host", &["User: alice", "Full name: Alice Example"]),
        ("/W bob", &["User: bob", "(no plan)"]),
    ];
    for (query, expectations) in cases {
        let ctx = setup_server();
        let response = query_server(&ctx, query);
        for needle in expectations {
            assert!(
                response.contains(needle),
                "missing {needle:?} in proxied response: {response:?}"
            );
        }
    }
}

#[test]
fn proxy_test_server_rejects_large_query() {
    let ctx = setup_server();
    let mut payload = vec![b'a'; MAX_REQUEST_BYTES + 50];
    payload.extend_from_slice(b"\r\n");
    let response = exchange(&ctx, &payload);
    let trimmed = response.trim();
    assert!(
        trimmed.is_empty() || response.contains(GENERIC_ERROR),
        "expected generic error or disconnect, got len={} body={response:?}",
        trimmed.len()
    );
}

#[test]
fn nothing_behind_the_first_line_matters() {
    let ctx = setup_server();
    assert_eq!(
        exchange(&ctx, b"bob\r\n/W alice\r\n"),
        exchange(&ctx, b"bob\r\n")
    );
    assert_eq!(exchange(&ctx, b""), "");
}

#[test]
fn refused_clients_need_no_room_to_read() {
    let mut config = base_config();
    config.max_request_bytes = usize::MAX;
    let handler = ConnectionHandler { config: &config };
    let refused = Err(RateLimitError::LimitExceeded {
        retry_in: Span::from_secs(1),
    });
    assert!(matches!(
        handler.enforce_rate_limit(refused),
        Step::Reply(payload) if payload == render_message(RATE_LIMIT_MESSAGE)
    ));
}
