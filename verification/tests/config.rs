use fingermouse::clock::Span;
use fingermouse::config::{
    store_root_step, CliOptions, ConfigError, ServerConfig, StoreRootStep,
};
use fingermouse::identity::{HostName, IdentityError};

fn host(name: &str) -> HostName {
    match HostName::parse(name) {
        Ok(host) => host,
        Err(err) => panic!("no hostname: {}", err.message()),
    }
}

fn config(cli: CliOptions) -> ServerConfig {
    match ServerConfig::from_cli(cli) {
        Ok(config) => config,
        Err(err) => panic!("no configuration: {}", err.message()),
    }
}

fn with_hosts(default_host: &str, list: &str) -> Result<ServerConfig, ConfigError> {
    ServerConfig::from_cli(CliOptions {
        default_host: default_host.to_owned(),
        allowed_hosts: Some(list.to_owned()),
        ..CliOptions::default()
    })
}

fn hosts(config: &ServerConfig) -> Vec<&str> {
    config.allowed_hosts.iter().map(String::as_str).collect()
}

#[test]
fn documented_defaults() {
    let config = config(CliOptions::default());
    assert_eq!(config.default_host.as_str(), "localhost");
    assert_eq!(hosts(&config), ["localhost"]);
    assert_eq!(config.profile_prefix, "profiles");
    assert_eq!(config.plan_prefix, "plans");
    assert_eq!(config.rate.max_requests, 30);
    assert_eq!(config.rate.window, Span::from_secs(60));
    assert_eq!(config.rate.max_entries, 8192);
    assert_eq!(config.request_timeout, Span::from_millis(3000));
    assert_eq!(config.max_request_bytes, 512);
}

#[test]
fn default_host_comes_first_and_hosts_are_kept_once() {
    let config = with_hosts("Test.Host", " b.host, TEST.host ,, a.host,b.host,").unwrap();
    assert_eq!(hosts(&config), ["test.host", "b.host", "a.host"]);
    for name in ["test.host", "a.host", "B.HOST"] {
        assert!(config.accepts_host(&host(name)));
    }
    assert!(!config.accepts_host(&host("other.host")));
    assert!(!config.accepts_host(&host("host")));
    let copy = config.clone();
    assert_eq!(hosts(&copy), hosts(&config));
}

#[test]
fn bad_hosts_are_reported() {
    let err = with_hosts("-x", "").err();
    assert_eq!(
        err,
        Some(ConfigError::DefaultHost(IdentityError::HostLabelHyphen))
    );
    assert_eq!(
        err.unwrap().message(),
        "invalid default host: hostname labels must not begin or end with a hyphen"
    );
    let err = with_hosts("ok", "fine,a..b,-x").err();
    assert_eq!(
        err,
        Some(ConfigError::AllowedHost(IdentityError::HostEmptyLabel))
    );
    assert_eq!(
        err.unwrap().message(),
        "invalid host in allow list: hostname has empty label"
    );
}

#[test]
fn limits_are_brought_into_range() {
    let low = config(CliOptions {
        rate_limit: 0,
        rate_window_secs: 0,
        rate_capacity: 0,
        request_timeout_ms: 0,
        max_request_bytes: 0,
        ..CliOptions::default()
    });
    assert_eq!(low.rate.max_requests, 1);
    assert_eq!(low.rate.window, Span::from_secs(1));
    assert_eq!(low.rate.max_entries, 1);
    assert_eq!(low.request_timeout, Span::from_millis(1));
    assert_eq!(low.max_request_bytes, 64);
    let high = config(CliOptions {
        max_request_bytes: usize::MAX,
        ..CliOptions::default()
    });
    assert_eq!(high.max_request_bytes, 4096);
    let within = config(CliOptions {
        max_request_bytes: 64,
        request_timeout_ms: 1500,
        ..CliOptions::default()
    });
    assert_eq!(within.max_request_bytes, 64);
    assert_eq!(
        within.request_timeout,
        Span {
            secs: 1,
            nanos: 500_000_000
        }
    );
}

#[test]
fn folders_lose_their_outer_slashes() {
    let config = config(CliOptions {
        profile_prefix: "//a/b/".to_owned(),
        plan_prefix: "/".to_owned(),
        ..CliOptions::default()
    });
    assert_eq!(config.profile_prefix, "a/b");
    assert_eq!(config.plan_prefix, "");
}

#[test]
fn store_root_is_kept_created_or_refused() {
    assert_eq!(store_root_step(true, true), StoreRootStep::Ready);
    assert_eq!(store_root_step(true, false), StoreRootStep::Refuse);
    assert_eq!(store_root_step(false, false), StoreRootStep::Create);
}
