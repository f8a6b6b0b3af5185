//! Application configuration.
use crate::clock::Span;
use crate::identity;
use crate::identity::{HostName, IdentityError};
use crate::rate_limit::RateLimitSettings;
use crate::text;
use crate::text::CharClass;
use indexmap::IndexSet;
use vstd::prelude::*;

verus! {

/// Hostname used when neither the client nor the operator names one.
pub const DEFAULT_HOST: &'static str = "localhost";

/// Folder of the profiles unless the operator names another.
pub const DEFAULT_PROFILE_PREFIX: &'static str = "profiles";

/// Folder of the plans unless the operator names another.
pub const DEFAULT_PLAN_PREFIX: &'static str = "plans";

/// Requests per window unless the operator gives another number.
pub const DEFAULT_RATE_LIMIT: u32 = 30;

/// Length of the window, in seconds, unless the operator gives another.
pub const DEFAULT_RATE_WINDOW_SECS: u64 = 60;

/// Clients that are remembered unless the operator gives another number.
pub const DEFAULT_RATE_CAPACITY: usize = 8192;

/// Time, in milliseconds, that a client has for its query unless the operator
/// gives another.
pub const DEFAULT_REQUEST_TIMEOUT_MS: u64 = 3000;

/// Longest query, in bytes, unless the operator gives another length.
pub const DEFAULT_MAX_REQUEST_BYTES: usize = 512;

/// Smallest limit on the length of a query.
pub const MIN_REQUEST_BYTES: usize = 64;

/// Largest limit on the length of a query.
pub const MAX_REQUEST_BYTES: usize = 4096;

/// The insertion-ordered set that holds the served hosts.
#[verifier::external_type_specification]
#[verifier::external_body]
#[verifier::reject_recursive_types(T)]
#[verifier::reject_recursive_types(S)]
pub struct ExIndexSet<T, S>(IndexSet<T, S>);

/// The texts that a set holds, in its order.
pub uninterp spec fn hosts_of(set: IndexSet<String>) -> Seq<Seq<char>>;

/// `hosts` with `host` behind them, unless it is among them.
pub open spec fn with_host(hosts: Seq<Seq<char>>, host: Seq<char>) -> Seq<Seq<char>> {
    if hosts.contains(host) {
        hosts
    } else {
        hosts.push(host)
    }
}

/// Trusted: `IndexSet::from` of one item makes the set of that item.
#[verifier::external_body]
fn hosts_from(host: String) -> (r: IndexSet<String>)
    ensures
        hosts_of(r) == seq![host@],
{
    IndexSet::from([host])
}

/// Trusted: `IndexSet::insert` appends an item that is not in the set, and leaves
/// the set as it is otherwise.
#[verifier::external_body]
fn hosts_insert(set: &mut IndexSet<String>, host: String)
    ensures
        hosts_of(*final(set)) == with_host(hosts_of(*old(set)), host@),
{
    set.insert(host);
}

/// Trusted: `IndexSet::contains` tells whether an item is in the set.
#[verifier::external_body]
fn hosts_contain(set: &IndexSet<String>, host: &str) -> (r: bool)
    ensures
        r == hosts_of(*set).contains(host@),
{
    set.contains(host)
}

/// Trusted: `IndexSet::clone` copies the items in their order.
#[verifier::external_body]
fn hosts_clone(set: &IndexSet<String>) -> (r: IndexSet<String>)
    ensures
        hosts_of(r) == hosts_of(*set),
{
    set.clone()
}

/// Options that decide how the server answers.
#[derive(Debug)]
pub struct CliOptions {
    /// Default hostname used when a client query omits one.
    pub default_host: String,
    /// Optional comma-separated list of hostnames the server will answer.
    pub allowed_hosts: Option<String>,
    /// Relative path within the store containing profile TOML files.
    pub profile_prefix: String,
    /// Relative path within the store containing plan files.
    pub plan_prefix: String,
    /// Maximum number of requests allowed per window for a single client.
    pub rate_limit: u32,
    /// Length of the rate-limiting window in seconds.
    pub rate_window_secs: u64,
    /// Maximum number of client entries retained in the rate limiter.
    pub rate_capacity: usize,
    /// Timeout in milliseconds for reading the client query line.
    pub request_timeout_ms: u64,
    /// Maximum size of the accepted query line in bytes.
    pub max_request_bytes: usize,
}

impl Default for CliOptions {
    fn default() -> (r: Self)
        ensures
            r.default_host@ == "localhost"@,
            r.allowed_hosts is None,
            r.profile_prefix@ == "profiles"@,
            r.plan_prefix@ == "plans"@,
            r.rate_limit == 30,
            r.rate_window_secs == 60,
            r.rate_capacity == 8192,
            r.request_timeout_ms == 3000,
            r.max_request_bytes == 512,
    {
        CliOptions {
            default_host: DEFAULT_HOST.to_owned(),
            allowed_hosts: None,
            profile_prefix: DEFAULT_PROFILE_PREFIX.to_owned(),
            plan_prefix: DEFAULT_PLAN_PREFIX.to_owned(),
            rate_limit: DEFAULT_RATE_LIMIT,
            rate_window_secs: DEFAULT_RATE_WINDOW_SECS,
            rate_capacity: DEFAULT_RATE_CAPACITY,
            request_timeout_ms: DEFAULT_REQUEST_TIMEOUT_MS,
            max_request_bytes: DEFAULT_MAX_REQUEST_BYTES,
        }
    }
}

/// Why options make no configuration.
#[derive(Debug, Clone, Copy, PartialEq, Eq, Structural)]
pub enum ConfigError {
    /// The default host is no hostname.
    DefaultHost(IdentityError),
    /// An entry of the list of served hosts is no hostname.
    AllowedHost(IdentityError),
}

impl ConfigError {
    /// The description of the error.
    pub open spec fn text(self) -> Seq<char> {
        match self {
            ConfigError::DefaultHost(err) => "invalid default host: "@ + err.text(),
            ConfigError::AllowedHost(err) => "invalid host in allow list: "@ + err.text(),
        }
    }

    /// Description of the error for the operator.
    pub fn message(&self) -> (r: String)
        ensures
            r@ == self.text(),
    {
        match self {
            ConfigError::DefaultHost(err) => text::joined(
                "invalid default host: ",
                err.message().as_str(),
            ),
            ConfigError::AllowedHost(err) => text::joined(
                "invalid host in allow list: ",
                err.message().as_str(),
            ),
        }
    }
}

/// Runtime configuration compiled from the options.
#[derive(Debug)]
pub struct ServerConfig {
    /// Default hostname used when queries omit one.
    pub default_host: HostName,
    /// Hostnames that the server will respond to.
    pub allowed_hosts: IndexSet<String>,
    /// Folder containing profile TOML files.
    pub profile_prefix: String,
    /// Folder containing plan files.
    pub plan_prefix: String,
    /// Rate limiting settings applied per client IP.
    pub rate: RateLimitSettings,
    /// Maximum time spent waiting for a client query.
    pub request_timeout: Span,
    /// Maximum query size accepted from a client.
    pub max_request_bytes: usize,
}

/// What a configuration says.
#[verifier::ext_equal]
pub struct ConfigView {
    pub default_host: Seq<char>,
    pub allowed_hosts: Seq<Seq<char>>,
    pub profile_prefix: Seq<char>,
    pub plan_prefix: Seq<char>,
    pub rate: RateLimitSettings,
    pub request_timeout: Span,
    pub max_request_bytes: usize,
}

impl View for ServerConfig {
    type V = ConfigView;

    open spec fn view(&self) -> ConfigView {
        ConfigView {
            default_host: self.default_host@,
            allowed_hosts: hosts_of(self.allowed_hosts),
            profile_prefix: self.profile_prefix@,
            plan_prefix: self.plan_prefix@,
            rate: self.rate,
            request_timeout: self.request_timeout,
            max_request_bytes: self.max_request_bytes,
        }
    }
}

impl ConfigView {
    /// Whether the server answers for `host`.
    pub open spec fn serves(self, host: Seq<char>) -> bool {
        self.allowed_hosts.contains(host)
    }
}

impl Clone for ServerConfig {
    fn clone(&self) -> (r: Self)
        ensures
            r@ == self@,
    {
        ServerConfig {
            default_host: self.default_host.clone(),
            allowed_hosts: hosts_clone(&self.allowed_hosts),
            profile_prefix: self.profile_prefix.clone(),
            plan_prefix: self.plan_prefix.clone(),
            rate: self.rate,
            request_timeout: self.request_timeout,
            max_request_bytes: self.max_request_bytes,
        }
    }
}

/// `hosts` with the hosts that `candidates` name behind them, in order and each
/// once; blank candidates name none. The first candidate that is no hostname is an
/// error.
pub open spec fn with_candidates(hosts: Seq<Seq<char>>, candidates: Seq<Seq<char>>) -> Result<
    Seq<Seq<char>>,
    IdentityError,
>
    decreases candidates.len(),
{
    if candidates.len() == 0 {
        Ok(hosts)
    } else {
        let candidate = text::trim(candidates.first(), CharClass::White);
        if candidate.len() == 0 {
            with_candidates(hosts, candidates.drop_first())
        } else {
            match identity::parse_hostname(candidate) {
                Err(err) => Err(err),
                Ok(host) => with_candidates(with_host(hosts, host), candidates.drop_first()),
            }
        }
    }
}

/// `hosts` with those behind them that `candidates` name before the first one that is
/// no hostname, in order and each once.
pub open spec fn with_good_candidates(
    hosts: Seq<Seq<char>>,
    candidates: Seq<Seq<char>>,
) -> Seq<Seq<char>>
    decreases candidates.len(),
{
    if candidates.len() == 0 {
        hosts
    } else {
        let candidate = text::trim(candidates.first(), CharClass::White);
        if candidate.len() == 0 {
            with_good_candidates(hosts, candidates.drop_first())
        } else {
            match identity::parse_hostname(candidate) {
                Err(_) => hosts,
                Ok(host) => with_good_candidates(with_host(hosts, host), candidates.drop_first()),
            }
        }
    }
}

/// The hosts that are served: the default host, then those of the list.
pub open spec fn served_hosts(default_host: Seq<char>, list: Option<Seq<char>>) -> Result<
    Seq<Seq<char>>,
    IdentityError,
> {
    match list {
        None => Ok(seq![default_host]),
        Some(list) => with_candidates(seq![default_host], text::split(list, ',')),
    }
}

/// The larger of `value` and one.
pub open spec fn at_least_one(value: int) -> int {
    if value < 1 {
        1
    } else {
        value
    }
}

/// `value` brought into the range that a limit on the length of a query may have.
pub open spec fn clamped_request_bytes(value: int) -> int {
    if value < MIN_REQUEST_BYTES {
        MIN_REQUEST_BYTES as int
    } else if value > MAX_REQUEST_BYTES {
        MAX_REQUEST_BYTES as int
    } else {
        value
    }
}

/// The text of the list of served hosts, if there is one.
pub open spec fn list_text(list: Option<String>) -> Option<Seq<char>> {
    match list {
        Some(list) => Some(list@),
        None => None,
    }
}

/// Whether the options name `host`: as the default host, or in an entry of the list,
/// in any spelling that reads as it.
pub open spec fn host_is_configured(cli: CliOptions, host: Seq<char>) -> bool {
    ||| identity::parse_hostname(cli.default_host@) == Ok::<Seq<char>, IdentityError>(host)
    ||| cli.allowed_hosts matches Some(list) && named(text::split(list@, ','), host)
}

/// What a configuration has to be for its options, but for the hosts: every limit
/// at least one, the query length within its range, the folders without slashes at
/// their ends.
pub open spec fn limits_follow(config: ConfigView, cli: CliOptions) -> bool {
    &&& config.profile_prefix == text::trim(cli.profile_prefix@, CharClass::Slash)
    &&& config.plan_prefix == text::trim(cli.plan_prefix@, CharClass::Slash)
    &&& config.rate.max_requests == at_least_one(cli.rate_limit as int)
    &&& config.rate.window.wf()
    &&& config.rate.window.total() == at_least_one(cli.rate_window_secs as int) * 1_000_000_000
    &&& config.rate.max_entries == at_least_one(cli.rate_capacity as int)
    &&& config.request_timeout.wf()
    &&& config.request_timeout.total() == at_least_one(cli.request_timeout_ms as int) * 1_000_000
    &&& config.max_request_bytes == clamped_request_bytes(cli.max_request_bytes as int)
}

impl ServerConfig {
    /// Construct configuration from parsed options.
    pub fn from_cli(cli: CliOptions) -> (r: Result<ServerConfig, ConfigError>)
        ensures
            match identity::parse_hostname(cli.default_host@) {
                Err(err) => r matches Err(e) && e == ConfigError::DefaultHost(err),
                Ok(default_host) => match served_hosts(default_host, list_text(cli.allowed_hosts)) {
                    Err(err) => r matches Err(e) && e == ConfigError::AllowedHost(err),
                    Ok(hosts) => r matches Ok(config) && config@.default_host == default_host
                        && config@.allowed_hosts == hosts && limits_follow(config@, cli),
                },
            },
            r matches Ok(config) ==> forall|host: Seq<char>| #[trigger]
                config@.serves(host) <==> host_is_configured(cli, host),
    {
        let default_host = match HostName::parse(cli.default_host.as_str()) {
            Ok(host) => host,
            Err(err) => {
                return Err(ConfigError::DefaultHost(err));
            },
        };
        let mut allowed_hosts = hosts_from(default_host.as_str().to_owned());
        if let Some(list) = &cli.allowed_hosts {
            match extend_allowed_hosts(list.as_str(), &mut allowed_hosts) {
                Ok(()) => {},
                Err(err) => {
                    return Err(ConfigError::AllowedHost(err));
                },
            }
        }
        proof {
            let name = default_host@;
            match cli.allowed_hosts {
                Some(list) => law_default_and_listed_hosts_are_served(name, list@),
                None => law_default_and_listed_hosts_are_served(name, Seq::empty()),
            }
            assert(seq![name][0] == name);
        }
        let rate = RateLimitSettings {
            max_requests: if cli.rate_limit < 1 {
                1
            } else {
                cli.rate_limit
            },
            window: Span::from_secs(
                if cli.rate_window_secs < 1 {
                    1
                } else {
                    cli.rate_window_secs
                },
            ),
            max_entries: if cli.rate_capacity < 1 {
                1
            } else {
                cli.rate_capacity
            },
        };
        let request_timeout = Span::from_millis(
            if cli.request_timeout_ms < 1 {
                1
            } else {
                cli.request_timeout_ms
            },
        );
        let max_request_bytes: usize = if cli.max_request_bytes < MIN_REQUEST_BYTES {
            MIN_REQUEST_BYTES
        } else if cli.max_request_bytes > MAX_REQUEST_BYTES {
            MAX_REQUEST_BYTES
        } else {
            cli.max_request_bytes
        };
        Ok(
            ServerConfig {
                default_host,
                allowed_hosts,
                profile_prefix: sanitise_prefix(cli.profile_prefix.as_str()),
                plan_prefix: sanitise_prefix(cli.plan_prefix.as_str()),
                rate,
                request_timeout,
                max_request_bytes,
            },
        )
    }

    /// Determine whether the server is responsible for the supplied host.
    pub fn accepts_host(&self, host: &HostName) -> (r: bool)
        ensures
            r == self@.serves(host@),
            r == self@.allowed_hosts.contains(host@),
    {
        hosts_contain(&self.allowed_hosts, host.as_str())
    }
}

/// What is to be done about the root directory of the store.
#[derive(Debug, Clone, Copy, PartialEq, Eq, Structural)]
pub enum StoreRootStep {
    /// It is there.
    Ready,
    /// Something else stands in its place.
    Refuse,
    /// It is to be created.
    Create,
}

/// Decide on the root directory of the store, given whether the path exists and
/// whether it is a directory.
pub fn store_root_step(exists: bool, is_dir: bool) -> (r: StoreRootStep)
    ensures
        r is Ready <==> exists && is_dir,
        r is Refuse <==> exists && !is_dir,
        r is Create <==> !exists,
{
    if !exists {
        StoreRootStep::Create
    } else if is_dir {
        StoreRootStep::Ready
    } else {
        StoreRootStep::Refuse
    }
}

/// `input` without the slashes at its ends.
fn sanitise_prefix(input: &str) -> (r: String)
    ensures
        r@ == text::trim(input@, CharClass::Slash),
{
    text::trim_str(input, CharClass::Slash).to_owned()
}

/// Add the hosts of a comma-separated list, keeping their order and each once.
fn extend_allowed_hosts(list: &str, allowed_hosts: &mut IndexSet<String>) -> (r: Result<
    (),
    IdentityError,
>)
    ensures
        match r {
            Ok(()) => with_candidates(hosts_of(*old(allowed_hosts)), text::split(list@, ','))
                == Ok::<Seq<Seq<char>>, IdentityError>(hosts_of(*final(allowed_hosts))),
            Err(err) => with_candidates(hosts_of(*old(allowed_hosts)), text::split(list@, ','))
                == Err::<Seq<Seq<char>>, IdentityError>(err),
        },
        hosts_of(*final(allowed_hosts)) == with_good_candidates(
            hosts_of(*old(allowed_hosts)),
            text::split(list@, ','),
        ),
{
    let candidates = text::split_str(list, ',');
    let ghost all = text::split(list@, ',');
    let ghost result = with_candidates(hosts_of(*allowed_hosts), all);
    let ghost good = with_good_candidates(hosts_of(*allowed_hosts), all);
    assert(all.skip(0) =~= all);
    let mut at: usize = 0;
    while at < candidates.len()
        invariant
            at <= candidates@.len(),
            all == text::split(list@, ','),
            text::texts(candidates@) == all,
            result == with_candidates(hosts_of(*old(allowed_hosts)), all),
            with_candidates(hosts_of(*allowed_hosts), all.skip(at as int)) == result,
            good == with_good_candidates(hosts_of(*old(allowed_hosts)), all),
            with_good_candidates(hosts_of(*allowed_hosts), all.skip(at as int)) == good,
        decreases candidates@.len() - at,
    {
        proof {
            assert(all[at as int] == candidates@[at as int]@);
            assert(all.skip(at as int).first() == all[at as int]);
            assert(all.skip(at as int).drop_first() =~= all.skip(at + 1));
        }
        let candidate = text::trim_str(candidates[at].as_str(), CharClass::White);
        if !candidate.is_empty() {
            match HostName::parse(candidate) {
                Ok(host) => hosts_insert(allowed_hosts, host.as_str().to_owned()),
                Err(err) => {
                    return Err(err);
                },
            }
        }
        at += 1;
    }
    assert(all.skip(at as int) =~= Seq::<Seq<char>>::empty());
    Ok(())
}

/// Whether one of `candidates` names `host`.
pub open spec fn named(candidates: Seq<Seq<char>>, host: Seq<char>) -> bool {
    exists|i: int|
        0 <= i < candidates.len() && identity::parse_hostname(#[trigger] candidates[i]) == Ok::<
            Seq<char>,
            IdentityError,
        >(host)
}

/// The default host is served, and stands first. Besides it exactly the hosts that
/// the list names are served, each once.
pub proof fn law_default_and_listed_hosts_are_served(default_host: Seq<char>, list: Seq<char>)
    ensures
        served_hosts(default_host, None) == Ok::<Seq<Seq<char>>, IdentityError>(seq![default_host]),
        served_hosts(default_host, Some(list)) matches Ok(hosts) ==> {
            &&& hosts.first() == default_host
            &&& hosts.no_duplicates()
            &&& forall|host: Seq<char>| #[trigger]
                hosts.contains(host) <==> host == default_host || named(
                    text::split(list, ','),
                    host,
                )
        },
{
    let start = seq![default_host];
    lemma_candidates(start, text::split(list, ','));
    assert forall|host: Seq<char>| #[trigger] start.contains(host) <==> host == default_host by {
        assert(start[0] == default_host);
    }
    if let Ok(hosts) = served_hosts(default_host, Some(list)) {
        assert(hosts[0] == start[0]);
    }
}

/// What candidates add to a set of hosts.
proof fn lemma_candidates(hosts: Seq<Seq<char>>, candidates: Seq<Seq<char>>)
    requires
        hosts.no_duplicates(),
    ensures
        with_candidates(hosts, candidates) matches Ok(all) ==> {
            &&& hosts.is_prefix_of(all)
            &&& all.no_duplicates()
            &&& forall|host: Seq<char>| #[trigger]
                all.contains(host) <==> hosts.contains(host) || named(candidates, host)
        },
    decreases candidates.len(),
{
    if candidates.len() > 0 && with_candidates(hosts, candidates) is Ok {
        let all = with_candidates(hosts, candidates)->Ok_0;
        let first = candidates.first();
        let rest = candidates.drop_first();
        let trimmed = text::trim(first, CharClass::White);
        text::lemma_trim_twice(first, CharClass::White);
        assert(identity::parse_hostname(trimmed) == identity::parse_hostname(first));
        assert(first == candidates[0]);
        assert forall|host: Seq<char>| #[trigger] named(candidates, host) <==> named(rest, host)
            || identity::parse_hostname(first) == Ok::<Seq<char>, IdentityError>(host) by {
            if named(rest, host) {
                let i = choose|i: int|
                    0 <= i < rest.len() && identity::parse_hostname(#[trigger] rest[i]) == Ok::<
                        Seq<char>,
                        IdentityError,
                    >(host);
                assert(candidates[i + 1] == rest[i]);
            }
            if named(candidates, host) {
                let i = choose|i: int|
                    0 <= i < candidates.len() && identity::parse_hostname(#[trigger] candidates[i])
                        == Ok::<Seq<char>, IdentityError>(host);
                if i > 0 {
                    assert(rest[i - 1] == candidates[i]);
                }
            }
        }
        if trimmed.len() == 0 {
            assert(identity::parse_hostname(first) is Err);
            lemma_candidates(hosts, rest);
        } else {
            let host = identity::parse_hostname(trimmed)->Ok_0;
            let more = with_host(hosts, host);
            assert(more.contains(host)) by {
                if !hosts.contains(host) {
                    assert(more.last() == host);
                }
            }
            assert forall|other: Seq<char>| #[trigger] more.contains(other) <==> hosts.contains(
                other,
            ) || other == host by {
                if hosts.contains(other) {
                    let i = hosts.index_of(other);
                    assert(more[i] == other);
                }
            }
            assert(more.no_duplicates());
            assert(hosts.is_prefix_of(more));
            lemma_candidates(more, rest);
            assert(hosts.is_prefix_of(all)) by {
                assert(all.take(hosts.len() as int) =~= more.take(hosts.len() as int));
            }
        }
    }
}

/// A list of hosts may be given in pieces: what comes later is added behind what
/// came before, so hosts keep the order in which they were first named.
pub proof fn law_hosts_keep_their_order(
    hosts: Seq<Seq<char>>,
    earlier: Seq<Seq<char>>,
    later: Seq<Seq<char>>,
)
    requires
        hosts.no_duplicates(),
    ensures
        with_candidates(hosts, earlier + later) == (match with_candidates(hosts, earlier) {
            Ok(known) => with_candidates(known, later),
            Err(err) => Err(err),
        }),
        with_candidates(hosts, earlier) matches Ok(known) ==> hosts.is_prefix_of(known),
    decreases earlier.len(),
{
    lemma_candidates(hosts, earlier);
    if earlier.len() == 0 {
        assert(earlier + later =~= later);
    } else {
        assert((earlier + later).first() == earlier.first());
        assert((earlier + later).drop_first() =~= earlier.drop_first() + later);
        let trimmed = text::trim(earlier.first(), CharClass::White);
        if trimmed.len() == 0 {
            law_hosts_keep_their_order(hosts, earlier.drop_first(), later);
        } else if identity::parse_hostname(trimmed) is Ok {
            let more = with_host(hosts, identity::parse_hostname(trimmed)->Ok_0);
            law_hosts_keep_their_order(more, earlier.drop_first(), later);
        }
    }
}

/// Where no candidate is at fault, all that they name is added; where one is, what
/// comes behind it does not matter.
pub proof fn law_hosts_are_added_up_to_the_first_fault(
    hosts: Seq<Seq<char>>,
    candidates: Seq<Seq<char>>,
    later: Seq<Seq<char>>,
)
    ensures
        with_candidates(hosts, candidates) matches Ok(all) ==> with_good_candidates(
            hosts,
            candidates,
        ) == all,
        with_candidates(hosts, candidates) is Err ==> with_good_candidates(
            hosts,
            candidates + later,
        ) == with_good_candidates(hosts, candidates),
    decreases candidates.len(),
{
    if candidates.len() > 0 {
        assert((candidates + later).first() == candidates.first());
        assert((candidates + later).drop_first() =~= candidates.drop_first() + later);
        let trimmed = text::trim(candidates.first(), CharClass::White);
        if trimmed.len() == 0 {
            law_hosts_are_added_up_to_the_first_fault(hosts, candidates.drop_first(), later);
        } else if let Ok(host) = identity::parse_hostname(trimmed) {
            law_hosts_are_added_up_to_the_first_fault(
                with_host(hosts, host),
                candidates.drop_first(),
                later,
            );
        }
    }
}

/// Whatever the options say, each limit admits something, and the longest query is
/// neither too short for a name nor without bound.
pub proof fn law_limits_are_usable(config: ConfigView, cli: CliOptions)
    requires
        limits_follow(config, cli),
    ensures
        config.rate.max_requests >= 1,
        config.rate.max_entries >= 1,
        config.rate.window.total() >= 1_000_000_000,
        config.request_timeout.total() >= 1_000_000,
        MIN_REQUEST_BYTES <= config.max_request_bytes <= MAX_REQUEST_BYTES,
{
}

/// The folders of a configuration neither begin nor end with a slash, so that
/// trimming them once more changes nothing.
pub proof fn law_folders_have_no_outer_slashes(config: ConfigView, cli: CliOptions)
    requires
        limits_follow(config, cli),
    ensures
        config.profile_prefix.len() > 0 ==> config.profile_prefix.first() != '/'
            && config.profile_prefix.last() != '/',
        config.plan_prefix.len() > 0 ==> config.plan_prefix.first() != '/'
            && config.plan_prefix.last() != '/',
        text::trim(config.profile_prefix, CharClass::Slash) == config.profile_prefix,
        text::trim(config.plan_prefix, CharClass::Slash) == config.plan_prefix,
{
    text::lemma_trim_ends(cli.profile_prefix@, CharClass::Slash);
    text::lemma_trim_ends(cli.plan_prefix@, CharClass::Slash);
    text::lemma_trim_twice(cli.profile_prefix@, CharClass::Slash);
    text::lemma_trim_twice(cli.plan_prefix@, CharClass::Slash);
}

/// A configuration that was made from options serves exactly the hosts that the
/// options name: the default host, and each host that an entry of the comma-separated
/// list reads as.
pub proof fn law_exactly_the_configured_hosts_are_served(
    config: ConfigView,
    default_text: Seq<char>,
    entries: Seq<Seq<char>>,
    host: Seq<char>,
)
    requires
        entries.len() > 0,
        forall|i: int, j: int|
            0 <= i < entries.len() && 0 <= j < entries[i].len() ==> #[trigger] entries[i][j] != ',',
        identity::parse_hostname(default_text) == Ok::<Seq<char>, IdentityError>(
            config.default_host,
        ),
        served_hosts(config.default_host, Some(text::put_together(entries, ','))) == Ok::<
            Seq<Seq<char>>,
            IdentityError,
        >(config.allowed_hosts),
    ensures
        config.serves(host) <==> config.allowed_hosts.contains(host),
        config.serves(host) <==> {
            ||| identity::parse_hostname(default_text) == Ok::<Seq<char>, IdentityError>(host)
            ||| exists|i: int|
                0 <= i < entries.len() && identity::parse_hostname(#[trigger] entries[i]) == Ok::<
                    Seq<char>,
                    IdentityError,
                >(host)
        },
{
    let list = text::put_together(entries, ',');
    text::law_splitting_undoes_putting_together(entries, ',');
    law_default_and_listed_hosts_are_served(config.default_host, list);
    assert(config.allowed_hosts.contains(host) <==> host == config.default_host || named(
        text::split(list, ','),
        host,
    ));
}

/// Without a list the default host is served, and no other.
pub proof fn law_only_the_default_host_is_served_without_a_list(
    config: ConfigView,
    host: Seq<char>,
)
    requires
        served_hosts(config.default_host, None) == Ok::<Seq<Seq<char>>, IdentityError>(
            config.allowed_hosts,
        ),
    ensures
        config.serves(host) <==> host == config.default_host,
{
    assert(config.allowed_hosts[0] == config.default_host);
}

/// The first entry of a list that is not blank and no hostname has the options
/// rejected, for what is wrong with it; without such an entry they are not.
pub proof fn law_first_bad_entry_is_reported(hosts: Seq<Seq<char>>, entries: Seq<Seq<char>>, k: int)
    requires
        0 <= k <= entries.len(),
        forall|i: int, j: int|
            0 <= i < k ==> {
                ||| identity::parse_hostname(#[trigger] entries[i]) is Ok
                ||| 0 <= j < entries[i].len() ==> text::white_space(#[trigger] entries[i][j])
            },
        k < entries.len() ==> identity::parse_hostname(entries[k]) is Err && exists|j: int|
            0 <= j < entries[k].len() && !text::white_space(#[trigger] entries[k][j]),
    ensures
        k == entries.len() ==> with_candidates(hosts, entries) is Ok,
        k < entries.len() ==> with_candidates(hosts, entries) == Err::<
            Seq<Seq<char>>,
            IdentityError,
        >(identity::parse_hostname(entries[k])->Err_0),
    decreases entries.len(),
{
    if entries.len() > 0 {
        let first = entries[0];
        let rest = entries.drop_first();
        let trimmed = text::trim(first, CharClass::White);
        text::lemma_trim_twice(first, CharClass::White);
        assert(identity::parse_hostname(trimmed) == identity::parse_hostname(first));
        if k == 0 {
            if trimmed.len() == 0 {
                text::lemma_trim_to_nothing(first, CharClass::White);
            }
        } else {
            if identity::parse_hostname(first) is Err {
                assert forall|j: int| 0 <= j < first.len() implies text::white_space(
                    #[trigger] first[j],
                ) by {
                    assert(text::white_space(entries[0][j]));
                }
                let none = Seq::<char>::empty();
                assert(first + none + none =~= first);
                text::law_trimming_leaves_the_text(first, none, none, CharClass::White);
            }
            assert forall|i: int, j: int| 0 <= i < k - 1 implies {
                ||| identity::parse_hostname(#[trigger] rest[i]) is Ok
                ||| 0 <= j < rest[i].len() ==> text::white_space(#[trigger] rest[i][j])
            } by {
                assert(rest[i] == entries[i + 1]);
                assert(identity::parse_hostname(entries[i + 1]) is Ok || (0 <= j < entries[i
                    + 1].len() ==> text::white_space(entries[i + 1][j])));
            }
            if k < entries.len() {
                assert(rest[k - 1] == entries[k]);
                let j = choose|j: int|
                    0 <= j < entries[k].len() && !text::white_space(#[trigger] entries[k][j]);
                assert(!text::white_space(rest[k - 1][j]));
            }
            if trimmed.len() == 0 {
                law_first_bad_entry_is_reported(hosts, rest, k - 1);
            } else {
                let host = identity::parse_hostname(trimmed)->Ok_0;
                law_first_bad_entry_is_reported(with_host(hosts, host), rest, k - 1);
            }
        }
    }
}

/// A host that is already there is not added again, and a new one goes to the end.
pub proof fn law_new_hosts_go_to_the_end(hosts: Seq<Seq<char>>, host: Seq<char>, entry: Seq<char>)
    requires
        identity::parse_hostname(entry) == Ok::<Seq<char>, IdentityError>(host),
    ensures
        hosts.contains(host) ==> with_candidates(hosts, seq![entry]) == Ok::<
            Seq<Seq<char>>,
            IdentityError,
        >(hosts),
        !hosts.contains(host) ==> with_candidates(hosts, seq![entry]) == Ok::<
            Seq<Seq<char>>,
            IdentityError,
        >(hosts + seq![host]),
{
    text::lemma_trim_twice(entry, CharClass::White);
    assert(seq![entry].drop_first() =~= Seq::<Seq<char>>::empty());
    reveal_with_fuel(with_candidates, 2);
    assert(hosts.push(host) =~= hosts + seq![host]);
}

/// Limits that are within range are taken as they are: every limit of one or more,
/// and every query length from 64 to 4096. A limit of zero becomes one, and a query
/// length out of range the nearest within it.
pub proof fn law_limits_are_taken_as_they_are(config: ConfigView, cli: CliOptions)
    requires
        limits_follow(config, cli),
    ensures
        cli.rate_limit >= 1 ==> config.rate.max_requests == cli.rate_limit,
        cli.rate_limit == 0 ==> config.rate.max_requests == 1,
        cli.rate_capacity >= 1 ==> config.rate.max_entries == cli.rate_capacity,
        cli.rate_capacity == 0 ==> config.rate.max_entries == 1,
        cli.rate_window_secs >= 1 ==> config.rate.window == (Span {
            secs: cli.rate_window_secs,
            nanos: 0,
        }),
        cli.rate_window_secs == 0 ==> config.rate.window == (Span { secs: 1, nanos: 0 }),
        cli.request_timeout_ms >= 1 ==> config.request_timeout.secs * 1000
            + config.request_timeout.nanos / 1_000_000 == cli.request_timeout_ms,
        cli.request_timeout_ms == 0 ==> config.request_timeout == (Span {
            secs: 0,
            nanos: 1_000_000,
        }),
        config.request_timeout.nanos % 1_000_000 == 0,
        64 <= cli.max_request_bytes <= 4096 ==> config.max_request_bytes == cli.max_request_bytes,
        cli.max_request_bytes < 64 ==> config.max_request_bytes == 64,
        cli.max_request_bytes > 4096 ==> config.max_request_bytes == 4096,
{
    let window = config.rate.window;
    let asked = at_least_one(cli.rate_window_secs as int);
    assert(window.secs == asked && window.nanos == 0) by {
        assert(window.secs * 1_000_000_000 + window.nanos == asked * 1_000_000_000);
    }
    let timeout = config.request_timeout;
    assert(timeout.secs * 1_000_000_000 + timeout.nanos == at_least_one(
        cli.request_timeout_ms as int,
    ) * 1_000_000);
}

/// Descriptions of rejected options carry what is wrong with the host.
pub proof fn law_config_errors_name_their_cause(err: IdentityError)
    ensures
        ConfigError::DefaultHost(err).text() == "invalid default host: "@ + err.text(),
        ConfigError::AllowedHost(err).text() == "invalid host in allow list: "@ + err.text(),
{
}

/// What is said of a configuration is said of all that it holds.
pub proof fn law_configuration_is_seen_whole(config: ServerConfig, list: String)
    ensures
        config@.default_host == config.default_host@,
        config@.allowed_hosts == hosts_of(config.allowed_hosts),
        config@.profile_prefix == config.profile_prefix@,
        config@.plan_prefix == config.plan_prefix@,
        config@.rate == config.rate,
        config@.request_timeout == config.request_timeout,
        config@.max_request_bytes == config.max_request_bytes,
        list_text(Some(list)) == Some(list@),
        list_text(None) is None,
{
}

/// A folder is what stands between the slashes around it.
pub proof fn law_folders_stand_between_their_slashes(
    config: ConfigView,
    cli: CliOptions,
    a: Seq<char>,
    folder: Seq<char>,
    b: Seq<char>,
)
    requires
        limits_follow(config, cli),
        forall|i: int| 0 <= i < a.len() ==> #[trigger] a[i] == '/',
        forall|i: int| 0 <= i < b.len() ==> #[trigger] b[i] == '/',
        folder.len() > 0 ==> folder[0] != '/' && folder[folder.len() - 1] != '/',
    ensures
        cli.profile_prefix@ == a + folder + b ==> config.profile_prefix == folder,
        cli.plan_prefix@ == a + folder + b ==> config.plan_prefix == folder,
{
    text::law_trimming_leaves_the_text(a, folder, b, CharClass::Slash);
}

} // verus!
