//! What the server says to a client, step by step.
use crate::config;
use crate::config::ServerConfig;
use crate::framing;
use crate::framing::CrlfBuffer;
use crate::identity;
use crate::identity::Username;
use crate::query;
use crate::query::{FingerQuery, QueryErrorView, QueryView};
use crate::rate_limit::RateLimitError;
use crate::storage;
use crate::storage::{LoadResult, RecordView, RepositoryError, RepositoryErrorView, UserRecord};
use crate::user;
use vstd::prelude::*;

verus! {

/// Said of a request that cannot be answered, whatever the reason.
pub const GENERIC_ERROR: &'static str = "fingermouse: request refused";

/// Said where the query names a host that is not served.
pub const HOST_MISMATCH: &'static str = "fingermouse: host not served here";

/// Said to a client that asks too often.
pub const RATE_LIMIT_MESSAGE: &'static str = "fingermouse: slow down";

/// Said where there is no such user.
pub const USER_MISSING: &'static str = "fingermouse: no matching record";

/// A message as it goes over the wire.
pub fn render_message(message: &str) -> (r: Vec<u8>)
    ensures
        r@ == framing::framed(message@),
{
    let mut buffer = CrlfBuffer::default();
    buffer.push_line(message);
    assert(buffer@ =~= framing::framed(message@));
    buffer.into_bytes()
}

/// Why a connection is closed without a reply.
#[derive(Debug, Clone, Copy, PartialEq, Eq, Structural)]
pub enum ReadError {
    /// The client closed the connection before it sent anything.
    ConnectionClosed,
    /// The client sent more than a query may hold.
    RequestTooLarge,
}

impl ReadError {
    /// The description of the error.
    pub open spec fn text(self) -> Seq<char> {
        match self {
            ReadError::ConnectionClosed => "connection closed"@,
            ReadError::RequestTooLarge => "request too large"@,
        }
    }

    /// Description of the error for the log.
    pub fn message(&self) -> (r: String)
        ensures
            r@ == self.text(),
    {
        match self {
            ReadError::ConnectionClosed => "connection closed".to_owned(),
            ReadError::RequestTooLarge => "request too large".to_owned(),
        }
    }
}

/// What a connection does next.
#[derive(Debug)]
pub enum Step {
    /// Read up to a line feed, but no more than `limit` bytes.
    Read { limit: u64 },
    /// Load the record of `username`, with the plan where it is asked for.
    Load { username: Username, include_plan: bool },
    /// Send the reply and close.
    Reply(Vec<u8>),
    /// Close without a reply.
    Close(ReadError),
}

/// What a step says.
pub enum StepView {
    Read { limit: int },
    Load { user: Seq<char>, include_plan: bool },
    Reply(Seq<u8>),
    Close(ReadError),
}

impl View for Step {
    type V = StepView;

    open spec fn view(&self) -> StepView {
        match self {
            Step::Read { limit } => StepView::Read { limit: *limit as int },
            Step::Load { username, include_plan } => StepView::Load {
                user: username@,
                include_plan: *include_plan,
            },
            Step::Reply(payload) => StepView::Reply(payload@),
            Step::Close(err) => StepView::Close(*err),
        }
    }
}

/// The reply that holds one message.
pub open spec fn message_reply(message: Seq<char>) -> StepView {
    StepView::Reply(framing::framed(message))
}

/// What follows the limiter's decision: an admitted client is read, any other is
/// told to slow down.
pub open spec fn admission(config: config::ConfigView, admitted: bool) -> StepView {
    if admitted {
        StepView::Read { limit: config.max_request_bytes + 1 }
    } else {
        message_reply(RATE_LIMIT_MESSAGE@)
    }
}

/// The host that a query is for.
pub open spec fn asked_host(config: config::ConfigView, query: QueryView) -> Seq<char> {
    match query.host {
        Some(host) => host,
        None => config.default_host,
    }
}

/// What follows a query: a lookup where its host is served.
pub open spec fn routing(config: config::ConfigView, query: QueryView) -> StepView {
    if config.serves(asked_host(config, query)) {
        StepView::Load { user: query.user, include_plan: query.verbose }
    } else {
        message_reply(HOST_MISMATCH@)
    }
}

/// What follows the bytes that were read from the client.
pub open spec fn reception(config: config::ConfigView, line: Seq<u8>) -> StepView {
    if line.len() == 0 {
        StepView::Close(ReadError::ConnectionClosed)
    } else if line.len() > config.max_request_bytes {
        StepView::Close(ReadError::RequestTooLarge)
    } else {
        match query::read_query(line) {
            Err(_) => message_reply(GENERIC_ERROR@),
            Ok(query) => routing(config, query),
        }
    }
}

/// The reply to a lookup.
pub open spec fn answer(include_plan: bool, outcome: LoadResult) -> Seq<u8> {
    match outcome {
        Ok(record) => framing::framed_lines(
            user::profile_lines(record.profile, include_plan, record.plan),
        ),
        Err(RepositoryErrorView::NotFound) => framing::framed(USER_MISSING@),
        Err(_) => framing::framed(GENERIC_ERROR@),
    }
}

/// Handles one connection under a configuration: each function takes what the
/// outside world came back with and says what to do next.
pub struct ConnectionHandler<'a> {
    pub config: &'a ServerConfig,
}

impl<'a> ConnectionHandler<'a> {
    /// Decide on a client once the limiter has spoken.
    pub fn enforce_rate_limit(&self, decision: Result<(), RateLimitError>) -> (r: Step)
        requires
            decision is Ok ==> self.config@.max_request_bytes < usize::MAX,
        ensures
            r@ == admission(self.config@, decision is Ok),
    {
        match decision {
            Ok(()) => Step::Read { limit: (self.config.max_request_bytes + 1) as u64 },
            Err(_) => Step::Reply(render_message(RATE_LIMIT_MESSAGE)),
        }
    }

    /// Decide on what was read from the client.
    pub fn read_query(&self, line: &[u8]) -> (r: Step)
        ensures
            r@ == reception(self.config@, line@),
    {
        match self.read_request(line) {
            Ok(()) => self.parse_query(line),
            Err(err) => Step::Close(err),
        }
    }

    /// Check the length of a request.
    pub fn read_request(&self, line: &[u8]) -> (r: Result<(), ReadError>)
        ensures
            r == (if line@.len() == 0 {
                Err(ReadError::ConnectionClosed)
            } else if line@.len() > self.config@.max_request_bytes {
                Err(ReadError::RequestTooLarge)
            } else {
                Ok(())
            }),
    {
        if line.len() == 0 {
            return Err(ReadError::ConnectionClosed);
        }
        if line.len() > self.config.max_request_bytes {
            return Err(ReadError::RequestTooLarge);
        }
        Ok(())
    }

    /// Decide on a request line.
    pub fn parse_query(&self, line: &[u8]) -> (r: Step)
        ensures
            r@ == (match query::read_query(line@) {
                Err(_) => message_reply(GENERIC_ERROR@),
                Ok(query) => routing(self.config@, query),
            }),
    {
        match query::parse(line) {
            Ok(query) => self.respond_to_query(query),
            Err(_) => Step::Reply(render_message(GENERIC_ERROR)),
        }
    }

    /// Decide on a query, for the default host where it names none.
    pub fn respond_to_query(&self, query: FingerQuery) -> (r: Step)
        ensures
            r@ == routing(self.config@, query@),
    {
        let host = match &query.host {
            Some(host) => host.clone(),
            None => self.config.default_host.clone(),
        };
        if !self.config.accepts_host(&host) {
            return Step::Reply(render_message(HOST_MISMATCH));
        }
        Step::Load { username: query.username, include_plan: query.verbose }
    }

    /// The reply to a lookup.
    pub fn build_response(
        &self,
        include_plan: bool,
        outcome: Result<UserRecord, RepositoryError>,
    ) -> (r: Vec<u8>)
        ensures
            r@ == answer(include_plan, storage::outcome_view(outcome)),
    {
        match outcome {
            Ok(record) => {
                let plan = match &record.plan {
                    Some(plan) => Some(plan.as_str()),
                    None => None,
                };
                record.profile.render(include_plan, plan).as_bytes()
            },
            Err(RepositoryError::NotFound) => render_message(USER_MISSING),
            Err(_) => render_message(GENERIC_ERROR),
        }
    }
}

/// How records are looked up: the user, and whether the plan is asked for.
pub type Lookup = spec_fn(Seq<char>, bool) -> LoadResult;

/// What a connection comes to: the bytes that the client gets, if it gets any.
pub open spec fn session_reply(
    config: config::ConfigView,
    admitted: bool,
    line: Seq<u8>,
    lookup: Lookup,
) -> Option<Seq<u8>> {
    if !admitted {
        Some(framing::framed(RATE_LIMIT_MESSAGE@))
    } else if line.len() == 0 || line.len() > config.max_request_bytes {
        None
    } else {
        match query::read_query(line) {
            Err(_) => Some(framing::framed(GENERIC_ERROR@)),
            Ok(query) => if config.serves(asked_host(config, query)) {
                Some(answer(query.verbose, lookup(query.user, query.verbose)))
            } else {
                Some(framing::framed(HOST_MISMATCH@))
            },
        }
    }
}

/// What following the steps from `step` on comes to when `line` is read and
/// `lookup` answers, with at most `fuel` more events; nothing where they do not
/// suffice.
pub open spec fn follow(
    config: config::ConfigView,
    step: StepView,
    line: Seq<u8>,
    lookup: Lookup,
    fuel: nat,
) -> Option<Option<Seq<u8>>>
    decreases fuel,
{
    match step {
        StepView::Reply(payload) => Some(Some(payload)),
        StepView::Close(_) => Some(None),
        StepView::Read { .. } => if fuel == 0 {
            None
        } else {
            follow(config, reception(config, line), line, lookup, (fuel - 1) as nat)
        },
        StepView::Load { user, include_plan } => if fuel == 0 {
            None
        } else {
            Some(Some(answer(include_plan, lookup(user, include_plan))))
        },
    }
}

/// Whatever comes in, a connection ends after one read and one lookup at most,
/// and the client gets what it is owed.
pub proof fn law_session_comes_to_its_reply(
    config: config::ConfigView,
    admitted: bool,
    line: Seq<u8>,
    lookup: Lookup,
)
    ensures
        follow(config, admission(config, admitted), line, lookup, 2) == Some(
            session_reply(config, admitted, line, lookup),
        ),
{
    reveal_with_fuel(follow, 3);
}

/// A client over its limit is told to slow down, whatever it asks.
pub proof fn law_limited_client_is_not_heard(
    config: config::ConfigView,
    line: Seq<u8>,
    lookup: Lookup,
)
    ensures
        admission(config, false) == message_reply(RATE_LIMIT_MESSAGE@),
        session_reply(config, false, line, lookup) == Some(framing::framed(RATE_LIMIT_MESSAGE@)),
{
}

/// A request that is longer than allowed, or empty, gets no reply.
pub proof fn law_oversized_request_gets_no_reply(
    config: config::ConfigView,
    line: Seq<u8>,
    lookup: Lookup,
)
    ensures
        session_reply(config, true, line, lookup) is None <==> line.len() == 0 || line.len()
            > config.max_request_bytes,
{
}

/// A query for a host that is not served is refused without a lookup.
pub proof fn law_unserved_host_is_refused_without_a_lookup(
    config: config::ConfigView,
    line: Seq<u8>,
    query: QueryView,
    lookup: Lookup,
)
    requires
        0 < line.len() <= config.max_request_bytes,
        query::read_query(line) == Ok::<QueryView, QueryErrorView>(query),
        !config.serves(asked_host(config, query)),
    ensures
        reception(config, line) == message_reply(HOST_MISMATCH@),
        session_reply(config, true, line, lookup) == Some(framing::framed(HOST_MISMATCH@)),
{
}

/// A malformed query is refused without a lookup, in the same words whatever is
/// wrong with it.
pub proof fn law_malformed_query_is_refused_without_a_lookup(
    config: config::ConfigView,
    line: Seq<u8>,
    lookup: Lookup,
)
    requires
        0 < line.len() <= config.max_request_bytes,
        query::read_query(line) is Err,
    ensures
        reception(config, line) == message_reply(GENERIC_ERROR@),
        session_reply(config, true, line, lookup) == Some(framing::framed(GENERIC_ERROR@)),
{
}

/// A client learns of a failed lookup only whether there is such a user: all other
/// failures are answered in the same words.
pub proof fn law_failures_look_alike(include_plan: bool, err: RepositoryErrorView)
    ensures
        answer(include_plan, Err(err)) == framing::framed(
            if err is NotFound {
                USER_MISSING@
            } else {
                GENERIC_ERROR@
            },
        ),
{
}

/// Requests that read as the same query get the same reply.
pub proof fn law_equal_queries_get_equal_replies(
    config: config::ConfigView,
    a: Seq<u8>,
    b: Seq<u8>,
    lookup: Lookup,
)
    requires
        0 < a.len() <= config.max_request_bytes,
        0 < b.len() <= config.max_request_bytes,
        query::read_query(a) == query::read_query(b),
    ensures
        session_reply(config, true, a, lookup) == session_reply(config, true, b, lookup),
{
}

/// A query about a known user at a served host is answered with the user's
/// profile: the reply is what rendering it gives, and starts with the user.
pub proof fn law_known_user_is_answered(
    config: config::ConfigView,
    query: QueryView,
    record: RecordView,
    lookup: Lookup,
)
    requires
        identity::valid_username(query.user),
        query.host matches Some(host) ==> identity::valid_hostname(host),
        query_line(query).len() <= config.max_request_bytes,
        config.serves(asked_host(config, query)),
        lookup(query.user, query.verbose) == Ok::<RecordView, RepositoryErrorView>(record),
        record.profile.user == query.user,
    ensures
        session_reply(config, true, query_line(query), lookup) == Some(
            framing::framed_lines(
                user::profile_lines(record.profile, query.verbose, record.plan),
            ),
        ),
        framing::framed("User: "@ + query.user).is_prefix_of(
            session_reply(config, true, query_line(query), lookup)->0,
        ),
{
    query::law_written_query_reads_back(query);
    let lines = user::profile_lines(record.profile, query.verbose, record.plan);
    user::law_answer_shows_the_whole_profile(record.profile, query.verbose, record.plan);
    let first = seq!["User: "@ + query.user];
    assert(lines =~= first + lines.skip(1));
    framing::law_framing_is_line_by_line(first, lines.skip(1));
    assert(first.drop_last() =~= Seq::<Seq<char>>::empty());
    reveal_with_fuel(framing::framed_lines, 2);
    assert(framing::framed_lines(first) =~= framing::framed("User: "@ + query.user));
}

/// The line that asks a query.
pub open spec fn query_line(query: QueryView) -> Seq<u8> {
    vstd::utf8::encode_utf8(query::query_text(query)) + seq![framing::CR, framing::LF]
}

/// A query that names no host is answered as one for the default host.
pub proof fn law_missing_host_means_the_default_host(
    config: config::ConfigView,
    user: Seq<char>,
    verbose: bool,
)
    ensures
        routing(config, QueryView { user, host: None, verbose }) == routing(
            config,
            QueryView { user, host: Some(config.default_host), verbose },
        ),
{
}

/// The lookup that an object store gives.
pub open spec fn stored_lookup(
    folders: storage::Folders,
    fetch: spec_fn(Seq<char>) -> storage::FetchView,
) -> Lookup {
    |user: Seq<char>, include_plan: bool|
        storage::loaded_record(
            user,
            include_plan,
            fetch(folders.profile_of(user)),
            fetch(folders.plan_of(user)),
        )
}

/// A query about a user whose profile is in the store is answered with that
/// profile, and with the plan where the query asks for it.
pub proof fn law_stored_user_is_answered(
    config: config::ConfigView,
    query: QueryView,
    folders: storage::Folders,
    fetch: spec_fn(Seq<char>) -> storage::FetchView,
    profile: user::ProfileView,
    plan: Option<Seq<char>>,
)
    requires
        identity::valid_username(query.user),
        query.host matches Some(host) ==> identity::valid_hostname(host),
        query_line(query).len() <= config.max_request_bytes,
        config.serves(asked_host(config, query)),
        storage::fetched_profile(query.user, fetch(folders.profile_of(query.user))) == Ok::<
            user::ProfileView,
            RepositoryErrorView,
        >(profile),
        query.verbose ==> storage::fetched_plan(fetch(folders.plan_of(query.user))) == Ok::<
            Option<Seq<char>>,
            RepositoryErrorView,
        >(plan),
    ensures
        session_reply(config, true, query_line(query), stored_lookup(folders, fetch)) == Some(
            framing::framed_lines(user::profile_lines(profile, query.verbose, plan)),
        ),
        profile.user == query.user,
{
    let record = RecordView {
        profile,
        plan: if query.verbose {
            plan
        } else {
            None
        },
    };
    law_known_user_is_answered(config, query, record, stored_lookup(folders, fetch));
    if !query.verbose {
        user::law_plan_is_hidden_unless_requested(profile, plan, None);
    }
}

/// A query about a user who has no profile in the store is told that there is no
/// record.
pub proof fn law_unknown_user_is_told_so(
    config: config::ConfigView,
    query: QueryView,
    folders: storage::Folders,
    fetch: spec_fn(Seq<char>) -> storage::FetchView,
)
    requires
        identity::valid_username(query.user),
        query.host matches Some(host) ==> identity::valid_hostname(host),
        query_line(query).len() <= config.max_request_bytes,
        config.serves(asked_host(config, query)),
        fetch(folders.profile_of(query.user)) is Missing,
    ensures
        session_reply(config, true, query_line(query), stored_lookup(folders, fetch)) == Some(
            framing::framed(USER_MISSING@),
        ),
{
    query::law_written_query_reads_back(query);
}

/// A reply about a user depends on that user's own files alone.
pub proof fn law_reply_depends_on_the_users_files(
    config: config::ConfigView,
    line: Seq<u8>,
    query: QueryView,
    folders: storage::Folders,
    fetch: spec_fn(Seq<char>) -> storage::FetchView,
    other: spec_fn(Seq<char>) -> storage::FetchView,
)
    requires
        query::read_query(line) == Ok::<QueryView, QueryErrorView>(query),
        fetch(folders.profile_of(query.user)) == other(folders.profile_of(query.user)),
        query.verbose ==> fetch(folders.plan_of(query.user)) == other(
            folders.plan_of(query.user),
        ),
    ensures
        session_reply(config, true, line, stored_lookup(folders, fetch)) == session_reply(
            config,
            true,
            line,
            stored_lookup(folders, other),
        ),
{
}

/// Every reply is made of complete lines: it ends with CRLF.
pub proof fn law_every_reply_ends_with_crlf(
    config: config::ConfigView,
    admitted: bool,
    line: Seq<u8>,
    lookup: Lookup,
)
    ensures
        session_reply(config, admitted, line, lookup) matches Some(reply) ==> {
            &&& reply.len() >= 2
            &&& reply[reply.len() - 2] == framing::CR
            &&& reply[reply.len() - 1] == framing::LF
        },
{
    if let Some(reply) = session_reply(config, admitted, line, lookup) {
        if let Ok(query) = query::read_query(line) {
            if let Ok(record) = lookup(query.user, query.verbose) {
                let lines = user::profile_lines(record.profile, query.verbose, record.plan);
                assert(lines.len() > 0);
                framing::law_framed_line_ends_once(lines.last());
            }
        }
        framing::law_framed_line_ends_once(RATE_LIMIT_MESSAGE@);
        framing::law_framed_line_ends_once(GENERIC_ERROR@);
        framing::law_framed_line_ends_once(HOST_MISMATCH@);
        framing::law_framed_line_ends_once(USER_MISSING@);
    }
}

/// An admitted client may send one byte more than the longest query, so that a longer
/// one is noticed.
pub proof fn law_admitted_client_is_read(config: config::ConfigView)
    ensures
        admission(config, true) == (StepView::Read { limit: config.max_request_bytes + 1 }),
{
}

/// A query for a served host is looked up for its own user, with the plan exactly
/// where it asks for it.
pub proof fn law_served_query_is_looked_up(
    config: config::ConfigView,
    line: Seq<u8>,
    query: QueryView,
    host: Seq<char>,
)
    requires
        0 < line.len() <= config.max_request_bytes,
        query::read_query(line) == Ok::<QueryView, QueryErrorView>(query),
        query.host == Some(host) || (query.host is None && host == config.default_host),
    ensures
        config.allowed_hosts.contains(host) ==> reception(config, line) == (StepView::Load {
            user: query.user,
            include_plan: query.verbose,
        }),
        !config.allowed_hosts.contains(host) ==> reception(config, line) == StepView::Reply(
            framing::framed("fingermouse: host not served here"@),
        ),
{
}

/// A found record is answered with its profile, and with its plan where that is asked
/// for; a missing one and a failure with one line each.
pub proof fn law_lookups_are_answered(
    include_plan: bool,
    record: RecordView,
    err: RepositoryErrorView,
)
    ensures
        answer(include_plan, Ok(record)) == framing::framed_lines(
            user::profile_lines(record.profile, include_plan, record.plan),
        ),
        answer(include_plan, Err(RepositoryErrorView::NotFound)) == framing::framed(
            "fingermouse: no matching record"@,
        ),
        !(err is NotFound) ==> answer(include_plan, Err(err)) == framing::framed(
            "fingermouse: request refused"@,
        ),
{
}

/// What a request of bad length comes to, and one that reads as no query.
pub proof fn law_bad_requests(config: config::ConfigView, line: Seq<u8>)
    ensures
        line.len() == 0 ==> reception(config, line) == StepView::Close(ReadError::ConnectionClosed),
        line.len() > 0 && line.len() > config.max_request_bytes ==> reception(config, line)
            == StepView::Close(ReadError::RequestTooLarge),
        0 < line.len() <= config.max_request_bytes && query::read_query(line) is Err ==> reception(
            config,
            line,
        ) == StepView::Reply(framing::framed("fingermouse: request refused"@)),
        admission(config, false) == StepView::Reply(framing::framed("fingermouse: slow down"@)),
{
}

/// What is said of a step is said of all that it holds.
pub proof fn law_steps_are_seen_whole(
    limit: u64,
    username: Username,
    include_plan: bool,
    payload: Vec<u8>,
    err: ReadError,
)
    ensures
        (Step::Read { limit })@ == (StepView::Read { limit: limit as int }),
        (Step::Load { username, include_plan })@ == (StepView::Load {
            user: username@,
            include_plan,
        }),
        Step::Reply(payload)@ == StepView::Reply(payload@),
        Step::Close(err)@ == StepView::Close(err),
{
}

} // verus!
