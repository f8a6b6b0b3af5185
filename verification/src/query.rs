//! Parser for the finger protocol query line.
use crate::framing::{CR, LF};
use crate::identity;
use crate::identity::{HostName, IdentityError, Username};
use crate::text;
use vstd::prelude::*;
use vstd::utf8::*;

verus! {

/// Parsed representation of a finger query.
#[derive(Debug, PartialEq, Eq)]
pub struct FingerQuery {
    pub username: Username,
    pub host: Option<HostName>,
    pub verbose: bool,
}

/// What a query asks for: whom, at which host if one is named, and whether the
/// long form is wanted.
pub struct QueryView {
    pub user: Seq<char>,
    pub host: Option<Seq<char>>,
    pub verbose: bool,
}

impl View for FingerQuery {
    type V = QueryView;

    open spec fn view(&self) -> QueryView {
        QueryView {
            user: self.username@,
            host: match self.host {
                Some(host) => Some(host@),
                None => None,
            },
            verbose: self.verbose,
        }
    }
}

impl Clone for FingerQuery {
    fn clone(&self) -> (r: Self)
        ensures
            r@ == self@,
    {
        FingerQuery {
            username: self.username.clone(),
            host: match &self.host {
                Some(host) => Some(host.clone()),
                None => None,
            },
            verbose: self.verbose,
        }
    }
}

/// Errors that may be encountered when parsing a finger query.
#[derive(Debug, PartialEq, Eq)]
pub enum QueryError {
    MissingCrlf,
    ControlCharacter,
    MissingUsername,
    UnknownOption,
    TrailingInput,
    InvalidUsername(String),
    InvalidHostname(String),
    InvalidEncoding,
}

/// A query error with its message as a sequence of characters.
pub enum QueryErrorView {
    MissingCrlf,
    ControlCharacter,
    MissingUsername,
    UnknownOption,
    TrailingInput,
    InvalidUsername(Seq<char>),
    InvalidHostname(Seq<char>),
    InvalidEncoding,
}

impl View for QueryError {
    type V = QueryErrorView;

    open spec fn view(&self) -> QueryErrorView {
        match self {
            QueryError::MissingCrlf => QueryErrorView::MissingCrlf,
            QueryError::ControlCharacter => QueryErrorView::ControlCharacter,
            QueryError::MissingUsername => QueryErrorView::MissingUsername,
            QueryError::UnknownOption => QueryErrorView::UnknownOption,
            QueryError::TrailingInput => QueryErrorView::TrailingInput,
            QueryError::InvalidUsername(message) => QueryErrorView::InvalidUsername(message@),
            QueryError::InvalidHostname(message) => QueryErrorView::InvalidHostname(message@),
            QueryError::InvalidEncoding => QueryErrorView::InvalidEncoding,
        }
    }
}

impl QueryErrorView {
    /// The message for this error.
    pub open spec fn text(self) -> Seq<char> {
        match self {
            QueryErrorView::MissingCrlf => "request must terminate with CRLF"@,
            QueryErrorView::ControlCharacter =>
                "query may not contain embedded control characters"@,
            QueryErrorView::MissingUsername => "query must specify a username"@,
            QueryErrorView::UnknownOption => "unrecognised option"@,
            QueryErrorView::TrailingInput => "unexpected trailing input"@,
            QueryErrorView::InvalidUsername(message) => "invalid username: "@ + message,
            QueryErrorView::InvalidHostname(message) => "invalid hostname: "@ + message,
            QueryErrorView::InvalidEncoding => "query contains invalid UTF-8"@,
        }
    }
}

impl QueryError {
    /// The message for this error.
    pub fn message(&self) -> (r: String)
        ensures
            r@ == self@.text(),
    {
        match self {
            QueryError::MissingCrlf => "request must terminate with CRLF".to_owned(),
            QueryError::ControlCharacter =>
                "query may not contain embedded control characters".to_owned(),
            QueryError::MissingUsername => "query must specify a username".to_owned(),
            QueryError::UnknownOption => "unrecognised option".to_owned(),
            QueryError::TrailingInput => "unexpected trailing input".to_owned(),
            QueryError::InvalidUsername(message) => text::joined(
                "invalid username: ",
                message.as_str(),
            ),
            QueryError::InvalidHostname(message) => text::joined(
                "invalid hostname: ",
                message.as_str(),
            ),
            QueryError::InvalidEncoding => "query contains invalid UTF-8".to_owned(),
        }
    }
}

/// Whether a byte is a control character other than CR and LF.
pub open spec fn embedded_control(b: u8) -> bool {
    b < 0x20 && b != CR && b != LF
}

/// The text between the start of a request line and its CRLF, or why there is none.
pub open spec fn request_text(line: Seq<u8>) -> Result<Seq<char>, QueryErrorView> {
    let n = line.len() - 2;
    if !valid_utf8(line) {
        Err(QueryErrorView::InvalidEncoding)
    } else if n < 0 || line[n] != CR || line[n + 1] != LF {
        Err(QueryErrorView::MissingCrlf)
    } else if exists|i: int| 0 <= i < n && embedded_control(#[trigger] line[i]) {
        Err(QueryErrorView::ControlCharacter)
    } else {
        Ok(decode_utf8(line.take(n)))
    }
}

/// Whether a word is the flag for the long form, in either case.
pub open spec fn verbose_flag(word: Seq<char>) -> bool {
    word.len() == 2 && word[0] == '/' && (word[1] == 'W' || word[1] == 'w')
}

/// Why a word cannot stand for the user, if it cannot.
pub open spec fn target_error(word: Seq<char>) -> Option<QueryErrorView> {
    if word.len() == 0 {
        Some(QueryErrorView::MissingUsername)
    } else if word[0] == '/' {
        Some(QueryErrorView::UnknownOption)
    } else {
        None
    }
}

/// What the words of a query say before the user is looked at: whether the long
/// form is wanted, and which word (by its position) stands for the user.
pub open spec fn query_head(words: Seq<Seq<char>>) -> Result<(bool, int), QueryErrorView> {
    if words.len() == 0 {
        Err(QueryErrorView::MissingUsername)
    } else {
        let verbose = verbose_flag(words[0]);
        let at: int = if verbose {
            1
        } else {
            0
        };
        if at >= words.len() {
            Err(QueryErrorView::MissingUsername)
        } else {
            match target_error(words[at]) {
                Some(err) => Err(err),
                None => Ok((verbose, at)),
            }
        }
    }
}

/// The user and the host that a word names: what stands before the first `@`, and
/// what stands between the first and the second, if that is not empty.
pub open spec fn user_and_host(word: Seq<char>) -> Result<
    (Seq<char>, Option<Seq<char>>),
    QueryErrorView,
> {
    let parts = text::split(word, '@');
    if parts[0].len() == 0 {
        Err(QueryErrorView::MissingUsername)
    } else {
        match identity::parse_username(parts[0]) {
            Err(err) => Err(QueryErrorView::InvalidUsername(err.text())),
            Ok(user) => if parts.len() < 2 || parts[1].len() == 0 {
                Ok((user, None))
            } else {
                match identity::parse_hostname(parts[1]) {
                    Err(err) => Err(QueryErrorView::InvalidHostname(err.text())),
                    Ok(host) => Ok((user, Some(host))),
                }
            },
        }
    }
}

/// What the words of a query ask for, or why they ask for nothing.
pub open spec fn read_words(words: Seq<Seq<char>>) -> Result<QueryView, QueryErrorView> {
    match query_head(words) {
        Err(err) => Err(err),
        Ok((verbose, at)) => if at + 1 < words.len() {
            Err(QueryErrorView::TrailingInput)
        } else {
            match user_and_host(words[at]) {
                Err(err) => Err(err),
                Ok((user, host)) => Ok(QueryView { user, host, verbose }),
            }
        },
    }
}

/// What a request line asks for, or why it asks for nothing.
pub open spec fn read_query(line: Seq<u8>) -> Result<QueryView, QueryErrorView> {
    match request_text(line) {
        Err(err) => Err(err),
        Ok(body) => read_words(text::words(body)),
    }
}

/// Whether a byte is a control character that may not stand inside a query.
fn is_embedded_control_char(b: u8) -> (r: bool)
    ensures
        r == embedded_control(b),
{
    b < 0x20 && b != CR && b != LF
}

/// Strip framing and validate the raw query input.
fn validate_input(line: &[u8]) -> (r: Result<&str, QueryError>)
    ensures
        match r {
            Ok(body) => request_text(line@) == Ok::<Seq<char>, QueryErrorView>(body@),
            Err(err) => request_text(line@) == Err::<Seq<char>, QueryErrorView>(err@),
        },
{
    let raw = match core::str::from_utf8(line) {
        Ok(raw) => raw,
        Err(_) => {
            return Err(QueryError::InvalidEncoding);
        },
    };
    let len = line.len();
    if len < 2 || line[len - 2] != CR || line[len - 1] != LF {
        return Err(QueryError::MissingCrlf);
    }
    let mut at: usize = 0;
    while at < len - 2
        invariant
            at <= len - 2,
            len == line@.len(),
            len >= 2,
            valid_utf8(line@),
            line@[len - 2] == CR,
            line@[len - 1] == LF,
            forall|i: int| 0 <= i < at ==> !embedded_control(#[trigger] line@[i]),
        decreases len - at,
    {
        if is_embedded_control_char(line[at]) {
            return Err(QueryError::ControlCharacter);
        }
        at += 1;
    }
    proof {
        is_char_boundary_iff_not_is_continuation_byte(line@, len - 2);
    }
    let (body, _) = raw.split_at(len - 2);
    proof {
        assert(line@.subrange(0, len - 2) =~= line@.take(len - 2));
        encode_utf8_decode_utf8(body@);
    }
    Ok(body)
}

/// Check that a word can stand for the user.
fn ensure_target(word: &str) -> (r: Result<(), QueryError>)
    ensures
        match r {
            Ok(_) => target_error(word@) is None,
            Err(err) => target_error(word@) == Some(err@),
        },
{
    if word.is_empty() {
        return Err(QueryError::MissingUsername);
    }
    if word.get_char(0) == '/' {
        return Err(QueryError::UnknownOption);
    }
    Ok(())
}

/// Parse the optional `/W` verbose flag and find the word that stands for the user.
fn parse_verbose_flag(words: &Vec<String>) -> (r: Result<(bool, usize), QueryError>)
    ensures
        match r {
            Ok((verbose, at)) => query_head(text::texts(words@)) == Ok::<
                (bool, int),
                QueryErrorView,
            >((verbose, at as int)),
            Err(err) => query_head(text::texts(words@)) == Err::<(bool, int), QueryErrorView>(err@),
        },
{
    if words.len() == 0 {
        return Err(QueryError::MissingUsername);
    }
    let first = words[0].as_str();
    assert(first@ == text::texts(words@)[0]);
    let verbose = first.unicode_len() == 2 && first.get_char(0) == '/' && (first.get_char(1) == 'W'
        || first.get_char(1) == 'w');
    let at: usize = if verbose {
        1
    } else {
        0
    };
    if at >= words.len() {
        return Err(QueryError::MissingUsername);
    }
    assert(words@[at as int]@ == text::texts(words@)[at as int]);
    match ensure_target(words[at].as_str()) {
        Ok(()) => Ok((verbose, at)),
        Err(err) => Err(err),
    }
}

/// Parse the username and optional host fragment from the provided token.
pub fn parse_user_host(user_token: &str) -> (r: Result<(Username, Option<HostName>), QueryError>)
    ensures
        match r {
            Ok((user, host)) => user_and_host(user_token@) == Ok::<
                (Seq<char>, Option<Seq<char>>),
                QueryErrorView,
            >(
                (
                    user@,
                    match host {
                        Some(host) => Some(host@),
                        None => None,
                    },
                ),
            ),
            Err(err) => user_and_host(user_token@) == Err::<
                (Seq<char>, Option<Seq<char>>),
                QueryErrorView,
            >(err@),
        },
{
    let parts = text::split_str(user_token, '@');
    let ghost pieces = text::texts(parts@);
    assert(pieces.len() > 0);
    assert(forall|i: int| 0 <= i < parts@.len() ==> pieces[i] == (#[trigger] parts@[i])@);
    let user = parts[0].as_str();
    if user.is_empty() {
        return Err(QueryError::MissingUsername);
    }
    let username = match Username::parse(user) {
        Ok(username) => username,
        Err(err) => {
            return Err(QueryError::InvalidUsername(format_error(&err)));
        },
    };
    if parts.len() < 2 || parts[1].as_str().is_empty() {
        return Ok((username, None));
    }
    match HostName::parse(parts[1].as_str()) {
        Ok(host) => Ok((username, Some(host))),
        Err(err) => Err(QueryError::InvalidHostname(format_error(&err))),
    }
}

/// Parse the supplied query line into a [`FingerQuery`].
pub fn parse(line: &[u8]) -> (r: Result<FingerQuery, QueryError>)
    ensures
        match r {
            Ok(query) => read_query(line@) == Ok::<QueryView, QueryErrorView>(query@),
            Err(err) => read_query(line@) == Err::<QueryView, QueryErrorView>(err@),
        },
{
    let raw = match validate_input(line) {
        Ok(raw) => raw,
        Err(err) => {
            return Err(err);
        },
    };
    let words = text::words_of(raw);
    let (verbose, at) = match parse_verbose_flag(&words) {
        Ok(head) => head,
        Err(err) => {
            return Err(err);
        },
    };
    if at + 1 < words.len() {
        return Err(QueryError::TrailingInput);
    }
    assert(words@[at as int]@ == text::texts(words@)[at as int]);
    match parse_user_host(words[at].as_str()) {
        Ok((username, host)) => Ok(FingerQuery { username, host, verbose }),
        Err(err) => Err(err),
    }
}

/// The message for an identity error.
fn format_error(err: &IdentityError) -> (r: String)
    ensures
        r@ == err.text(),
{
    err.message()
}

impl FingerQuery {
    /// The host as it is shown: its name, or `<default>` where the query names none.
    pub fn host_display(&self) -> (r: &str)
        ensures
            r@ == (match self@.host {
                Some(host) => host,
                None => "<default>"@,
            }),
    {
        match &self.host {
            Some(host) => host.as_str(),
            None => "<default>",
        }
    }

    /// The query as it is shown in logs.
    pub fn to_text(&self) -> (r: String)
        ensures
            r@ == self@.user + "@"@ + (match self@.host {
                Some(host) => host,
                None => "<default>"@,
            }),
    {
        let mut out = self.username.as_str().to_owned();
        out.append("@");
        out.append(self.host_display());
        out
    }
}

/// The words of a text decide what it asks for: white space around them and the
/// amount of it between them do not matter.
pub proof fn law_white_space_does_not_matter(
    lead: Seq<char>,
    a: Seq<char>,
    gap1: Seq<char>,
    gap2: Seq<char>,
    b: Seq<char>,
    trail: Seq<char>,
)
    requires
        gap1.len() > 0,
        gap2.len() > 0,
        forall|i: int| 0 <= i < lead.len() ==> text::white_space(#[trigger] lead[i]),
        forall|i: int| 0 <= i < gap1.len() ==> text::white_space(#[trigger] gap1[i]),
        forall|i: int| 0 <= i < gap2.len() ==> text::white_space(#[trigger] gap2[i]),
        forall|i: int| 0 <= i < trail.len() ==> text::white_space(#[trigger] trail[i]),
    ensures
        read_words(text::words(lead + a + gap1 + b + trail)) == read_words(
            text::words(a + gap2 + b),
        ),
{
    let none = Seq::<char>::empty();
    let middle = a + gap1 + b;
    let full = lead + a + gap1 + b + trail;
    text::lemma_words_around_space(a, gap1, b);
    text::lemma_words_around_space(a, gap2, b);
    assert(text::words(none) =~= Seq::<Seq<char>>::empty());
    let body = lead + middle;
    if lead.len() > 0 {
        assert(body =~= none + lead + middle);
        text::lemma_words_around_space(none, lead, middle);
    } else {
        assert(body =~= middle);
    }
    assert(text::words(body) =~= text::words(middle));
    assert(full =~= body + trail);
    if trail.len() > 0 {
        assert(full =~= body + trail + none);
        text::lemma_words_around_space(body, trail, none);
    } else {
        assert(full =~= body);
    }
    assert(text::words(full) =~= text::words(body));
}

/// The words of a query mean the same in lower case.
proof fn lemma_words_in_lower_case(body: Seq<char>)
    ensures
        read_words(text::words(text::lower(body))) == read_words(text::words(body)),
{
    let words = text::words(body);
    let low = text::words(text::lower(body));
    text::lemma_words_lower(body);
    assert(low.len() == words.len());
    assert(forall|i: int| 0 <= i < words.len() ==> #[trigger] low[i] == text::lower(words[i]));
    if words.len() > 0 {
        assert(verbose_flag(low[0]) == verbose_flag(words[0]));
    }
    if let Ok((_, at)) = query_head(words) {
        let word = words[at];
        let parts = text::split(word, '@');
        text::lemma_split_lower(word, '@');
        let low_parts = text::split(text::lower(word), '@');
        assert(low_parts[0] == text::lower(parts[0]));
        identity::law_username_ignores_case(parts[0]);
        if parts.len() >= 2 {
            assert(low_parts[1] == text::lower(parts[1]));
            identity::law_hostname_ignores_case(parts[1]);
        }
    }
}

/// Letters may stand in either case: request lines that differ in nothing else ask
/// the same, or are wrong in the same way. So a line asks the same in lower case and
/// in upper case.
pub proof fn law_case_does_not_matter(line: Seq<u8>, other: Seq<u8>)
    ensures
        text::lower_bytes(line) == text::lower_bytes(other) ==> read_query(line) == read_query(other),
        read_query(text::lower_bytes(line)) == read_query(line),
        read_query(text::upper_bytes(line)) == read_query(line),
{
    lemma_line_in_lower_case(line);
    lemma_line_in_lower_case(other);
    lemma_line_in_lower_case(text::upper_bytes(line));
    assert(text::lower_bytes(text::upper_bytes(line)) =~= text::lower_bytes(line));
}

/// A request line asks the same in lower case.
proof fn lemma_line_in_lower_case(line: Seq<u8>)
    ensures
        read_query(text::lower_bytes(line)) == read_query(line),
{
    let low = text::lower_bytes(line);
    let n = line.len() - 2;
    text::lemma_valid_lower(line);
    if valid_utf8(line) && n >= 0 && line[n] == CR && line[n + 1] == LF {
        assert(forall|i: int|
            0 <= i < line.len() ==> embedded_control(#[trigger] low[i]) == embedded_control(line[i]));
        if exists|i: int| 0 <= i < n && embedded_control(#[trigger] line[i]) {
            let i = choose|i: int| 0 <= i < n && embedded_control(#[trigger] line[i]);
            assert(embedded_control(low[i]));
        } else {
            let body = line.take(n);
            is_char_boundary_iff_not_is_continuation_byte(line, n);
            valid_utf8_split(line, n);
            assert(line.subrange(0, n) =~= body);
            text::lemma_decode_lower(body);
            assert(low.take(n) =~= text::lower_bytes(body));
            lemma_words_in_lower_case(decode_utf8(body));
        }
    }
}

/// A query that is accepted names a canonical user and, if any, a canonical host.
pub proof fn law_accepted_query_is_canonical(line: Seq<u8>)
    ensures
        read_query(line) matches Ok(query) ==> {
            &&& identity::valid_username(query.user)
            &&& query.host matches Some(host) ==> identity::valid_hostname(host)
        },
{
    if let Ok(body) = request_text(line) {
        let words = text::words(body);
        if let Ok((_, at)) = query_head(words) {
            let parts = text::split(words[at], '@');
            identity::law_accepted_username_is_canonical(parts[0]);
            identity::law_accepted_hostname_is_canonical(parts[1]);
        }
    }
}

/// The plain way to write a query down.
pub open spec fn query_text(query: QueryView) -> Seq<char> {
    let flag = if query.verbose {
        seq!['/', 'W', ' ']
    } else {
        seq![]
    };
    flag + query_target(query)
}

/// The word that names the user and the host of a query.
pub open spec fn query_target(query: QueryView) -> Seq<char> {
    match query.host {
        Some(host) => query.user + seq!['@'] + host,
        None => query.user,
    }
}

/// Every query about a canonical user at a canonical host can be asked: the line
/// that writes it down reads back as that query.
pub proof fn law_written_query_reads_back(query: QueryView)
    requires
        identity::valid_username(query.user),
        query.host matches Some(host) ==> identity::valid_hostname(host),
    ensures
        read_query(encode_utf8(query_text(query)) + seq![CR, LF]) == Ok::<
            QueryView,
            QueryErrorView,
        >(query),
{
    let target = query_target(query);
    let written = query_text(query);
    let line = encode_utf8(written) + seq![CR, LF];
    identity::law_username_is_a_plain_word(query.user);
    if let Some(host) = query.host {
        identity::law_hostname_is_plain(host);
    }
    lemma_target_reads_back(query);
    assert(forall|i: int| 0 <= i < target.len() ==> ' ' < #[trigger] target[i] <= 'z');
    assert(is_ascii_chars(written));
    is_ascii_chars_encode_utf8(written);
    assert(line.take(written.len() as int) =~= encode_utf8(written));
    encode_utf8_decode_utf8(written);
    assert(valid_utf8(line)) by {
        let ends = seq!['\r', '\n'];
        assert(is_ascii_chars(ends));
        is_ascii_chars_encode_utf8(ends);
        assert(encode_utf8(ends) =~= seq![CR, LF]);
        text::lemma_encode_concat(written, ends);
        encode_utf8_valid_utf8(written + ends);
    }
    assert forall|i: int| 0 <= i < written.len() implies !embedded_control(#[trigger] line[i]) by {
        assert(line[i] == written[i] as u8);
        assert(' ' <= written[i] <= 'z');
    }
    assert(request_text(line) == Ok::<Seq<char>, QueryErrorView>(written));
    text::lemma_words_single(target);
    if query.verbose {
        let flag = seq!['/', 'W'];
        assert(written =~= flag + seq![' '] + target);
        text::lemma_words_around_space(flag, seq![' '], target);
        text::lemma_words_single(flag);
        assert(text::words(written) =~= seq![flag, target]);
    } else {
        assert(written =~= target);
    }
}

/// The word that names a user and a host reads back as them.
proof fn lemma_target_reads_back(query: QueryView)
    requires
        identity::valid_username(query.user),
        query.host matches Some(host) ==> identity::valid_hostname(host),
    ensures
        user_and_host(query_target(query)) == Ok::<(Seq<char>, Option<Seq<char>>), QueryErrorView>(
            (query.user, query.host),
        ),
        query_target(query).len() > 0,
        query_target(query)[0] == query.user[0],
        query.user[0] != '/',
{
    identity::law_username_is_a_plain_word(query.user);
    identity::lemma_valid_username_reads_as_itself(query.user);
    assert(query.user[0] != '/');
    match query.host {
        Some(host) => {
            identity::law_hostname_is_plain(host);
            identity::lemma_valid_hostname_reads_as_itself(host);
            text::lemma_split_front(query.user, host, '@');
            text::lemma_split_single(host, '@');
        },
        None => {
            text::lemma_split_single(query.user, '@');
        },
    }
}

/// Hosts behind the first one are ignored: a query asks the same with and without them.
pub proof fn law_later_hosts_are_ignored(user: Seq<char>, host: Seq<char>, rest: Seq<char>)
    requires
        forall|i: int| 0 <= i < user.len() ==> #[trigger] user[i] != '@',
        forall|i: int| 0 <= i < host.len() ==> #[trigger] host[i] != '@',
    ensures
        user_and_host(user + seq!['@'] + host + seq!['@'] + rest) == user_and_host(
            user + seq!['@'] + host,
        ),
{
    assert(user + seq!['@'] + host + seq!['@'] + rest =~= user + seq!['@'] + (host + seq!['@']
        + rest));
    text::lemma_split_front(user, host + seq!['@'] + rest, '@');
    text::lemma_split_front(host, rest, '@');
    text::lemma_split_front(user, host, '@');
    text::lemma_split_single(host, '@');
}

/// An empty host behind the user is no host: the query is for the default one.
pub proof fn law_empty_host_is_no_host(user: Seq<char>)
    requires
        forall|i: int| 0 <= i < user.len() ==> #[trigger] user[i] != '@',
    ensures
        user_and_host(user + seq!['@']) == user_and_host(user),
        user_and_host(user) matches Ok((_, host)) ==> host is None,
{
    let none = Seq::<char>::empty();
    assert(user + seq!['@'] + none =~= user + seq!['@']);
    text::lemma_split_front(user, none, '@');
    text::lemma_split_single(none, '@');
    text::lemma_split_single(user, '@');
}

/// The user is judged before the host: what is wrong with the user is reported
/// whatever stands behind the `@`, and what is wrong with the host only where the
/// user is good.
pub proof fn law_user_is_judged_before_the_host(user: Seq<char>, host: Seq<char>)
    requires
        forall|i: int| 0 <= i < user.len() ==> #[trigger] user[i] != '@',
        forall|i: int| 0 <= i < host.len() ==> #[trigger] host[i] != '@',
    ensures
        ({
            let asked = user_and_host(user + seq!['@'] + host);
            &&& user.len() == 0 ==> asked == Err::<
                (Seq<char>, Option<Seq<char>>),
                QueryErrorView,
            >(QueryErrorView::MissingUsername)
            &&& user.len() > 0 ==> match identity::parse_username(user) {
                Err(err) => asked == Err::<(Seq<char>, Option<Seq<char>>), QueryErrorView>(
                    QueryErrorView::InvalidUsername(err.text()),
                ),
                Ok(name) => if host.len() == 0 {
                    asked == Ok::<(Seq<char>, Option<Seq<char>>), QueryErrorView>((name, None))
                } else {
                    match identity::parse_hostname(host) {
                        Err(err) => asked == Err::<
                            (Seq<char>, Option<Seq<char>>),
                            QueryErrorView,
                        >(QueryErrorView::InvalidHostname(err.text())),
                        Ok(place) => asked == Ok::<
                            (Seq<char>, Option<Seq<char>>),
                            QueryErrorView,
                        >((name, Some(place))),
                    }
                },
            }
        }),
{
    text::lemma_split_front(user, host, '@');
    text::lemma_split_single(host, '@');
}

/// A request line is UTF-8 and ends with CRLF, and before that it holds no control
/// character but CR and LF. The text of such a line is what stands before the CRLF.
/// Any other line is rejected for the first of these that does not hold.
pub proof fn law_request_lines_end_with_crlf(line: Seq<u8>)
    ensures
        ({
            let n = line.len() - 2;
            let ended = n >= 0 && line[n] == 13 && line[n + 1] == 10;
            let clean = forall|i: int|
                0 <= i < n ==> #[trigger] line[i] >= 32 || line[i] == 13 || line[i] == 10;
            let read = request_text(line);
            &&& !valid_utf8(line) ==> read == Err::<Seq<char>, QueryErrorView>(
                QueryErrorView::InvalidEncoding,
            )
            &&& valid_utf8(line) && !ended ==> read == Err::<Seq<char>, QueryErrorView>(
                QueryErrorView::MissingCrlf,
            )
            &&& valid_utf8(line) && ended && !clean ==> read == Err::<Seq<char>, QueryErrorView>(
                QueryErrorView::ControlCharacter,
            )
            &&& valid_utf8(line) && ended && clean ==> (read matches Ok(body) && line
                == encode_utf8(body) + seq![13u8, 10u8])
        }),
{
    let n = line.len() - 2;
    if valid_utf8(line) && n >= 0 && line[n] == 13 && line[n + 1] == 10 {
        let clean = forall|i: int|
            0 <= i < n ==> #[trigger] line[i] >= 32 || line[i] == 13 || line[i] == 10;
        if clean {
            assert forall|i: int| 0 <= i < n implies !embedded_control(#[trigger] line[i]) by {}
        } else {
            let i = choose|i: int|
                0 <= i < n && !(#[trigger] line[i] >= 32 || line[i] == 13 || line[i] == 10);
            assert(embedded_control(line[i]));
        }
        is_char_boundary_iff_not_is_continuation_byte(line, n);
        valid_utf8_split(line, n);
        assert(line.subrange(0, n) =~= line.take(n));
        decode_utf8_encode_utf8(line.take(n));
        assert(line.take(n) + seq![13u8, 10u8] =~= line);
    }
}

/// What a word that names a user and perhaps a host asks for.
pub open spec fn asked(
    named: Result<(Seq<char>, Option<Seq<char>>), QueryErrorView>,
    verbose: bool,
) -> Result<QueryView, QueryErrorView> {
    match named {
        Ok((user, host)) => Ok(QueryView { user, host, verbose }),
        Err(err) => Err(err),
    }
}

/// A query is one word that names the user, or the word `/W` in either case and that
/// word. Without such a word, with another option, or with more words it is rejected.
pub proof fn law_query_is_a_flag_and_a_word(flag: Seq<char>, word: Seq<char>, rest: Seq<Seq<char>>)
    requires
        flag == seq!['/', 'W'] || flag == seq!['/', 'w'],
        word.len() > 0,
    ensures
        read_words(Seq::empty()) == Err::<QueryView, QueryErrorView>(
            QueryErrorView::MissingUsername,
        ),
        read_words(seq![flag]) == Err::<QueryView, QueryErrorView>(QueryErrorView::MissingUsername),
        word[0] != '/' ==> read_words(seq![word]) == asked(user_and_host(word), false),
        word[0] != '/' ==> read_words(seq![flag, word]) == asked(user_and_host(word), true),
        word[0] != '/' && rest.len() > 0 ==> read_words(seq![word] + rest) == Err::<
            QueryView,
            QueryErrorView,
        >(QueryErrorView::TrailingInput),
        word[0] != '/' && rest.len() > 0 ==> read_words(seq![flag, word] + rest) == Err::<
            QueryView,
            QueryErrorView,
        >(QueryErrorView::TrailingInput),
        word[0] == '/' ==> read_words(seq![flag, word] + rest) == Err::<QueryView, QueryErrorView>(
            QueryErrorView::UnknownOption,
        ),
        word[0] == '/' && word != seq!['/', 'W'] && word != seq!['/', 'w'] ==> read_words(
            seq![word] + rest,
        ) == Err::<QueryView, QueryErrorView>(QueryErrorView::UnknownOption),
{
    assert(verbose_flag(flag));
    if word[0] == '/' && word != seq!['/', 'W'] && word != seq!['/', 'w'] {
        assert(!verbose_flag(word)) by {
            if verbose_flag(word) {
                if word[1] == 'W' {
                    assert(word =~= seq!['/', 'W']);
                } else {
                    assert(word =~= seq!['/', 'w']);
                }
            }
        }
    }
    assert((seq![word] + rest)[0] == word);
    assert((seq![flag, word] + rest)[0] == flag);
    assert((seq![flag, word] + rest)[1] == word);
}

/// What a request line asks for is what the words of its text ask for.
pub proof fn law_line_asks_what_its_words_ask(body: Seq<char>)
    ensures
        ({
            let line = encode_utf8(body) + seq![13u8, 10u8];
            (forall|i: int|
                0 <= i < line.len() - 2 ==> #[trigger] line[i] >= 32 || line[i] == 13 || line[i]
                    == 10) ==> read_query(line) == read_words(text::words(body))
        }),
{
    let line = encode_utf8(body) + seq![13u8, 10u8];
    let ends = seq!['\r', '\n'];
    assert(is_ascii_chars(ends));
    is_ascii_chars_encode_utf8(ends);
    assert(encode_utf8(ends) =~= seq![13u8, 10u8]);
    text::lemma_encode_concat(body, ends);
    encode_utf8_valid_utf8(body + ends);
    encode_utf8_decode_utf8(body);
    law_request_lines_end_with_crlf(line);
    assert(line.take(line.len() - 2) =~= encode_utf8(body));
}

/// Descriptions of bad names carry what is wrong with them.
pub proof fn law_query_errors_name_their_cause(message: Seq<char>)
    ensures
        QueryErrorView::InvalidUsername(message).text() == "invalid username: "@ + message,
        QueryErrorView::InvalidHostname(message).text() == "invalid hostname: "@ + message,
{
}

/// What is said of a query or of an error is said of all that it holds.
pub proof fn law_query_is_seen_whole(query: FingerQuery, message: String)
    ensures
        query@.user == query.username@,
        query@.verbose == query.verbose,
        query.host matches Some(host) ==> query@.host == Some(host@),
        query.host is None ==> query@.host is None,
        QueryError::InvalidUsername(message)@ == QueryErrorView::InvalidUsername(message@),
        QueryError::InvalidHostname(message)@ == QueryErrorView::InvalidHostname(message@),
{
}

} // verus!
