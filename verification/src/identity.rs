//! Identity types for fingermouse queries.
use crate::text;
use crate::text::CharClass;
use vstd::prelude::*;
use vstd::utf8::*;

verus! {

/// Why a username or a hostname was rejected.
#[derive(Debug, Clone, Copy, PartialEq, Eq, Structural)]
pub enum IdentityError {
    UsernameLength { max: usize },
    UsernameCharacters,
    HostLength { max: usize },
    HostCharacters,
    HostLabelHyphen,
    HostEmptyLabel,
}

impl IdentityError {
    /// The message for this error.
    pub open spec fn text(self) -> Seq<char> {
        match self {
            IdentityError::UsernameLength { max } => "username must be between 1 and "@
                + text::decimal(max as nat) + " characters"@,
            IdentityError::UsernameCharacters =>
                "username may only contain ASCII letters, digits, hyphen, or underscore"@,
            IdentityError::HostLength { max } => "hostname must be between 1 and "@ + text::decimal(
                max as nat,
            ) + " characters"@,
            IdentityError::HostCharacters => "hostname contains invalid characters"@,
            IdentityError::HostLabelHyphen =>
                "hostname labels must not begin or end with a hyphen"@,
            IdentityError::HostEmptyLabel => "hostname has empty label"@,
        }
    }

    /// The message for this error.
    pub fn message(&self) -> (r: String)
        ensures
            r@ == self.text(),
    {
        match self {
            IdentityError::UsernameLength { max } => range_message(
                "username must be between 1 and ",
                *max,
            ),
            IdentityError::UsernameCharacters =>
                "username may only contain ASCII letters, digits, hyphen, or underscore".to_owned(),
            IdentityError::HostLength { max } => range_message(
                "hostname must be between 1 and ",
                *max,
            ),
            IdentityError::HostCharacters => "hostname contains invalid characters".to_owned(),
            IdentityError::HostLabelHyphen =>
                "hostname labels must not begin or end with a hyphen".to_owned(),
            IdentityError::HostEmptyLabel => "hostname has empty label".to_owned(),
        }
    }
}

/// A message about a range of lengths that ends at `max`.
fn range_message(lead: &str, max: usize) -> (r: String)
    ensures
        r@ == lead@ + text::decimal(max as nat) + " characters"@,
{
    let mut out = lead.to_owned();
    out.append(text::to_decimal(max).as_str());
    out.append(" characters");
    out
}

/// Whether a character may stand in a username.
pub open spec fn username_char(c: char) -> bool {
    ||| 'a' <= c <= 'z'
    ||| 'A' <= c <= 'Z'
    ||| '0' <= c <= '9'
    ||| c == '-'
    ||| c == '_'
}

/// Whether a character may stand in a hostname label.
pub open spec fn label_char(c: char) -> bool {
    ||| 'a' <= c <= 'z'
    ||| 'A' <= c <= 'Z'
    ||| '0' <= c <= '9'
    ||| c == '-'
}

/// Whether `s` is a username in its canonical form.
pub open spec fn valid_username(s: Seq<char>) -> bool {
    &&& 0 < s.len() <= 32
    &&& forall|i: int| 0 <= i < s.len() ==> username_char(#[trigger] s[i])
    &&& text::lower(s) == s
}

/// What a client's input says about the user: the canonical username, or why it is none.
pub open spec fn parse_username(input: Seq<char>) -> Result<Seq<char>, IdentityError> {
    let trimmed = text::trim(input, CharClass::White);
    if trimmed.len() == 0 || encode_utf8(trimmed).len() > 32 {
        Err(IdentityError::UsernameLength { max: 32 })
    } else if forall|i: int| 0 <= i < trimmed.len() ==> username_char(#[trigger] trimmed[i]) {
        Ok(text::lower(trimmed))
    } else {
        Err(IdentityError::UsernameCharacters)
    }
}

/// Why a hostname label is rejected, if it is.
pub open spec fn label_error(label: Seq<char>) -> Option<IdentityError> {
    if label.len() == 0 {
        Some(IdentityError::HostEmptyLabel)
    } else if label.first() == '-' || label.last() == '-' {
        Some(IdentityError::HostLabelHyphen)
    } else if exists|i: int| 0 <= i < label.len() && !label_char(#[trigger] label[i]) {
        Some(IdentityError::HostCharacters)
    } else {
        None
    }
}

/// Why the first rejected label among `labels` is rejected, if one is.
pub open spec fn first_label_error(labels: Seq<Seq<char>>) -> Option<IdentityError>
    decreases labels.len(),
{
    if labels.len() == 0 {
        None
    } else if label_error(labels.first()) is Some {
        label_error(labels.first())
    } else {
        first_label_error(labels.drop_first())
    }
}

/// Whether `s` is a hostname in its canonical form.
pub open spec fn valid_hostname(s: Seq<char>) -> bool {
    &&& 0 < s.len() <= 253
    &&& first_label_error(text::split(s, '.')) is None
    &&& text::lower(s) == s
}

/// What a client's input says about the host: the canonical hostname, or why it is none.
pub open spec fn parse_hostname(input: Seq<char>) -> Result<Seq<char>, IdentityError> {
    let trimmed = text::trim(input, CharClass::White);
    if trimmed.len() == 0 || encode_utf8(trimmed).len() > 253 {
        Err(IdentityError::HostLength { max: 253 })
    } else {
        match first_label_error(text::split(trimmed, '.')) {
            Some(err) => Err(err),
            None => Ok(text::lower(trimmed)),
        }
    }
}

/// A username in canonical form.
#[derive(Debug, Hash)]
pub struct Username(String);

impl View for Username {
    type V = Seq<char>;

    closed spec fn view(&self) -> Seq<char> {
        self.0@
    }
}

impl Clone for Username {
    fn clone(&self) -> (r: Self)
        ensures
            r@ == self@,
    {
        proof {
            use_type_invariant(self);
        }
        Username(self.0.clone())
    }
}

impl vstd::std_specs::cmp::PartialEqSpecImpl for Username {
    open spec fn obeys_eq_spec() -> bool {
        true
    }

    open spec fn eq_spec(&self, other: &Username) -> bool {
        self@ == other@
    }
}

impl PartialEq for Username {
    fn eq(&self, other: &Username) -> (r: bool) {
        self.0 == other.0
    }
}

impl Eq for Username {

}

impl Username {
    /// Longest accepted username, in bytes.
    pub const MAX_LEN: usize = 32;

    #[verifier::type_invariant]
    spec fn canonical(&self) -> bool {
        valid_username(self@)
    }

    /// Read a username from client input: surrounding white space is dropped and
    /// letters are brought to lower case.
    pub fn parse(input: &str) -> (r: Result<Username, IdentityError>)
        ensures
            match r {
                Ok(user) => parse_username(input@) == Ok::<Seq<char>, IdentityError>(user@),
                Err(err) => parse_username(input@) == Err::<Seq<char>, IdentityError>(err),
            },
    {
        let trimmed = text::trim_str(input, CharClass::White);
        if trimmed.is_empty() || trimmed.as_bytes().len() > Self::MAX_LEN {
            return Err(IdentityError::UsernameLength { max: Self::MAX_LEN });
        }
        for c in iter: trimmed.chars()
            invariant
                iter.seq() == trimmed@,
                trimmed@ == text::trim(input@, CharClass::White),
                trimmed@.len() > 0,
                encode_utf8(trimmed@).len() <= 32,
                forall|i: int| 0 <= i < iter.index() ==> username_char(#[trigger] trimmed@[i]),
        {
            if !is_username_char(c) {
                assert(!username_char(trimmed@[iter.index()]));
                return Err(IdentityError::UsernameCharacters);
            }
        }
        proof {
            lemma_canonical_username(trimmed@);
        }
        Ok(Username(text::lower_str(trimmed)))
    }

    /// The username as text.
    pub fn as_str(&self) -> (r: &str)
        ensures
            r@ == self@,
            valid_username(r@),
    {
        proof {
            use_type_invariant(self);
        }
        self.0.as_str()
    }
}

/// Whether a character may stand in a username.
fn is_username_char(c: char) -> (r: bool)
    ensures
        r == username_char(c),
{
    ('a' <= c && c <= 'z') || ('A' <= c && c <= 'Z') || ('0' <= c && c <= '9') || c == '-' || c
        == '_'
}

/// Whether a character may stand in a hostname label.
fn is_label_char(c: char) -> (r: bool)
    ensures
        r == label_char(c),
{
    ('a' <= c && c <= 'z') || ('A' <= c && c <= 'Z') || ('0' <= c && c <= '9') || c == '-'
}

/// Text made of username characters is as long in bytes as in characters, and its
/// lower-case form is canonical.
proof fn lemma_canonical_username(s: Seq<char>)
    requires
        s.len() > 0,
        encode_utf8(s).len() <= 32,
        forall|i: int| 0 <= i < s.len() ==> username_char(#[trigger] s[i]),
    ensures
        valid_username(text::lower(s)),
{
    assert(is_ascii_chars(s));
    is_ascii_chars_encode_utf8(s);
    assert(text::lower(text::lower(s)) =~= text::lower(s));
}

/// A hostname in canonical form.
#[derive(Debug, Hash)]
pub struct HostName(String);

impl View for HostName {
    type V = Seq<char>;

    closed spec fn view(&self) -> Seq<char> {
        self.0@
    }
}

impl Clone for HostName {
    fn clone(&self) -> (r: Self)
        ensures
            r@ == self@,
    {
        proof {
            use_type_invariant(self);
        }
        HostName(self.0.clone())
    }
}

impl vstd::std_specs::cmp::PartialEqSpecImpl for HostName {
    open spec fn obeys_eq_spec() -> bool {
        true
    }

    open spec fn eq_spec(&self, other: &HostName) -> bool {
        self@ == other@
    }
}

impl PartialEq for HostName {
    fn eq(&self, other: &HostName) -> (r: bool) {
        self.0 == other.0
    }
}

impl Eq for HostName {

}

impl HostName {
    /// Longest accepted hostname, in bytes.
    pub const MAX_LEN: usize = 253;

    #[verifier::type_invariant]
    spec fn canonical(&self) -> bool {
        valid_hostname(self@)
    }

    /// Read a hostname from client input: surrounding white space is dropped and
    /// letters are brought to lower case.
    pub fn parse(input: &str) -> (r: Result<HostName, IdentityError>)
        ensures
            match r {
                Ok(host) => parse_hostname(input@) == Ok::<Seq<char>, IdentityError>(host@),
                Err(err) => parse_hostname(input@) == Err::<Seq<char>, IdentityError>(err),
            },
    {
        let trimmed = text::trim_str(input, CharClass::White);
        if trimmed.is_empty() || trimmed.as_bytes().len() > Self::MAX_LEN {
            return Err(IdentityError::HostLength { max: Self::MAX_LEN });
        }
        let labels = text::split_str(trimmed, '.');
        let ghost all = text::texts(labels@);
        let mut at: usize = 0;
        assert(all.skip(0) == all);
        while at < labels.len()
            invariant
                at <= labels@.len(),
                all == text::texts(labels@),
                all == text::split(trimmed@, '.'),
                trimmed@ == text::trim(input@, CharClass::White),
                trimmed@.len() > 0,
                encode_utf8(trimmed@).len() <= 253,
                first_label_error(all.skip(at as int)) == first_label_error(all),
            decreases labels@.len() - at,
        {
            assert(all.skip(at as int).first() == labels@[at as int]@);
            assert(all.skip(at as int).drop_first() == all.skip(at + 1));
            match Self::validate_label(labels[at].as_str()) {
                Ok(()) => {},
                Err(err) => {
                    return Err(err);
                },
            }
            at += 1;
        }
        proof {
            lemma_canonical_hostname(trimmed@);
        }
        Ok(HostName(text::lower_str(trimmed)))
    }

    /// The hostname as text.
    pub fn as_str(&self) -> (r: &str)
        ensures
            r@ == self@,
            valid_hostname(r@),
    {
        proof {
            use_type_invariant(self);
        }
        self.0.as_str()
    }

    /// Check one label of a hostname.
    fn validate_label(label: &str) -> (r: Result<(), IdentityError>)
        ensures
            match r {
                Ok(_) => label_error(label@) is None,
                Err(err) => label_error(label@) == Some(err),
            },
    {
        let chars = text::to_chars(label);
        if chars.len() == 0 {
            return Err(IdentityError::HostEmptyLabel);
        }
        if chars[0] == '-' || chars[chars.len() - 1] == '-' {
            return Err(IdentityError::HostLabelHyphen);
        }
        let mut at: usize = 0;
        while at < chars.len()
            invariant
                at <= chars@.len(),
                chars@ == label@,
                chars@.len() > 0,
                chars@.first() != '-',
                chars@.last() != '-',
                forall|i: int| 0 <= i < at ==> label_char(#[trigger] chars@[i]),
            decreases chars@.len() - at,
        {
            if !is_label_char(chars[at]) {
                assert(!label_char(label@[at as int]));
                return Err(IdentityError::HostCharacters);
            }
            at += 1;
        }
        Ok(())
    }
}

/// Whether a character may stand in a hostname.
pub open spec fn hostname_char(c: char) -> bool {
    label_char(c) || c == '.'
}

/// A label is accepted in lower case if it is accepted as it stands.
proof fn lemma_label_lower(label: Seq<char>)
    ensures
        label_error(text::lower(label)) == label_error(label),
{
    let low = text::lower(label);
    if label.len() > 0 {
        assert(low.first() == '-' <==> label.first() == '-');
        assert(low.last() == '-' <==> label.last() == '-');
        assert(forall|i: int| 0 <= i < label.len() ==> label_char(#[trigger] low[i]) == label_char(label[i]));
        if exists|i: int| 0 <= i < label.len() && !label_char(#[trigger] label[i]) {
            let i = choose|i: int| 0 <= i < label.len() && !label_char(#[trigger] label[i]);
            assert(!label_char(low[i]));
        }
    }
}

/// The labels of a name in lower case are rejected just as those of the name are.
proof fn lemma_labels_lower(s: Seq<char>)
    ensures
        first_label_error(text::split(text::lower(s), '.')) == first_label_error(
            text::split(s, '.'),
        ),
    decreases s.len(),
{
    text::lemma_find_lower(s, '.');
    let n = text::find(s, '.');
    let low = text::lower(s);
    if n < s.len() {
        lemma_label_lower(s.take(n));
        assert(low.take(n) =~= text::lower(s.take(n)));
        lemma_labels_lower(s.skip(n + 1));
        assert(low.skip(n + 1) =~= text::lower(s.skip(n + 1)));
        assert(text::split(s, '.').drop_first() =~= text::split(s.skip(n + 1), '.'));
        assert(text::split(low, '.').drop_first() =~= text::split(low.skip(n + 1), '.'));
    } else {
        lemma_label_lower(s);
        assert(text::split(s, '.').drop_first() =~= Seq::<Seq<char>>::empty());
        assert(text::split(low, '.').drop_first() =~= Seq::<Seq<char>>::empty());
    }
}

/// A name whose labels are accepted is made of hostname characters.
proof fn lemma_hostname_chars(s: Seq<char>)
    requires
        first_label_error(text::split(s, '.')) is None,
    ensures
        forall|i: int| 0 <= i < s.len() ==> hostname_char(#[trigger] s[i]),
        s.len() > 0,
    decreases s.len(),
{
    text::lemma_find_lower(s, '.');
    let n = text::find(s, '.');
    let pieces = text::split(s, '.');
    if n < s.len() {
        assert(pieces.first() == s.take(n));
        assert(pieces.drop_first() =~= text::split(s.skip(n + 1), '.'));
        lemma_hostname_chars(s.skip(n + 1));
        assert forall|i: int| 0 <= i < s.len() implies hostname_char(#[trigger] s[i]) by {
            if i < n {
                assert(label_char(s.take(n)[i]));
            } else if i == n {
                text::lemma_find(s, '.');
            } else {
                assert(s[i] == s.skip(n + 1)[i - n - 1]);
            }
        }
    } else {
        assert(pieces.first() == s);
    }
}

/// A name whose labels are accepted is as long in bytes as in characters, and its
/// lower-case form is canonical.
proof fn lemma_canonical_hostname(s: Seq<char>)
    requires
        s.len() > 0,
        encode_utf8(s).len() <= 253,
        first_label_error(text::split(s, '.')) is None,
    ensures
        valid_hostname(text::lower(s)),
{
    lemma_hostname_chars(s);
    assert(is_ascii_chars(s));
    is_ascii_chars_encode_utf8(s);
    lemma_labels_lower(s);
    assert(text::lower(text::lower(s)) =~= text::lower(s));
}

/// An accepted username is canonical: it reads as itself.
pub proof fn law_accepted_username_is_canonical(input: Seq<char>)
    ensures
        parse_username(input) matches Ok(user) ==> valid_username(user) && parse_username(user)
            == Ok::<Seq<char>, IdentityError>(user),
{
    if let Ok(user) = parse_username(input) {
        lemma_canonical_username(text::trim(input, CharClass::White));
        lemma_valid_username_reads_as_itself(user);
    }
}

/// A canonical username reads as itself.
pub proof fn lemma_valid_username_reads_as_itself(user: Seq<char>)
    requires
        valid_username(user),
    ensures
        parse_username(user) == Ok::<Seq<char>, IdentityError>(user),
{
    assert(username_char(user[0]) && username_char(user[user.len() - 1]));
    assert(text::trim(user, CharClass::White) == user);
    assert(is_ascii_chars(user));
    is_ascii_chars_encode_utf8(user);
}

/// A username reads the same in any mixture of upper and lower case.
pub proof fn law_username_ignores_case(input: Seq<char>)
    ensures
        parse_username(text::lower(input)) == parse_username(input),
{
    text::lemma_trim_lower(input);
    let trimmed = text::trim(input, CharClass::White);
    let low = text::lower(trimmed);
    text::lemma_lower_encoded_len(trimmed);
    assert(forall|i: int|
        0 <= i < trimmed.len() ==> username_char(#[trigger] low[i]) == username_char(trimmed[i]));
    if forall|i: int| 0 <= i < low.len() ==> username_char(#[trigger] low[i]) {
        assert forall|i: int| 0 <= i < trimmed.len() implies username_char(#[trigger] trimmed[i]) by {
            assert(username_char(low[i]));
        }
    }
    assert(text::lower(low) =~= low);
}

/// White space around a username changes nothing.
pub proof fn law_username_ignores_surrounding_space(a: Seq<char>, input: Seq<char>, b: Seq<char>)
    requires
        forall|i: int| 0 <= i < a.len() ==> text::white_space(#[trigger] a[i]),
        forall|i: int| 0 <= i < b.len() ==> text::white_space(#[trigger] b[i]),
    ensures
        parse_username(a + input + b) == parse_username(input),
{
    text::lemma_trim_padding(a, input, b, CharClass::White);
}

/// A canonical username holds lower-case letters, digits, hyphens and underscores
/// only, so it can name neither another directory nor a pattern.
pub proof fn law_username_is_a_plain_word(user: Seq<char>)
    requires
        valid_username(user),
    ensures
        forall|i: int|
            0 <= i < user.len() ==> {
                ||| 'a' <= #[trigger] user[i] <= 'z'
                ||| '0' <= user[i] <= '9'
                ||| user[i] == '-'
                ||| user[i] == '_'
            },
{
    assert forall|i: int| 0 <= i < user.len() implies !('A' <= #[trigger] user[i] <= 'Z') by {
        assert(text::lower(user)[i] == text::lower_char(user[i]));
    }
    assert forall|i: int| 0 <= i < user.len() implies username_char(#[trigger] user[i]) by {}
}

/// An accepted hostname is canonical: it reads as itself.
pub proof fn law_accepted_hostname_is_canonical(input: Seq<char>)
    ensures
        parse_hostname(input) matches Ok(host) ==> valid_hostname(host) && parse_hostname(host)
            == Ok::<Seq<char>, IdentityError>(host),
{
    if let Ok(host) = parse_hostname(input) {
        lemma_canonical_hostname(text::trim(input, CharClass::White));
        lemma_valid_hostname_reads_as_itself(host);
    }
}

/// A canonical hostname reads as itself.
pub proof fn lemma_valid_hostname_reads_as_itself(host: Seq<char>)
    requires
        valid_hostname(host),
    ensures
        parse_hostname(host) == Ok::<Seq<char>, IdentityError>(host),
{
    lemma_hostname_chars(host);
    assert(hostname_char(host[0]) && hostname_char(host[host.len() - 1]));
    assert(text::trim(host, CharClass::White) == host);
    assert(is_ascii_chars(host));
    is_ascii_chars_encode_utf8(host);
}

/// A hostname reads the same in any mixture of upper and lower case.
pub proof fn law_hostname_ignores_case(input: Seq<char>)
    ensures
        parse_hostname(text::lower(input)) == parse_hostname(input),
{
    text::lemma_trim_lower(input);
    let trimmed = text::trim(input, CharClass::White);
    text::lemma_lower_encoded_len(trimmed);
    lemma_labels_lower(trimmed);
    assert(text::lower(text::lower(trimmed)) =~= text::lower(trimmed));
}

/// White space around a hostname changes nothing.
pub proof fn law_hostname_ignores_surrounding_space(a: Seq<char>, input: Seq<char>, b: Seq<char>)
    requires
        forall|i: int| 0 <= i < a.len() ==> text::white_space(#[trigger] a[i]),
        forall|i: int| 0 <= i < b.len() ==> text::white_space(#[trigger] b[i]),
    ensures
        parse_hostname(a + input + b) == parse_hostname(input),
{
    text::lemma_trim_padding(a, input, b, CharClass::White);
}

/// A canonical hostname is at most 253 characters long and holds lower-case
/// letters, digits, hyphens and dots only.
pub proof fn law_hostname_is_plain(host: Seq<char>)
    requires
        valid_hostname(host),
    ensures
        0 < host.len() <= 253,
        forall|i: int|
            0 <= i < host.len() ==> {
                ||| 'a' <= #[trigger] host[i] <= 'z'
                ||| '0' <= host[i] <= '9'
                ||| host[i] == '-'
                ||| host[i] == '.'
            },
{
    lemma_hostname_chars(host);
    assert forall|i: int| 0 <= i < host.len() implies !('A' <= #[trigger] host[i] <= 'Z') by {
        assert(text::lower(host)[i] == text::lower_char(host[i]));
    }
    assert forall|i: int| 0 <= i < host.len() implies hostname_char(#[trigger] host[i]) by {}
}

/// `low` is `s` with `A` to `Z` as `a` to `z`, and all else as it is.
pub open spec fn in_lower_case(low: Seq<char>, s: Seq<char>) -> bool {
    &&& low.len() == s.len()
    &&& forall|i: int|
        0 <= i < s.len() ==> (#[trigger] low[i]) as int == if 'A' <= s[i] <= 'Z' {
            s[i] as int + 32
        } else {
            s[i] as int
        }
}

/// Up to white space around it, a username is one to 32 characters, each of them an
/// ASCII letter, a digit, a hyphen or an underscore. Every such text is accepted and
/// gives its lower-case form; any other is rejected, for its length in bytes where
/// that is not within bounds, and for its characters otherwise.
pub proof fn law_usernames_are_letters_digits_hyphens_and_underscores(
    a: Seq<char>,
    name: Seq<char>,
    b: Seq<char>,
)
    requires
        forall|i: int| 0 <= i < a.len() ==> text::white_space(#[trigger] a[i]),
        forall|i: int| 0 <= i < b.len() ==> text::white_space(#[trigger] b[i]),
        name.len() > 0 ==> !text::white_space(name[0]) && !text::white_space(name[name.len() - 1]),
    ensures
        ({
            let good = forall|i: int|
                0 <= i < name.len() ==> {
                    ||| 'a' <= #[trigger] name[i] <= 'z'
                    ||| 'A' <= name[i] <= 'Z'
                    ||| '0' <= name[i] <= '9'
                    ||| name[i] == '-'
                    ||| name[i] == '_'
                };
            let read = parse_username(a + name + b);
            &&& 0 < name.len() <= 32 && good ==> (read matches Ok(user) && in_lower_case(user, name))
            &&& read is Ok ==> 0 < name.len() <= 32 && good
            &&& name.len() == 0 || encode_utf8(name).len() > 32 ==> read == Err::<
                Seq<char>,
                IdentityError,
            >(IdentityError::UsernameLength { max: 32 })
            &&& name.len() > 0 && encode_utf8(name).len() <= 32 && !good ==> read == Err::<
                Seq<char>,
                IdentityError,
            >(IdentityError::UsernameCharacters)
        }),
{
    text::law_trimming_leaves_the_text(a, name, b, CharClass::White);
    let good = forall|i: int|
        0 <= i < name.len() ==> {
            ||| 'a' <= #[trigger] name[i] <= 'z'
            ||| 'A' <= name[i] <= 'Z'
            ||| '0' <= name[i] <= '9'
            ||| name[i] == '-'
            ||| name[i] == '_'
        };
    assert(good <==> forall|i: int| 0 <= i < name.len() ==> username_char(#[trigger] name[i])) by {
        if good {
            assert forall|i: int| 0 <= i < name.len() implies username_char(#[trigger] name[i]) by {}
        }
        if forall|i: int| 0 <= i < name.len() ==> username_char(#[trigger] name[i]) {
            assert forall|i: int| 0 <= i < name.len() implies {
                ||| 'a' <= #[trigger] name[i] <= 'z'
                ||| 'A' <= name[i] <= 'Z'
                ||| '0' <= name[i] <= '9'
                ||| name[i] == '-'
                ||| name[i] == '_'
            } by {
                assert(username_char(name[i]));
            }
        }
    }
    if good {
        assert(is_ascii_chars(name));
        is_ascii_chars_encode_utf8(name);
    }
    assert(in_lower_case(text::lower(name), name));
}

/// A canonical username is one to 32 characters, each of them a lower-case ASCII
/// letter, a digit, a hyphen or an underscore, and every such text is one.
pub proof fn law_canonical_usernames(s: Seq<char>)
    ensures
        valid_username(s) <==> 0 < s.len() <= 32 && forall|i: int|
            0 <= i < s.len() ==> {
                ||| 'a' <= #[trigger] s[i] <= 'z'
                ||| '0' <= s[i] <= '9'
                ||| s[i] == '-'
                ||| s[i] == '_'
            },
{
    if valid_username(s) {
        law_username_is_a_plain_word(s);
    }
    if forall|i: int|
        0 <= i < s.len() ==> {
            ||| 'a' <= #[trigger] s[i] <= 'z'
            ||| '0' <= s[i] <= '9'
            ||| s[i] == '-'
            ||| s[i] == '_'
        } {
        assert(text::lower(s) =~= s);
        assert forall|i: int| 0 <= i < s.len() implies username_char(#[trigger] s[i]) by {}
    }
}

/// Whether `s` reads as labels of ASCII letters, digits and hyphens with single dots
/// between them, where no label begins or ends with a hyphen.
pub open spec fn dotted_labels(s: Seq<char>) -> bool {
    &&& s.len() > 0
    &&& s[0] != '-' && s[0] != '.'
    &&& s[s.len() - 1] != '-' && s[s.len() - 1] != '.'
    &&& forall|i: int|
        0 <= i < s.len() ==> {
            ||| 'a' <= #[trigger] s[i] <= 'z'
            ||| 'A' <= s[i] <= 'Z'
            ||| '0' <= s[i] <= '9'
            ||| s[i] == '-'
            ||| s[i] == '.'
        }
    &&& forall|i: int|
        0 < i < s.len() - 1 && #[trigger] s[i] == '.' ==> s[i - 1] != '.' && s[i - 1] != '-' && s[i
            + 1] != '.' && s[i + 1] != '-'
}

/// Up to white space around it, a hostname is one to 253 characters that read as
/// labels of ASCII letters, digits and hyphens with single dots between them, none of
/// which begins or ends with a hyphen. Every such text is accepted and gives its
/// lower-case form; any other is rejected, for its length in bytes exactly where that
/// is not within bounds.
pub proof fn law_hostnames_are_dotted_labels(a: Seq<char>, name: Seq<char>, b: Seq<char>)
    requires
        forall|i: int| 0 <= i < a.len() ==> text::white_space(#[trigger] a[i]),
        forall|i: int| 0 <= i < b.len() ==> text::white_space(#[trigger] b[i]),
        name.len() > 0 ==> !text::white_space(name[0]) && !text::white_space(name[name.len() - 1]),
    ensures
        ({
            let read = parse_hostname(a + name + b);
            &&& name.len() <= 253 && dotted_labels(name) ==> (read matches Ok(host)
                && in_lower_case(host, name))
            &&& read is Ok ==> name.len() <= 253 && dotted_labels(name)
            &&& name.len() == 0 || encode_utf8(name).len() > 253 <==> read == Err::<
                Seq<char>,
                IdentityError,
            >(IdentityError::HostLength { max: 253 })
        }),
{
    text::law_trimming_leaves_the_text(a, name, b, CharClass::White);
    lemma_labels_are_dotted(name);
    if dotted_labels(name) {
        assert(is_ascii_chars(name));
        is_ascii_chars_encode_utf8(name);
    }
    assert(in_lower_case(text::lower(name), name));
    lemma_no_label_is_too_long(text::split(name, '.'));
}

/// No fault of a label is one of length.
proof fn lemma_no_label_is_too_long(labels: Seq<Seq<char>>)
    ensures
        first_label_error(labels) matches Some(err) ==> !(err is HostLength),
    decreases labels.len(),
{
    if labels.len() > 0 {
        lemma_no_label_is_too_long(labels.drop_first());
    }
}

/// Labels without fault are what a dotted text is made of.
proof fn lemma_labels_are_dotted(s: Seq<char>)
    ensures
        first_label_error(text::split(s, '.')) is None <==> dotted_labels(s),
    decreases s.len(),
{
    text::lemma_find(s, '.');
    let n = text::find(s, '.');
    let pieces = text::split(s, '.');
    if n < s.len() {
        let label = s.take(n);
        let rest = s.skip(n + 1);
        lemma_labels_are_dotted(rest);
        assert(pieces.first() == label);
        assert(pieces.drop_first() =~= text::split(rest, '.'));
        assert(forall|i: int| 0 <= i < rest.len() ==> #[trigger] rest[i] == s[i + n + 1]);
        assert(forall|i: int| 0 <= i < n ==> #[trigger] label[i] == s[i]);
        if label_error(label) is None && dotted_labels(rest) {
            assert forall|i: int| 0 <= i < s.len() implies {
                ||| 'a' <= #[trigger] s[i] <= 'z'
                ||| 'A' <= s[i] <= 'Z'
                ||| '0' <= s[i] <= '9'
                ||| s[i] == '-'
                ||| s[i] == '.'
            } by {
                if i < n {
                    assert(label_char(label[i]));
                } else if i > n {
                    assert(rest[i - n - 1] == s[i]);
                }
            }
            assert(s[s.len() - 1] == rest[rest.len() - 1]);
            assert(s[0] == label[0]);
            assert forall|i: int| 0 < i < s.len() - 1 && #[trigger] s[i] == '.' implies s[i - 1]
                != '.' && s[i - 1] != '-' && s[i + 1] != '.' && s[i + 1] != '-' by {
                if i < n {
                } else if i == n {
                    assert(s[n - 1] == label[n - 1]);
                    assert(s[n + 1] == rest[0]);
                } else {
                    let j = i - n - 1;
                    assert(rest[j] == s[i]);
                    if j > 0 {
                        assert(rest[j - 1] == s[i - 1]);
                    }
                    assert(rest[j + 1] == s[i + 1]);
                }
            }
        }
        if dotted_labels(s) {
            assert(0 < n);
            assert(n < s.len() - 1);
            assert(s[n] == '.');
            assert forall|i: int| 0 <= i < n implies label_char(#[trigger] label[i]) by {
                assert(s[i] != '.');
            }
            assert(label.first() == s[0]);
            assert(label.last() == s[n - 1]);
            assert(rest[0] == s[n + 1]);
            assert(rest[rest.len() - 1] == s[s.len() - 1]);
            assert forall|i: int| 0 <= i < rest.len() implies {
                ||| 'a' <= #[trigger] rest[i] <= 'z'
                ||| 'A' <= rest[i] <= 'Z'
                ||| '0' <= rest[i] <= '9'
                ||| rest[i] == '-'
                ||| rest[i] == '.'
            } by {
                assert(rest[i] == s[i + n + 1]);
            }
            assert forall|i: int| 0 < i < rest.len() - 1 && #[trigger] rest[i] == '.' implies rest[i
                - 1] != '.' && rest[i - 1] != '-' && rest[i + 1] != '.' && rest[i + 1] != '-' by {
                assert(s[i + n + 1] == '.');
                assert(rest[i - 1] == s[i + n]);
                assert(rest[i + 1] == s[i + n + 2]);
            }
        }
    } else {
        assert(pieces =~= seq![s]);
        assert(pieces.drop_first() =~= Seq::<Seq<char>>::empty());
        assert(first_label_error(pieces.drop_first()) is None);
        if dotted_labels(s) {
            assert forall|i: int| 0 <= i < s.len() implies label_char(#[trigger] s[i]) by {}
        } else if label_error(s) is None {
            assert forall|i: int| 0 <= i < s.len() implies {
                ||| 'a' <= #[trigger] s[i] <= 'z'
                ||| 'A' <= s[i] <= 'Z'
                ||| '0' <= s[i] <= '9'
                ||| s[i] == '-'
                ||| s[i] == '.'
            } by {
                assert(label_char(s[i]));
            }
        }
    }
}

/// A canonical hostname is one to 253 characters that read as dotted labels, without
/// a capital letter, and every such text is one.
pub proof fn law_canonical_hostnames(s: Seq<char>)
    ensures
        valid_hostname(s) <==> {
            &&& s.len() <= 253
            &&& dotted_labels(s)
            &&& forall|i: int| 0 <= i < s.len() ==> !('A' <= #[trigger] s[i] <= 'Z')
        },
{
    lemma_labels_are_dotted(s);
    if valid_hostname(s) {
        law_hostname_is_plain(s);
    } else if forall|i: int| 0 <= i < s.len() ==> !('A' <= #[trigger] s[i] <= 'Z') {
        assert(text::lower(s) =~= s);
    }
}

/// Of the labels of a name the first faulty one decides how the name is rejected: an
/// empty label for being empty, one that begins or ends with a hyphen for that, and
/// any other for its characters.
pub proof fn law_first_faulty_label_decides(labels: Seq<Seq<char>>, k: int)
    requires
        0 <= k < labels.len(),
        forall|i: int| 0 <= i < k ==> dotted_labels(#[trigger] labels[i]),
        forall|i: int, j: int|
            0 <= i < labels.len() && 0 <= j < labels[i].len() ==> #[trigger] labels[i][j] != '.',
        !dotted_labels(labels[k]),
    ensures
        first_label_error(labels) == Some(
            if labels[k].len() == 0 {
                IdentityError::HostEmptyLabel
            } else if labels[k][0] == '-' || labels[k][labels[k].len() - 1] == '-' {
                IdentityError::HostLabelHyphen
            } else {
                IdentityError::HostCharacters
            },
        ),
    decreases k,
{
    let first = labels[0];
    assert(forall|j: int| 0 <= j < first.len() ==> #[trigger] first[j] == labels[0][j]);
    lemma_labels_are_dotted(first);
    text::lemma_split_single(first, '.');
    assert(seq![first].drop_first() =~= Seq::<Seq<char>>::empty());
    assert(first_label_error(seq![first].drop_first()) is None);
    assert(seq![first].first() == first);
    assert(label_error(first) is None <==> dotted_labels(first));
    if k > 0 {
        let rest = labels.drop_first();
        assert(forall|i: int| 0 <= i < k - 1 ==> #[trigger] rest[i] == labels[i + 1]);
        assert forall|i: int, j: int|
            0 <= i < rest.len() && 0 <= j < rest[i].len() implies #[trigger] rest[i][j] != '.' by {
            assert(labels[i + 1][j] != '.');
        }
        law_first_faulty_label_decides(rest, k - 1);
    }
}

/// A name of acceptable length is rejected as its first faulty label is.
pub proof fn law_hostname_is_rejected_for_its_first_faulty_label(labels: Seq<Seq<char>>, k: int)
    requires
        0 <= k < labels.len(),
        forall|i: int| 0 <= i < k ==> dotted_labels(#[trigger] labels[i]),
        forall|i: int, j: int|
            0 <= i < labels.len() && 0 <= j < labels[i].len() ==> #[trigger] labels[i][j] != '.',
        !dotted_labels(labels[k]),
        ({
            let name = text::put_together(labels, '.');
            &&& name.len() > 0
            &&& !text::white_space(name[0])
            &&& !text::white_space(name[name.len() - 1])
            &&& encode_utf8(name).len() <= 253
        }),
    ensures
        parse_hostname(text::put_together(labels, '.')) == Err::<Seq<char>, IdentityError>(
            if labels[k].len() == 0 {
                IdentityError::HostEmptyLabel
            } else if labels[k][0] == '-' || labels[k][labels[k].len() - 1] == '-' {
                IdentityError::HostLabelHyphen
            } else {
                IdentityError::HostCharacters
            },
        ),
{
    let name = text::put_together(labels, '.');
    let none = Seq::<char>::empty();
    assert(none + name + none =~= name);
    text::law_trimming_leaves_the_text(none, name, none, CharClass::White);
    text::law_splitting_undoes_putting_together(labels, '.');
    law_first_faulty_label_decides(labels, k);
}

/// Descriptions of lengths out of bounds name the bound.
pub proof fn law_length_errors_name_the_bound(max: usize)
    ensures
        (IdentityError::UsernameLength { max }).text() == "username must be between 1 and "@
            + text::decimal(max as nat) + " characters"@,
        (IdentityError::HostLength { max }).text() == "hostname must be between 1 and "@
            + text::decimal(max as nat) + " characters"@,
{
}

} // verus!
