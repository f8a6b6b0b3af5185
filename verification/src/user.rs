//! User profile representation and rendering.
use crate::framing;
use crate::framing::CrlfBuffer;
use crate::identity;
use crate::identity::{IdentityError, Username};
use crate::text;
use crate::text::CharClass;
use indexmap::IndexMap;
use vstd::prelude::*;
use vstd::utf8::*;

verus! {

/// The insertion-ordered map that holds the attributes.
#[verifier::external_type_specification]
#[verifier::external_body]
#[verifier::reject_recursive_types(K)]
#[verifier::reject_recursive_types(V)]
#[verifier::reject_recursive_types(S)]
pub struct ExIndexMap<K, V, S>(IndexMap<K, V, S>);

/// A key with its text.
pub type Pair = (Seq<char>, Seq<char>);

/// A key of a TOML table with its text, where its value is a string.
pub type Field = (Seq<char>, Option<Seq<char>>);

/// The keys and texts that a map holds, in its order.
pub uninterp spec fn pairs_of(map: IndexMap<String, String>) -> Seq<(Seq<char>, Seq<char>)>;

/// Position of `key` among `pairs`; their number where it is not there.
pub open spec fn key_index(pairs: Seq<Pair>, key: Seq<char>) -> int
    decreases pairs.len(),
{
    if pairs.len() == 0 || pairs.first().0 == key {
        0
    } else {
        1 + key_index(pairs.drop_first(), key)
    }
}

/// `pairs` once `key` stands for `value`: in its place where the key is there
/// already, at the end otherwise.
pub open spec fn upsert(pairs: Seq<Pair>, key: Seq<char>, value: Seq<char>) -> Seq<Pair> {
    let at = key_index(pairs, key);
    if at < pairs.len() {
        pairs.update(at, (key, value))
    } else {
        pairs.push((key, value))
    }
}

/// Trusted: `IndexMap::new` makes an empty map.
#[verifier::external_body]
fn attributes_new() -> (r: IndexMap<String, String>)
    ensures
        pairs_of(r).len() == 0,
{
    IndexMap::new()
}

/// Trusted: `IndexMap::insert` replaces the value of a key that is there, which
/// keeps its place, and appends one that is not.
#[verifier::external_body]
fn attributes_insert(map: &mut IndexMap<String, String>, key: String, value: String)
    ensures
        pairs_of(*final(map)) == upsert(pairs_of(*old(map)), key@, value@),
{
    map.insert(key, value);
}

/// The texts behind references to strings.
pub open spec fn pair_texts(items: Seq<(&String, &String)>) -> Seq<Pair> {
    items.map_values(|item: (&String, &String)| (item.0@, item.1@))
}

/// Trusted: `IndexMap::iter` visits the pairs in the map's order.
#[verifier::external_body]
fn attributes_list(map: &IndexMap<String, String>) -> (r: Vec<(&String, &String)>)
    ensures
        pair_texts(r@) == pairs_of(*map),
{
    map.iter().collect()
}

/// Trusted: `IndexMap::clone` copies the pairs in their order.
#[verifier::external_body]
fn attributes_clone(map: &IndexMap<String, String>) -> (r: IndexMap<String, String>)
    ensures
        pairs_of(r) == pairs_of(*map),
{
    map.clone()
}

/// What a TOML document holds at its top level: the parser's description of what is
/// wrong where the text is not TOML, no fields where the document is not a table, and
/// the fields of the table otherwise, in the order in which the parser hands them out.
pub uninterp spec fn toml_document(source: Seq<char>) -> Result<
    Option<Seq<(Seq<char>, Option<Seq<char>>)>>,
    Seq<char>,
>;

/// The keys and texts of parsed fields.
pub open spec fn field_texts(fields: Seq<(String, Option<String>)>) -> Seq<Field> {
    fields.map_values(
        |field: (String, Option<String>)|
            (
                field.0@,
                match field.1 {
                    Some(value) => Some(value@),
                    None => None,
                },
            ),
    )
}

/// What a table says, if the document is one.
pub open spec fn table_texts(table: Option<Vec<(String, Option<String>)>>) -> Option<Seq<Field>> {
    match table {
        Some(fields) => Some(field_texts(fields@)),
        None => None,
    }
}

/// What the parser's answer says.
pub open spec fn document_texts(
    document: Result<Option<Vec<(String, Option<String>)>>, String>,
) -> Result<Option<Seq<Field>>, Seq<char>> {
    match document {
        Ok(table) => Ok(table_texts(table)),
        Err(description) => Err(description@),
    }
}

/// No key occurs twice.
pub open spec fn distinct_keys(fields: Seq<Field>) -> bool {
    forall|i: int, j: int| 0 <= i < j < fields.len() ==> (#[trigger] fields[i]).0 != (#[trigger] fields[j]).0
}

/// Trusted: `toml::from_str` into a `toml::Value`, whose table is read out field by
/// field, or whose error is read out as the text it displays. The answer depends on
/// the text alone, and a table has no key twice.
#[verifier::external_body]
fn parse_toml(source: &str) -> (r: Result<Option<Vec<(String, Option<String>)>>, String>)
    ensures
        document_texts(r) == toml_document(source@),
        document_texts(r) matches Ok(Some(fields)) ==> distinct_keys(fields),
{
    let document: toml::Value = toml::from_str(source).map_err(
        |err: toml::de::Error| err.to_string(),
    )?;
    Ok(
        document.as_table().map(
            |table|
                table.iter().map(|(key, value)| (key.clone(), value.as_str().map(str::to_owned))).collect(),
        ),
    )
}

/// Errors returned when parsing user profiles.
#[derive(Debug)]
pub enum ProfileError {
    /// The profile data is not a table of keys and values.
    NotATable,
    /// The value of `key` is not a string.
    NonStringValue { key: String },
    /// The profile declares a username other than the one asked for.
    UsernameMismatch,
    /// The profile declares a username that is none.
    UsernameInvalid(IdentityError),
    /// The profile declares no username.
    MissingUsername,
    /// The profile data is not UTF-8.
    InvalidEncoding(core::str::Utf8Error),
    /// The profile data is not TOML, for the reason that the parser gives.
    Toml(String),
}

/// What a profile error says.
pub enum ProfileErrorView {
    NotATable,
    NonStringValue(Seq<char>),
    UsernameMismatch,
    UsernameInvalid(IdentityError),
    MissingUsername,
    InvalidEncoding,
    Toml(Seq<char>),
}

impl View for ProfileError {
    type V = ProfileErrorView;

    open spec fn view(&self) -> ProfileErrorView {
        match self {
            ProfileError::NotATable => ProfileErrorView::NotATable,
            ProfileError::NonStringValue { key } => ProfileErrorView::NonStringValue(key@),
            ProfileError::UsernameMismatch => ProfileErrorView::UsernameMismatch,
            ProfileError::UsernameInvalid(err) => ProfileErrorView::UsernameInvalid(*err),
            ProfileError::MissingUsername => ProfileErrorView::MissingUsername,
            ProfileError::InvalidEncoding(_) => ProfileErrorView::InvalidEncoding,
            ProfileError::Toml(description) => ProfileErrorView::Toml(description@),
        }
    }
}

impl ProfileErrorView {
    /// The description of the error.
    pub open spec fn text(self) -> Seq<char> {
        match self {
            ProfileErrorView::NotATable => "profile data must be a table of key/value pairs"@,
            ProfileErrorView::NonStringValue(key) =>
                "profile data must only contain string values (key: "@ + key + ")"@,
            ProfileErrorView::UsernameMismatch => "profile declares mismatched username"@,
            ProfileErrorView::UsernameInvalid(err) => "profile declares invalid username: "@
                + err.text(),
            ProfileErrorView::MissingUsername => "profile must declare a username field"@,
            ProfileErrorView::InvalidEncoding => "profile data must be UTF-8 encoded"@,
            ProfileErrorView::Toml(description) => "invalid profile data: "@ + description,
        }
    }
}

impl ProfileError {
    /// Description of the error for the log.
    pub fn message(&self) -> (r: String)
        ensures
            r@ == self@.text(),
    {
        match self {
            ProfileError::NotATable => "profile data must be a table of key/value pairs".to_owned(),
            ProfileError::NonStringValue { key } => {
                let mut out = text::joined(
                    "profile data must only contain string values (key: ",
                    key.as_str(),
                );
                out.append(")");
                out
            },
            ProfileError::UsernameMismatch => "profile declares mismatched username".to_owned(),
            ProfileError::UsernameInvalid(err) => text::joined(
                "profile declares invalid username: ",
                err.message().as_str(),
            ),
            ProfileError::MissingUsername => "profile must declare a username field".to_owned(),
            ProfileError::InvalidEncoding(_) => "profile data must be UTF-8 encoded".to_owned(),
            ProfileError::Toml(description) => text::joined(
                "invalid profile data: ",
                description.as_str(),
            ),
        }
    }
}

/// What a profile holds: the user, and the attributes in their order.
#[verifier::ext_equal]
pub struct ProfileView {
    pub user: Seq<char>,
    pub attributes: Seq<Pair>,
}

/// The key under which a profile declares its user.
pub open spec fn username_key() -> Seq<char> {
    seq!['u', 's', 'e', 'r', 'n', 'a', 'm', 'e']
}

/// The first key whose value is not a string, if there is one.
pub open spec fn first_non_string(fields: Seq<Field>) -> Option<Seq<char>>
    decreases fields.len(),
{
    if fields.len() == 0 {
        None
    } else if fields.first().1 is None {
        Some(fields.first().0)
    } else {
        first_non_string(fields.drop_first())
    }
}

/// The username that a table declares, if it declares one.
pub open spec fn declared_username(fields: Seq<Field>) -> Option<Seq<char>>
    decreases fields.len(),
{
    if fields.len() == 0 {
        None
    } else if fields.last().0 == username_key() {
        fields.last().1
    } else {
        declared_username(fields.drop_last())
    }
}

/// The attributes that a table gives: its fields but for the username, in order.
pub open spec fn table_attributes(fields: Seq<Field>) -> Seq<Pair>
    decreases fields.len(),
{
    if fields.len() == 0 {
        seq![]
    } else {
        let before = table_attributes(fields.drop_last());
        let (key, value) = fields.last();
        if key == username_key() || value is None {
            before
        } else {
            upsert(before, key, value->0)
        }
    }
}

/// The profile of `user` that a table gives, or why it gives none.
pub open spec fn table_profile(user: Seq<char>, table: Option<Seq<Field>>) -> Result<
    ProfileView,
    ProfileErrorView,
> {
    match table {
        None => Err(ProfileErrorView::NotATable),
        Some(fields) => match first_non_string(fields) {
            Some(key) => Err(ProfileErrorView::NonStringValue(key)),
            None => match declared_username(fields) {
                None => Err(ProfileErrorView::MissingUsername),
                Some(declared) => match identity::parse_username(declared) {
                    Err(err) => Err(ProfileErrorView::UsernameInvalid(err)),
                    Ok(name) => if name != user {
                        Err(ProfileErrorView::UsernameMismatch)
                    } else {
                        Ok(ProfileView { user, attributes: table_attributes(fields) })
                    },
                },
            },
        },
    }
}

/// The profile of `user` that a stored file gives, or why it gives none.
pub open spec fn stored_profile(user: Seq<char>, payload: Seq<u8>) -> Result<
    ProfileView,
    ProfileErrorView,
> {
    if !valid_utf8(payload) {
        Err(ProfileErrorView::InvalidEncoding)
    } else {
        match toml_document(decode_utf8(payload)) {
            Err(description) => Err(ProfileErrorView::Toml(description)),
            Ok(table) => table_profile(user, table),
        }
    }
}

/// Parsed user profile loaded from the object store.
#[derive(Debug)]
pub struct FingerProfile {
    username: Username,
    attributes: IndexMap<String, String>,
}

impl View for FingerProfile {
    type V = ProfileView;

    closed spec fn view(&self) -> ProfileView {
        ProfileView { user: self.username@, attributes: pairs_of(self.attributes) }
    }
}

impl Clone for FingerProfile {
    fn clone(&self) -> (r: Self)
        ensures
            r@ == self@,
    {
        FingerProfile {
            username: self.username.clone(),
            attributes: attributes_clone(&self.attributes),
        }
    }
}

impl FingerProfile {
    /// Parse the provided payload into a [`FingerProfile`].
    pub fn parse(username: Username, payload: &[u8]) -> (r: Result<FingerProfile, ProfileError>)
        ensures
            match r {
                Ok(profile) => stored_profile(username@, payload@) == Ok::<
                    ProfileView,
                    ProfileErrorView,
                >(profile@),
                Err(err) => stored_profile(username@, payload@) == Err::<
                    ProfileView,
                    ProfileErrorView,
                >(err@),
            },
            valid_utf8(payload@) ==> (toml_document(decode_utf8(payload@)) matches Ok(Some(fields))
                ==> distinct_keys(fields)),
    {
        let source = match core::str::from_utf8(payload) {
            Ok(source) => source,
            Err(err) => {
                return Err(ProfileError::InvalidEncoding(err));
            },
        };
        proof {
            encode_utf8_decode_utf8(source@);
        }
        match parse_toml(source) {
            Ok(table) => Self::from_table(username, table),
            Err(description) => Err(ProfileError::Toml(description)),
        }
    }

    /// Build the profile of `username` from the fields of a parsed document:
    /// each key with its text, where the value is a string.
    pub fn from_table(username: Username, table: Option<Vec<(String, Option<String>)>>) -> (r: Result<
        FingerProfile,
        ProfileError,
    >)
        ensures
            match r {
                Ok(profile) => table_profile(username@, table_texts(table)) == Ok::<
                    ProfileView,
                    ProfileErrorView,
                >(profile@),
                Err(err) => table_profile(username@, table_texts(table)) == Err::<
                    ProfileView,
                    ProfileErrorView,
                >(err@),
            },
    {
        let fields = match table {
            Some(fields) => fields,
            None => {
                return Err(ProfileError::NotATable);
            },
        };
        let ghost all = field_texts(fields@);
        let mut attributes = attributes_new();
        let mut declared: Option<String> = None;
        let username_field = "username".to_owned();
        proof {
            reveal_strlit("username");
            assert(username_field@ =~= username_key());
            assert(pairs_of(attributes) =~= table_attributes(all.take(0)));
            assert(all.skip(0) == all);
        }
        let mut at: usize = 0;
        while at < fields.len()
            invariant
                at <= fields@.len(),
                all == field_texts(fields@),
                table_texts(table) == Some(all),
                username_field@ == username_key(),
                first_non_string(all.skip(at as int)) == first_non_string(all),
                pairs_of(attributes) == table_attributes(all.take(at as int)),
                declared_username(all.take(at as int)) == (match declared {
                    Some(name) => Some(name@),
                    None => None,
                }),
            decreases fields@.len() - at,
        {
            proof {
                assert(all.skip(at as int).first() == all[at as int]);
                assert(all.skip(at as int).drop_first() == all.skip(at + 1));
                assert(all.take(at + 1).drop_last() == all.take(at as int));
                assert(all.take(at + 1).last() == all[at as int]);
            }
            let key = fields[at].0.clone();
            match &fields[at].1 {
                None => {
                    return Err(ProfileError::NonStringValue { key });
                },
                Some(value) => {
                    if key == username_field {
                        declared = Some(value.clone());
                    } else {
                        attributes_insert(&mut attributes, key, value.clone());
                    }
                },
            }
            at += 1;
        }
        assert(all.take(at as int) == all);
        assert(all.skip(at as int) == Seq::<Field>::empty());
        let declared = match declared {
            Some(declared) => declared,
            None => {
                return Err(ProfileError::MissingUsername);
            },
        };
        let parsed = match Username::parse(declared.as_str()) {
            Ok(parsed) => parsed,
            Err(err) => {
                return Err(ProfileError::UsernameInvalid(err));
            },
        };
        if parsed != username {
            return Err(ProfileError::UsernameMismatch);
        }
        Ok(FingerProfile { username, attributes })
    }
}

/// Whether a character is printable ASCII.
pub open spec fn printable(c: char) -> bool {
    ' ' <= c <= '~'
}

/// The printable ASCII characters of `s`.
pub open spec fn sanitised(s: Seq<char>) -> Seq<char> {
    s.filter(|c: char| printable(c))
}

/// A key as it is shown: its first letter in upper case, and underscores behind
/// the first character as spaces.
pub open spec fn shown_key(key: Seq<char>) -> Seq<char> {
    Seq::new(
        key.len(),
        |i: int|
            if i == 0 {
                text::upper_char(key[0])
            } else if key[i] == '_' {
                ' '
            } else {
                key[i]
            },
    )
}

/// The line that shows an attribute: the key and, verbatim, the value.
pub open spec fn attribute_line(pair: Pair) -> Seq<char> {
    shown_key(pair.0) + ": "@ + pair.1
}

/// The lines that show a plan: what it says, or that it is blank or missing.
pub open spec fn plan_lines(plan: Option<Seq<char>>) -> Seq<Seq<char>> {
    match plan {
        Some(content) => if text::trim(content, CharClass::White).len() == 0 {
            seq!["(empty plan)"@]
        } else {
            text::lines(content).map_values(|line: Seq<char>| sanitised(line))
        },
        None => seq!["(no plan)"@],
    }
}

/// The part of an answer that shows the plan.
pub open spec fn plan_section(plan: Option<Seq<char>>) -> Seq<Seq<char>> {
    seq![seq![], "Plan:"@] + plan_lines(plan)
}

/// The lines of the answer about a profile.
pub open spec fn profile_lines(
    profile: ProfileView,
    include_plan: bool,
    plan: Option<Seq<char>>,
) -> Seq<Seq<char>> {
    seq!["User: "@ + profile.user] + profile.attributes.map_values(
        |pair: Pair| attribute_line(pair),
    ) + (if include_plan {
        plan_section(plan)
    } else {
        seq![]
    }) + seq![seq![], "Powered by fingermouse"@]
}

/// The text of an optional plan.
pub open spec fn plan_text(plan: Option<&str>) -> Option<Seq<char>> {
    match plan {
        Some(content) => Some(content@),
        None => None,
    }
}

/// A key as it is shown to clients.
pub fn normalise_key(key: &str) -> (r: String)
    ensures
        r@ == shown_key(key@),
{
    let mut output = String::new();
    for c in iter: key.chars()
        invariant
            iter.seq() == key@,
            output@ == shown_key(key@).take(iter.index()),
    {
        let shown = if output.as_str().is_empty() {
            text::ascii_upper_char(c)
        } else if c == '_' {
            ' '
        } else {
            c
        };
        output.push(shown);
        assert(output@ =~= shown_key(key@).take(iter.index() + 1));
    }
    assert(shown_key(key@).take(key@.len() as int) =~= shown_key(key@));
    output
}

/// The printable ASCII characters of `input`.
pub fn sanitise_line(input: &str) -> (r: String)
    ensures
        r@ == sanitised(input@),
{
    let mut output = String::new();
    for c in iter: input.chars()
        invariant
            iter.seq() == input@,
            output@ == sanitised(input@.take(iter.index())),
    {
        proof {
            reveal(Seq::filter);
            assert(input@.take(iter.index() + 1).drop_last() =~= input@.take(iter.index()));
            assert(input@.take(iter.index() + 1).last() == c);
        }
        if ' ' <= c && c <= '~' {
            output.push(c);
        }
    }
    assert(input@.take(input@.len() as int) =~= input@);
    output
}

impl FingerProfile {
    /// Render the profile and optional plan into a response body.
    pub fn render(&self, include_plan: bool, plan: Option<&str>) -> (r: ResponseBody)
        ensures
            r@ == profile_lines(self@, include_plan, plan_text(plan)),
    {
        let mut lines: Vec<String> = Vec::new();
        lines.push(text::joined("User: ", self.username.as_str()));
        let attributes = attributes_list(&self.attributes);
        let ghost pairs = self@.attributes;
        let ghost shown = pairs.map_values(|pair: Pair| attribute_line(pair));
        let ghost head = seq!["User: "@ + self@.user];
        assert(text::texts(lines@) =~= head + shown.take(0));
        let mut at: usize = 0;
        while at < attributes.len()
            invariant
                at <= attributes@.len(),
                pairs == pair_texts(attributes@),
                shown == pairs.map_values(|pair: Pair| attribute_line(pair)),
                text::texts(lines@) == head + shown.take(at as int),
            decreases attributes@.len() - at,
        {
            let (key, value) = attributes[at];
            assert(pairs[at as int] == (key@, value@));
            let ghost before = text::texts(lines@);
            let mut line = normalise_key(key.as_str());
            line.append(": ");
            line.append(value.as_str());
            assert(line@ == attribute_line(pairs[at as int]));
            lines.push(line);
            assert(text::texts(lines@) =~= before.push(line@));
            assert(shown.take(at + 1) =~= shown.take(at as int).push(line@));
            assert(head + shown.take(at as int).push(line@) =~= (head + shown.take(
                at as int,
            )).push(line@));
            at += 1;
        }
        assert(shown.take(at as int) =~= shown);
        let ghost upper = head + shown;
        if include_plan {
            lines.push(String::new());
            lines.push("Plan:".to_owned());
            assert(text::texts(lines@) =~= upper + seq![Seq::<char>::empty(), "Plan:"@]);
            Self::append_plan_lines(&mut lines, plan);
            assert(text::texts(lines@) =~= upper + plan_section(plan_text(plan)));
        } else {
            assert(text::texts(lines@) =~= upper + Seq::<Seq<char>>::empty());
        }
        let ghost body = text::texts(lines@);
        lines.push(String::new());
        lines.push("Powered by fingermouse".to_owned());
        assert(text::texts(lines@) =~= body + seq![
            Seq::<char>::empty(),
            "Powered by fingermouse"@,
        ]);
        ResponseBody { lines }
    }

    /// Append the lines that show the plan.
    fn append_plan_lines(lines: &mut Vec<String>, plan: Option<&str>)
        ensures
            text::texts(final(lines)@) == text::texts(old(lines)@) + plan_lines(plan_text(plan)),
    {
        let ghost before = text::texts(lines@);
        match plan {
            Some(content) => {
                if text::trim_str(content, CharClass::White).is_empty() {
                    lines.push("(empty plan)".to_owned());
                    assert(text::texts(lines@) =~= before + seq!["(empty plan)"@]);
                } else {
                    let rows = text::lines_of(content);
                    let ghost shown = text::lines(content@).map_values(
                        |line: Seq<char>| sanitised(line),
                    );
                    assert(text::texts(lines@) =~= before + shown.take(0));
                    let mut at: usize = 0;
                    while at < rows.len()
                        invariant
                            at <= rows@.len(),
                            text::texts(rows@) == text::lines(content@),
                            shown == text::lines(content@).map_values(
                                |line: Seq<char>| sanitised(line),
                            ),
                            text::texts(lines@) == before + shown.take(at as int),
                        decreases rows@.len() - at,
                    {
                        let ghost done = text::texts(lines@);
                        let row = sanitise_line(rows[at].as_str());
                        assert(text::texts(rows@)[at as int] == rows@[at as int]@);
                        lines.push(row);
                        assert(text::texts(lines@) =~= done.push(row@));
                        assert(before + shown.take(at + 1) =~= (before + shown.take(
                            at as int,
                        )).push(row@));
                        at += 1;
                    }
                    assert(shown.take(at as int) =~= shown);
                }
            },
            None => {
                lines.push("(no plan)".to_owned());
                assert(text::texts(lines@) =~= before + seq!["(no plan)"@]);
            },
        }
    }
}

/// Textual response sent back to a finger client.
#[derive(Debug)]
pub struct ResponseBody {
    lines: Vec<String>,
}

impl View for ResponseBody {
    type V = Seq<Seq<char>>;

    closed spec fn view(&self) -> Seq<Seq<char>> {
        text::texts(self.lines@)
    }
}

impl Clone for ResponseBody {
    fn clone(&self) -> (r: Self)
        ensures
            r@ == self@,
    {
        let mut lines: Vec<String> = Vec::new();
        let mut at: usize = 0;
        while at < self.lines.len()
            invariant
                at <= self.lines@.len(),
                text::texts(lines@) == self@.take(at as int),
            decreases self.lines@.len() - at,
        {
            let ghost before = text::texts(lines@);
            lines.push(self.lines[at].clone());
            assert(text::texts(lines@) =~= before.push(self.lines@[at as int]@));
            assert(self@.take(at + 1) =~= before.push(self.lines@[at as int]@));
            at += 1;
        }
        assert(self@.take(at as int) =~= self@);
        ResponseBody { lines }
    }
}

/// Lines with a line feed behind each.
pub open spec fn plain_text(lines: Seq<Seq<char>>) -> Seq<char>
    decreases lines.len(),
{
    if lines.len() == 0 {
        seq![]
    } else {
        plain_text(lines.drop_last()) + lines.last() + seq!['\n']
    }
}

impl ResponseBody {
    /// Serialise the response body into CRLF-terminated bytes.
    pub fn as_bytes(&self) -> (r: Vec<u8>)
        ensures
            r@ == framing::framed_lines(self@),
    {
        let mut buffer = CrlfBuffer::default();
        let mut at: usize = 0;
        assert(self@.take(0) =~= Seq::<Seq<char>>::empty());
        while at < self.lines.len()
            invariant
                at <= self.lines@.len(),
                buffer@ == framing::framed_lines(self@.take(at as int)),
            decreases self.lines@.len() - at,
        {
            buffer.push_line(self.lines[at].as_str());
            assert(self@.take(at + 1).drop_last() =~= self@.take(at as int));
            assert(self@.take(at + 1).last() == self.lines@[at as int]@);
            at += 1;
        }
        assert(self@.take(at as int) =~= self@);
        buffer.into_bytes()
    }

    /// The lines as plain text, a line feed behind each.
    pub fn to_text(&self) -> (r: String)
        ensures
            r@ == plain_text(self@),
    {
        let mut out = String::new();
        let mut at: usize = 0;
        assert(self@.take(0) =~= Seq::<Seq<char>>::empty());
        while at < self.lines.len()
            invariant
                at <= self.lines@.len(),
                out@ == plain_text(self@.take(at as int)),
            decreases self.lines@.len() - at,
        {
            let ghost before = out@;
            out.append(self.lines[at].as_str());
            out.push('\n');
            assert(self@.take(at + 1).drop_last() =~= self@.take(at as int));
            assert(self@.take(at + 1).last() == self.lines@[at as int]@);
            assert(out@ =~= before + self.lines@[at as int]@ + seq!['\n']);
            at += 1;
        }
        assert(self@.take(at as int) =~= self@);
        out
    }
}

/// A profile that is read for a user is that user's, whatever the file says.
pub proof fn law_profile_is_of_the_requested_user(user: Seq<char>, payload: Seq<u8>)
    ensures
        stored_profile(user, payload) matches Ok(profile) ==> profile.user == user,
{
}

/// Only a table of strings that declares the requested user, in any spelling that
/// reads as it, gives a profile.
pub proof fn law_accepted_profile_declares_its_user(user: Seq<char>, fields: Seq<Field>)
    ensures
        table_profile(user, Some(fields)) is Ok <==> {
            &&& forall|i: int| 0 <= i < fields.len() ==> (#[trigger] fields[i]).1 is Some
            &&& declared_username(fields) is Some
            &&& identity::parse_username(declared_username(fields)->0) == Ok::<
                Seq<char>,
                IdentityError,
            >(user)
        },
{
    if first_non_string(fields) is None {
        lemma_all_strings(fields);
    } else if forall|i: int| 0 <= i < fields.len() ==> (#[trigger] fields[i]).1 is Some {
        lemma_all_strings_from(fields);
    }
}

/// The fields other than the username.
pub open spec fn other_fields(fields: Seq<Field>) -> Seq<Field> {
    fields.filter(|field: Field| field.0 != username_key())
}

/// The attributes of a profile are all the fields of the table but the username,
/// each with its text, in their order.
pub proof fn law_attributes_are_the_other_fields(fields: Seq<Field>)
    requires
        distinct_keys(fields),
        first_non_string(fields) is None,
    ensures
        table_attributes(fields) == other_fields(fields).map_values(
            |field: Field| (field.0, field.1->0),
        ),
    decreases fields.len(),
{
    reveal(Seq::filter);
    let shape = |field: Field| (field.0, field.1->0);
    if fields.len() > 0 {
        let front = fields.drop_last();
        let last = fields.last();
        lemma_all_strings(fields);
        lemma_all_strings_from(front);
        law_attributes_are_the_other_fields(front);
        let before = table_attributes(front);
        if last.0 != username_key() {
            assert forall|i: int| 0 <= i < before.len() implies (#[trigger] before[i]).0
                != last.0 by {
                let kept = other_fields(front);
                assert(before[i].0 == kept[i].0);
                front.lemma_filter_contains_rev(|field: Field| field.0 != username_key(), kept[i]);
                let j = choose|j: int| 0 <= j < front.len() && front[j] == kept[i];
                assert(fields[j] == front[j]);
                assert(fields[fields.len() - 1] == last);
            }
            lemma_key_missing(before, last.0);
            assert(last.1 is Some);
            assert(other_fields(fields) =~= other_fields(front).push(last));
            assert(other_fields(fields).map_values(shape) =~= other_fields(front).map_values(
                shape,
            ).push((last.0, last.1->0)));
        }
    }
}

/// With no key without a text, every field has one.
proof fn lemma_all_strings(fields: Seq<Field>)
    requires
        first_non_string(fields) is None,
    ensures
        forall|i: int| 0 <= i < fields.len() ==> (#[trigger] fields[i]).1 is Some,
    decreases fields.len(),
{
    if fields.len() > 0 {
        lemma_all_strings(fields.drop_first());
        assert forall|i: int| 0 <= i < fields.len() implies (#[trigger] fields[i]).1 is Some by {
            if i > 0 {
                assert(fields.drop_first()[i - 1] == fields[i]);
            }
        }
    }
}

/// Where every field has a text, there is no key without one.
proof fn lemma_all_strings_from(fields: Seq<Field>)
    requires
        forall|i: int| 0 <= i < fields.len() ==> (#[trigger] fields[i]).1 is Some,
    ensures
        first_non_string(fields) is None,
    decreases fields.len(),
{
    if fields.len() > 0 {
        lemma_all_strings_from(fields.drop_first());
    }
}

/// A key that no pair has is found behind them all.
proof fn lemma_key_missing(pairs: Seq<Pair>, key: Seq<char>)
    requires
        forall|i: int| 0 <= i < pairs.len() ==> (#[trigger] pairs[i]).0 != key,
    ensures
        key_index(pairs, key) == pairs.len(),
    decreases pairs.len(),
{
    if pairs.len() > 0 {
        assert(pairs.first() == pairs[0]);
        assert forall|i: int| 0 <= i < pairs.drop_first().len() implies (
        #[trigger] pairs.drop_first()[i]).0 != key by {
            assert(pairs.drop_first()[i] == pairs[i + 1]);
        }
        lemma_key_missing(pairs.drop_first(), key);
    }
}

/// Whether a text holds printable ASCII only.
pub open spec fn all_printable(s: Seq<char>) -> bool {
    forall|i: int| 0 <= i < s.len() ==> printable(#[trigger] s[i])
}

/// Sanitised text is printable ASCII, and sanitising leaves such text as it is.
pub proof fn law_sanitised_text_is_printable(s: Seq<char>)
    ensures
        all_printable(sanitised(s)),
        all_printable(s) ==> sanitised(s) == s,
        sanitised(sanitised(s)) == sanitised(s),
{
    let pred = |c: char| printable(c);
    assert forall|i: int| 0 <= i < sanitised(s).len() implies printable(
        #[trigger] sanitised(s)[i],
    ) by {
        s.lemma_filter_pred(pred, i);
    }
    lemma_sanitised_verbatim(sanitised(s));
    if all_printable(s) {
        lemma_sanitised_verbatim(s);
    }
}

/// Sanitising leaves printable text as it is.
proof fn lemma_sanitised_verbatim(s: Seq<char>)
    requires
        all_printable(s),
    ensures
        sanitised(s) == s,
    decreases s.len(),
{
    reveal(Seq::filter);
    if s.len() > 0 {
        assert(s.last() == s[s.len() - 1]);
        lemma_sanitised_verbatim(s.drop_last());
        assert(s.drop_last().push(s.last()) =~= s);
    } else {
        assert(sanitised(s) =~= s);
    }
}

/// A value is shown verbatim behind its key, whatever it holds.
pub proof fn law_values_are_shown_verbatim(key: Seq<char>, value: Seq<char>)
    ensures
        attribute_line((key, value)) == shown_key(key) + ": "@ + value,
{
}

/// Whatever a plan holds, the lines that show it are printable ASCII.
pub proof fn law_plans_are_shown_in_printable_text(plan: Option<Seq<char>>)
    ensures
        forall|i: int| 0 <= i < plan_lines(plan).len() ==> all_printable(#[trigger] plan_lines(plan)[i]),
{
    reveal_strlit("(empty plan)");
    reveal_strlit("(no plan)");
    assert forall|i: int| 0 <= i < plan_lines(plan).len() implies all_printable(
        #[trigger] plan_lines(plan)[i],
    ) by {
        match plan {
            Some(content) => {
                if text::trim(content, CharClass::White).len() != 0 {
                    law_sanitised_text_is_printable(text::lines(content)[i]);
                }
            },
            None => {},
        }
    }
}

/// Without a request for it the plan leaves no trace in an answer.
pub proof fn law_plan_is_hidden_unless_requested(
    profile: ProfileView,
    plan: Option<Seq<char>>,
    other: Option<Seq<char>>,
)
    ensures
        profile_lines(profile, false, plan) == profile_lines(profile, false, other),
{
}

/// A request for the plan adds the section that shows it above the closing lines,
/// and changes nothing else.
pub proof fn law_requested_plan_is_added(profile: ProfileView, plan: Option<Seq<char>>)
    ensures
        ({
            let without = profile_lines(profile, false, plan);
            let at = without.len() - 2;
            profile_lines(profile, true, plan) == without.take(at) + plan_section(plan)
                + without.skip(at)
        }),
{
    let without = profile_lines(profile, false, plan);
    let at = without.len() - 2;
    let upper = seq!["User: "@ + profile.user] + profile.attributes.map_values(
        |pair: Pair| attribute_line(pair),
    );
    let closing = seq![Seq::<char>::empty(), "Powered by fingermouse"@];
    assert(without.take(at) =~= upper);
    assert(without.skip(at) =~= closing);
}

/// Every answer about a profile starts with the user, goes on with one line for
/// each attribute, and closes with the server's name.
pub proof fn law_answer_shows_the_whole_profile(
    profile: ProfileView,
    include_plan: bool,
    plan: Option<Seq<char>>,
)
    ensures
        ({
            let lines = profile_lines(profile, include_plan, plan);
            &&& lines.len() >= profile.attributes.len() + 3
            &&& lines[0] == "User: "@ + profile.user
            &&& forall|i: int|
                0 <= i < profile.attributes.len() ==> lines[1 + i] == attribute_line(
                    #[trigger] profile.attributes[i],
                )
            &&& lines.last() == "Powered by fingermouse"@
        }),
{
}

/// Where the username stands in a table with no key twice, that field's text is what
/// the table declares; without such a field it declares none.
proof fn lemma_declared(fields: Seq<Field>)
    requires
        forall|i: int, j: int|
            0 <= i < j < fields.len() ==> (#[trigger] fields[i]).0 != (#[trigger] fields[j]).0,
    ensures
        forall|i: int|
            0 <= i < fields.len() && (#[trigger] fields[i]).0 == username_key()
                ==> declared_username(fields) == fields[i].1,
        (forall|i: int| 0 <= i < fields.len() ==> (#[trigger] fields[i]).0 != username_key())
            ==> declared_username(fields) is None,
    decreases fields.len(),
{
    if fields.len() > 0 {
        let front = fields.drop_last();
        assert(forall|i: int| 0 <= i < front.len() ==> #[trigger] front[i] == fields[i]);
        lemma_declared(front);
        assert(fields.last() == fields[fields.len() - 1]);
        assert forall|i: int| 0 <= i < fields.len() && (#[trigger] fields[i]).0
            == username_key() implies declared_username(fields) == fields[i].1 by {
            if i < front.len() {
                assert(front[i].0 == username_key());
                assert(fields[i].0 != fields[fields.len() - 1].0);
            }
        }
    }
}

/// Of the fields without a text the first one is named.
proof fn lemma_first_non_string(fields: Seq<Field>, k: int)
    requires
        0 <= k < fields.len(),
        forall|i: int| 0 <= i < k ==> (#[trigger] fields[i]).1 is Some,
        fields[k].1 is None,
    ensures
        first_non_string(fields) == Some(fields[k].0),
    decreases k,
{
    if k > 0 {
        let rest = fields.drop_first();
        assert(fields.first() == fields[0]);
        assert(forall|i: int| 0 <= i < k - 1 ==> #[trigger] rest[i] == fields[i + 1]);
        assert(rest[k - 1] == fields[k]);
        lemma_first_non_string(rest, k - 1);
    }
}

/// A profile that is accepted holds every field of its table but the username, each
/// with its text and all of them in their order.
pub proof fn law_accepted_profile_holds_every_field(user: Seq<char>, fields: Seq<Field>)
    requires
        forall|i: int, j: int|
            0 <= i < j < fields.len() ==> (#[trigger] fields[i]).0 != (#[trigger] fields[j]).0,
    ensures
        table_profile(user, Some(fields)) matches Ok(profile) ==> {
            &&& profile.user == user
            &&& profile.attributes == fields.filter(
                |field: Field| field.0 != "username"@,
            ).map_values(|field: Field| (field.0, field.1->0))
            &&& forall|i: int|
                0 <= i < fields.len() && (#[trigger] fields[i]).0 != "username"@
                    ==> profile.attributes.contains((fields[i].0, fields[i].1->0))
        },
{
    reveal_strlit("username");
    assert("username"@ =~= username_key());
    let keep = |field: Field| field.0 != "username"@;
    let shape = |field: Field| (field.0, field.1->0);
    assert(keep =~= |field: Field| field.0 != username_key());
    if let Ok(profile) = table_profile(user, Some(fields)) {
        law_attributes_are_the_other_fields(fields);
        let kept = fields.filter(keep);
        assert forall|i: int| 0 <= i < fields.len() && (#[trigger] fields[i]).0
            != "username"@ implies profile.attributes.contains((fields[i].0, fields[i].1->0)) by {
            fields.lemma_filter_contains(keep, i);
            let j = choose|j: int| 0 <= j < kept.len() && kept[j] == fields[i];
            assert(kept.map_values(shape)[j] == (fields[i].0, fields[i].1->0));
        }
    }
}

/// What is no table, holds a value that is no string, or declares no username gives
/// no profile, and neither does one whose username cannot be read or is another's.
/// What is wrong is reported in this order, with the first key whose value is no
/// string.
pub proof fn law_profile_is_read_from_its_username(user: Seq<char>, fields: Seq<Field>, k: int)
    requires
        forall|i: int, j: int|
            0 <= i < j < fields.len() ==> (#[trigger] fields[i]).0 != (#[trigger] fields[j]).0,
    ensures
        table_profile(user, None) == Err::<ProfileView, ProfileErrorView>(
            ProfileErrorView::NotATable,
        ),
        0 <= k < fields.len() && fields[k].1 is None && (forall|i: int| 0 <= i < k ==> (#[trigger] fields[i]).1 is Some)
            ==> table_profile(user, Some(fields)) == Err::<ProfileView, ProfileErrorView>(
            ProfileErrorView::NonStringValue(fields[k].0),
        ),
        (forall|i: int| 0 <= i < fields.len() ==> (#[trigger] fields[i]).1 is Some) ==> {
            &&& (forall|i: int| 0 <= i < fields.len() ==> (#[trigger] fields[i]).0 != "username"@)
                ==> table_profile(user, Some(fields)) == Err::<ProfileView, ProfileErrorView>(
                ProfileErrorView::MissingUsername,
            )
            &&& 0 <= k < fields.len() && fields[k].0 == "username"@ ==> match identity::parse_username(fields[k].1->0) {
                Err(err) => table_profile(user, Some(fields)) == Err::<
                    ProfileView,
                    ProfileErrorView,
                >(ProfileErrorView::UsernameInvalid(err)),
                Ok(name) => if name == user {
                    table_profile(user, Some(fields)) is Ok
                } else {
                    table_profile(user, Some(fields)) == Err::<ProfileView, ProfileErrorView>(
                        ProfileErrorView::UsernameMismatch,
                    )
                },
            }
        },
{
    reveal_strlit("username");
    assert("username"@ =~= username_key());
    lemma_declared(fields);
    if 0 <= k < fields.len() && fields[k].1 is None && (forall|i: int| 0 <= i < k ==> (#[trigger] fields[i]).1 is Some) {
        lemma_first_non_string(fields, k);
    }
    if forall|i: int| 0 <= i < fields.len() ==> (#[trigger] fields[i]).1 is Some {
        lemma_all_strings_from(fields);
    }
}

/// A stored file has to be UTF-8 and TOML; the profile is that of its table.
pub proof fn law_stored_profile_is_that_of_its_table(user: Seq<char>, payload: Seq<u8>)
    ensures
        !valid_utf8(payload) ==> stored_profile(user, payload) == Err::<
            ProfileView,
            ProfileErrorView,
        >(ProfileErrorView::InvalidEncoding),
        valid_utf8(payload) ==> match toml_document(decode_utf8(payload)) {
            Err(description) => stored_profile(user, payload) == Err::<
                ProfileView,
                ProfileErrorView,
            >(ProfileErrorView::Toml(description)),
            Ok(table) => stored_profile(user, payload) == table_profile(user, table),
        },
{
}

/// Sanitising works character by character: it keeps the space to the tilde and drops
/// all else.
pub proof fn law_sanitising_keeps_space_to_tilde(a: Seq<char>, c: char, b: Seq<char>)
    ensures
        sanitised(a + b) == sanitised(a) + sanitised(b),
        sanitised(seq![c]) == if '\u{20}' <= c <= '\u{7e}' {
            seq![c]
        } else {
            seq![]
        },
        sanitised(Seq::empty()).len() == 0,
{
    let keep = |c: char| printable(c);
    Seq::filter_distributes_over_add(a, b, keep);
    reveal_with_fuel(Seq::filter, 2);
    assert(seq![c].drop_last() =~= Seq::<char>::empty());
    assert(sanitised(seq![c]) =~= if '\u{20}' <= c <= '\u{7e}' {
        seq![c]
    } else {
        seq![]
    });
}

/// A key is shown with as many characters as it has: the first in upper case, each
/// later underscore as a space, and every other character as it is.
pub proof fn law_keys_are_shown_readably(key: Seq<char>, i: int)
    requires
        0 <= i < key.len(),
    ensures
        shown_key(key).len() == key.len(),
        i == 0 && 'a' <= key[0] <= 'z' ==> shown_key(key)[0] as int == key[0] as int - 32,
        i == 0 && !('a' <= key[0] <= 'z') ==> shown_key(key)[0] == key[0],
        i > 0 && key[i] == '_' ==> shown_key(key)[i] == ' ',
        i > 0 && key[i] != '_' ==> shown_key(key)[i] == key[i],
{
}

/// A plan that is not blank is shown whole: as many lines as it has, each of them the
/// printable part of the plan's line. A blank plan and a missing one are shown as
/// such.
pub proof fn law_plan_is_shown_whole(content: Seq<char>)
    ensures
        (exists|i: int| 0 <= i < content.len() && !text::white_space(#[trigger] content[i])) ==> {
            &&& plan_lines(Some(content)).len() == text::lines(content).len()
            &&& forall|i: int|
                0 <= i < text::lines(content).len() ==> plan_lines(Some(content))[i] == sanitised(
                    #[trigger] text::lines(content)[i],
                )
        },
        (forall|i: int| 0 <= i < content.len() ==> text::white_space(#[trigger] content[i]))
            ==> plan_lines(Some(content)) == seq!["(empty plan)"@],
        plan_lines(None) == seq!["(no plan)"@],
{
    if forall|i: int| 0 <= i < content.len() ==> text::white_space(#[trigger] content[i]) {
        let none = Seq::<char>::empty();
        assert(content + none + none =~= content);
        text::law_trimming_leaves_the_text(content, none, none, CharClass::White);
    } else if text::trim(content, CharClass::White).len() == 0 {
        text::lemma_trim_to_nothing(content, CharClass::White);
    }
}

/// A plan of printable lines, of which one has something on it, is shown as exactly
/// these lines, all of them and in order.
pub proof fn law_written_plan_is_shown_line_by_line(ls: Seq<Seq<char>>, row: int, column: int)
    requires
        forall|i: int, j: int|
            0 <= i < ls.len() && 0 <= j < ls[i].len() ==> '\u{20}' <= #[trigger] ls[i][j] <= '\u{7e}',
        0 <= row < ls.len(),
        0 <= column < ls[row].len(),
        ls[row][column] != '\u{20}',
    ensures
        plan_lines(Some(text::written_lines(ls))) == ls,
{
    let content = text::written_lines(ls);
    text::law_written_lines_are_read_back(ls);
    text::lemma_written_lines_hold(ls, row, column);
    let at = choose|at: int| 0 <= at < content.len() && content[at] == ls[row][column];
    assert(!text::white_space(content[at]));
    law_plan_is_shown_whole(content);
    assert forall|i: int| 0 <= i < ls.len() implies #[trigger] plan_lines(Some(content))[i]
        == ls[i] by {
        assert(plan_lines(Some(content))[i] == sanitised(text::lines(content)[i]));
        assert forall|j: int| 0 <= j < ls[i].len() implies printable(#[trigger] ls[i][j]) by {}
        law_sanitised_text_is_printable(ls[i]);
    }
    assert(plan_lines(Some(content)) =~= ls);
}

/// An answer is, line by line: the user; each attribute; where the plan is asked for,
/// an empty line, the heading and the plan's lines; an empty line; the server's name.
/// There is nothing else.
pub proof fn law_answer_line_by_line(
    profile: ProfileView,
    include_plan: bool,
    plan: Option<Seq<char>>,
)
    ensures
        ({
            let lines = profile_lines(profile, include_plan, plan);
            let n = profile.attributes.len() as int;
            let shown = plan_lines(plan);
            let m = if include_plan {
                2 + shown.len() as int
            } else {
                0
            };
            &&& lines.len() == n + m + 3
            &&& lines[0] == "User: "@ + profile.user
            &&& forall|i: int|
                0 <= i < n ==> lines[1 + i] == shown_key((#[trigger] profile.attributes[i]).0)
                    + ": "@ + profile.attributes[i].1
            &&& include_plan ==> {
                &&& lines[n + 1].len() == 0
                &&& lines[n + 2] == "Plan:"@
                &&& forall|i: int| 0 <= i < shown.len() ==> lines[n + 3 + i] == #[trigger] shown[i]
            }
            &&& lines[n + m + 1].len() == 0
            &&& lines[n + m + 2] == "Powered by fingermouse"@
        }),
{
    let lines = profile_lines(profile, include_plan, plan);
    let n = profile.attributes.len() as int;
    let shown = plan_lines(plan);
    if include_plan {
        assert(plan_section(plan)[0].len() == 0);
        assert(lines[n + 1] == plan_section(plan)[0]);
        assert(lines[n + 2] == plan_section(plan)[1]);
        assert forall|i: int| 0 <= i < shown.len() implies lines[n + 3 + i] == #[trigger] shown[i] by {
            assert(lines[n + 3 + i] == plan_section(plan)[2 + i]);
        }
    }
}

/// Plain text is written line by line, each with a line feed behind it.
pub proof fn law_plain_text_is_line_by_line(a: Seq<Seq<char>>, line: Seq<char>, b: Seq<Seq<char>>)
    ensures
        plain_text(a + b) == plain_text(a) + plain_text(b),
        plain_text(seq![line]) == line + seq!['\u{a}'],
        plain_text(Seq::empty()).len() == 0,
    decreases b.len(),
{
    reveal_with_fuel(plain_text, 2);
    assert(seq![line].drop_last() =~= Seq::<Seq<char>>::empty());
    assert(plain_text(seq![line]) =~= line + seq!['\u{a}']);
    if b.len() == 0 {
        assert(a + b =~= a);
        assert(plain_text(a) + plain_text(b) =~= plain_text(a));
    } else {
        assert((a + b).drop_last() =~= a + b.drop_last());
        law_plain_text_is_line_by_line(a, line, b.drop_last());
        assert(plain_text(a) + plain_text(b.drop_last()) + b.last() + seq!['\n'] =~= plain_text(a)
            + plain_text(b));
    }
}

/// Descriptions name what they are about in full: the key, the parser's words, and
/// what is wrong with the username.
pub proof fn law_profile_errors_name_their_cause(key: Seq<char>, err: IdentityError)
    ensures
        ProfileErrorView::NonStringValue(key).text()
            == "profile data must only contain string values (key: "@ + key + ")"@,
        ProfileErrorView::Toml(key).text() == "invalid profile data: "@ + key,
        ProfileErrorView::UsernameInvalid(err).text() == "profile declares invalid username: "@
            + err.text(),
{
}

/// What is said of parsed fields and of stored attributes is said of each of them: as
/// many, in their order, each with its key and its text.
pub proof fn law_fields_are_seen_whole(
    fields: Vec<(String, Option<String>)>,
    pairs: Seq<(&String, &String)>,
    i: int,
)
    ensures
        field_texts(fields@).len() == fields@.len(),
        0 <= i < fields@.len() ==> field_texts(fields@)[i].0 == fields@[i].0@,
        0 <= i < fields@.len() ==> (fields@[i].1 matches Some(value) ==> field_texts(fields@)[i].1
            == Some(value@)),
        0 <= i < fields@.len() ==> (fields@[i].1 is None ==> field_texts(fields@)[i].1 is None),
        table_texts(Some(fields)) == Some(field_texts(fields@)),
        table_texts(None) is None,
        pair_texts(pairs).len() == pairs.len(),
        0 <= i < pairs.len() ==> pair_texts(pairs)[i] == (pairs[i].0@, pairs[i].1@),
{
}

/// What is said of a plan or of an error is said of all that it holds.
pub proof fn law_plans_and_errors_are_seen_whole(plan: &str, key: String)
    ensures
        plan_text(Some(plan)) == Some(plan@),
        plan_text(None) is None,
        (ProfileError::NonStringValue { key })@ == ProfileErrorView::NonStringValue(key@),
        ProfileError::Toml(key)@ == ProfileErrorView::Toml(key@),
{
}

} // verus!
