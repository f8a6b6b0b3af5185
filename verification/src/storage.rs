//! Where user data stands in the object store, and how it is loaded.
use crate::identity;
use crate::identity::Username;
use crate::text;
use crate::text::CharClass;
use crate::user;
use crate::user::{FingerProfile, ProfileError, ProfileErrorView, ProfileView};
use vstd::prelude::*;
use vstd::utf8::*;

verus! {

/// The store's own form of a path: `raw` with whatever the store would not take
/// percent-encoded.
pub uninterp spec fn object_path(raw: Seq<char>) -> Seq<char>;

/// Whether a character is stored as it is.
pub open spec fn plain_char(c: char) -> bool {
    ||| 'a' <= c <= 'z'
    ||| 'A' <= c <= 'Z'
    ||| '0' <= c <= '9'
    ||| c == '-'
    ||| c == '_'
    ||| c == '.'
}

/// Whether `s` is a relative path segment.
pub open spec fn relative(s: Seq<char>) -> bool {
    s == seq!['.'] || s == seq!['.', '.']
}

/// Whether `s` is a path segment that is stored as it is.
pub open spec fn plain_segment(s: Seq<char>) -> bool {
    &&& s.len() > 0
    &&& !relative(s)
    &&& forall|i: int| 0 <= i < s.len() ==> plain_char(#[trigger] s[i])
}

/// Whether every segment of a path is stored as it is.
pub open spec fn plain_path(path: Seq<char>) -> bool {
    forall|i: int|
        0 <= i < text::split(path, '/').len() ==> plain_segment(
            #[trigger] text::split(path, '/')[i],
        )
}

/// Whether a path leads downwards only: no segment is empty or relative.
pub open spec fn stays_inside(path: Seq<char>) -> bool {
    forall|i: int|
        0 <= i < text::split(path, '/').len() ==> (#[trigger] text::split(path, '/')[i]).len() > 0
            && !relative(text::split(path, '/')[i])
}

/// The path of `file` in `folder`.
pub open spec fn in_folder(folder: Seq<char>, file: Seq<char>) -> Seq<char> {
    if folder.len() == 0 {
        file
    } else {
        folder + seq!['/'] + file
    }
}

/// Trusted: `object_store::path::Path::from` encodes the segments of `raw` one by
/// one, drops those that are empty, and joins the rest with slashes. Of this the
/// contract says that the result depends on `raw` alone, that segments of plain
/// characters are kept as they are, on their own and behind others, and that no
/// segment of the result is relative, or empty unless the whole path is. How other
/// characters are encoded is left unsaid.
#[verifier::external_body]
fn encode_path(raw: String) -> (r: String)
    ensures
        r@ == object_path(raw@),
        plain_path(raw@) ==> r@ == raw@,
        forall|folder: Seq<char>, file: Seq<char>|
            plain_segment(file) && raw@ == #[trigger] (folder + seq!['/'] + file) ==> r@
                == in_folder(object_path(folder), file),
        r@.len() == 0 || stays_inside(r@),
{
    String::from(object_store::path::Path::from(raw))
}

/// Errors that may arise when retrieving user data from the backing store.
#[derive(Debug)]
pub enum RepositoryError {
    /// The store holds no profile of the user.
    NotFound,
    /// The stored profile is none.
    Parse(ProfileError),
    /// The stored plan is not UTF-8.
    InvalidPlanEncoding,
    /// The store failed; `source` is its own description.
    Storage { source: String },
}

/// What a repository error says.
pub enum RepositoryErrorView {
    NotFound,
    Parse(ProfileErrorView),
    InvalidPlanEncoding,
    Storage(Seq<char>),
}

impl View for RepositoryError {
    type V = RepositoryErrorView;

    open spec fn view(&self) -> RepositoryErrorView {
        match self {
            RepositoryError::NotFound => RepositoryErrorView::NotFound,
            RepositoryError::Parse(err) => RepositoryErrorView::Parse(err@),
            RepositoryError::InvalidPlanEncoding => RepositoryErrorView::InvalidPlanEncoding,
            RepositoryError::Storage { source } => RepositoryErrorView::Storage(source@),
        }
    }
}

impl RepositoryErrorView {
    /// The description of the error.
    pub open spec fn text(self) -> Seq<char> {
        match self {
            RepositoryErrorView::NotFound => "profile not found"@,
            RepositoryErrorView::Parse(err) => "profile parse error: "@ + err.text(),
            RepositoryErrorView::InvalidPlanEncoding => "plan is not valid UTF-8"@,
            RepositoryErrorView::Storage(source) => "storage backend error: "@ + source,
        }
    }
}

impl RepositoryError {
    /// Description of the error for the log.
    pub fn message(&self) -> (r: String)
        ensures
            r@ == self@.text(),
    {
        match self {
            RepositoryError::NotFound => "profile not found".to_owned(),
            RepositoryError::Parse(err) => text::joined(
                "profile parse error: ",
                err.message().as_str(),
            ),
            RepositoryError::InvalidPlanEncoding => "plan is not valid UTF-8".to_owned(),
            RepositoryError::Storage { source } => text::joined(
                "storage backend error: ",
                source.as_str(),
            ),
        }
    }
}

/// Compound user record containing the parsed profile and optional plan.
#[derive(Debug)]
pub struct UserRecord {
    pub profile: FingerProfile,
    pub plan: Option<String>,
}

/// What a user record holds.
#[verifier::ext_equal]
pub struct RecordView {
    pub profile: ProfileView,
    pub plan: Option<Seq<char>>,
}

/// The text of an optional string.
pub open spec fn optional_text(s: Option<String>) -> Option<Seq<char>> {
    match s {
        Some(s) => Some(s@),
        None => None,
    }
}

impl View for UserRecord {
    type V = RecordView;

    open spec fn view(&self) -> RecordView {
        RecordView { profile: self.profile@, plan: optional_text(self.plan) }
    }
}

impl Clone for UserRecord {
    fn clone(&self) -> (r: Self)
        ensures
            r@ == self@,
    {
        UserRecord {
            profile: self.profile.clone(),
            plan: match &self.plan {
                Some(plan) => Some(plan.clone()),
                None => None,
            },
        }
    }
}

/// What the store answers when it is asked for a file.
#[derive(Debug)]
pub enum FetchOutcome {
    /// The content of the file.
    Found(Vec<u8>),
    /// There is no such file.
    Missing,
    /// The store failed, for the reason it gives.
    Failed(String),
}

/// What a store's answer says.
pub enum FetchView {
    Found(Seq<u8>),
    Missing,
    Failed(Seq<char>),
}

impl View for FetchOutcome {
    type V = FetchView;

    open spec fn view(&self) -> FetchView {
        match self {
            FetchOutcome::Found(content) => FetchView::Found(content@),
            FetchOutcome::Missing => FetchView::Missing,
            FetchOutcome::Failed(reason) => FetchView::Failed(reason@),
        }
    }
}

/// What comes of asking for a user.
pub type LoadResult = Result<RecordView, RepositoryErrorView>;

/// What the answer to the request for the profile of `user` says.
pub open spec fn fetched_profile(user: Seq<char>, answer: FetchView) -> Result<
    ProfileView,
    RepositoryErrorView,
> {
    match answer {
        FetchView::Missing => Err(RepositoryErrorView::NotFound),
        FetchView::Failed(reason) => Err(RepositoryErrorView::Storage(reason)),
        FetchView::Found(content) => match user::stored_profile(user, content) {
            Ok(profile) => Ok(profile),
            Err(err) => Err(RepositoryErrorView::Parse(err)),
        },
    }
}

/// What the answer to the request for a plan says: a missing file is no plan.
pub open spec fn fetched_plan(answer: FetchView) -> Result<Option<Seq<char>>, RepositoryErrorView> {
    match answer {
        FetchView::Missing => Ok(None),
        FetchView::Failed(reason) => Err(RepositoryErrorView::Storage(reason)),
        FetchView::Found(content) => if valid_utf8(content) {
            Ok(Some(decode_utf8(content)))
        } else {
            Err(RepositoryErrorView::InvalidPlanEncoding)
        },
    }
}

/// The record that the two answers give. The profile decides first, and the plan
/// counts only where it is asked for.
pub open spec fn loaded_record(
    user: Seq<char>,
    include_plan: bool,
    profile_answer: FetchView,
    plan_answer: FetchView,
) -> LoadResult {
    match fetched_profile(user, profile_answer) {
        Err(err) => Err(err),
        Ok(profile) => if include_plan {
            match fetched_plan(plan_answer) {
                Err(err) => Err(err),
                Ok(plan) => Ok(RecordView { profile, plan }),
            }
        } else {
            Ok(RecordView { profile, plan: None })
        },
    }
}

/// `s` without the slashes at its ends.
fn trim_slashes(s: &str) -> (r: String)
    ensures
        r@ == text::trim(s@, CharClass::Slash),
{
    text::trim_str(s, CharClass::Slash).to_owned()
}

/// The name of the file that holds the profile of `user`.
pub open spec fn profile_file(user: Seq<char>) -> Seq<char> {
    user + seq!['.', 't', 'o', 'm', 'l']
}

/// The name of the file that holds the plan of `user`.
pub open spec fn plan_file(user: Seq<char>) -> Seq<char> {
    user + seq!['.', 'p', 'l', 'a', 'n']
}

/// Whether the last segment of a path is `file`.
pub open spec fn leads_to(path: Seq<char>, file: Seq<char>) -> bool {
    text::split(path, '/').last() == file
}

/// Layout of the user data in an object store: the folders of the profiles and of
/// the plans.
#[derive(Debug)]
pub struct ObjectStoreUserStore {
    profile_prefix: String,
    plan_prefix: String,
}

impl ObjectStoreUserStore {
    /// The folder of the profiles.
    pub closed spec fn profiles(&self) -> Seq<char> {
        self.profile_prefix@
    }

    /// The folder of the plans.
    pub closed spec fn plans(&self) -> Seq<char> {
        self.plan_prefix@
    }

    /// Create a layout with the provided folders.
    pub fn new(profile_prefix: &str, plan_prefix: &str) -> (r: ObjectStoreUserStore)
        ensures
            r.profiles() == text::trim(profile_prefix@, CharClass::Slash),
            r.plans() == text::trim(plan_prefix@, CharClass::Slash),
    {
        ObjectStoreUserStore {
            profile_prefix: trim_slashes(profile_prefix),
            plan_prefix: trim_slashes(plan_prefix),
        }
    }

    /// Path of the profile of `username`.
    pub fn profile_path(&self, username: &Username) -> (r: String)
        ensures
            r@ == self.folders().profile_of(username@),
            leads_to(r@, profile_file(username@)),
            stays_inside(r@),
            plain_path(in_folder(self.profiles(), profile_file(username@))) ==> r@ == in_folder(
                self.profiles(),
                profile_file(username@),
            ),
    {
        let file = text::joined(username.as_str(), ".toml");
        proof {
            reveal_strlit(".toml");
            assert(file@ =~= profile_file(username@));
            lemma_user_file(username@, seq!['.', 't', 'o', 'm', 'l']);
        }
        Self::join(&self.profile_prefix, &file)
    }

    /// Path of the plan of `username`.
    pub fn plan_path(&self, username: &Username) -> (r: String)
        ensures
            r@ == self.folders().plan_of(username@),
            leads_to(r@, plan_file(username@)),
            stays_inside(r@),
            plain_path(in_folder(self.plans(), plan_file(username@))) ==> r@ == in_folder(
                self.plans(),
                plan_file(username@),
            ),
    {
        let file = text::joined(username.as_str(), ".plan");
        proof {
            reveal_strlit(".plan");
            assert(file@ =~= plan_file(username@));
            lemma_user_file(username@, seq!['.', 'p', 'l', 'a', 'n']);
        }
        Self::join(&self.plan_prefix, &file)
    }

    /// Path of `file` in the folder `prefix`.
    fn join(prefix: &String, file: &String) -> (r: String)
        requires
            plain_segment(file@),
        ensures
            r@ == object_path(in_folder(prefix@, file@)),
            leads_to(r@, file@),
            stays_inside(r@),
            plain_path(in_folder(prefix@, file@)) ==> r@ == in_folder(prefix@, file@),
    {
        proof {
            assert forall|i: int| 0 <= i < file@.len() implies #[trigger] file@[i] != '/' by {
                assert(plain_char(file@[i]));
            }
            text::lemma_split_single(file@, '/');
        }
        if prefix.as_str().is_empty() {
            encode_path(file.clone())
        } else {
            let mut raw = prefix.clone();
            raw.push('/');
            raw.append(file.as_str());
            assert(raw@ =~= prefix@ + seq!['/'] + file@);
            let path = encode_path(raw);
            proof {
                let folder = object_path(prefix@);
                assert(path@ == in_folder(folder, file@));
                text::lemma_split_last(folder, file@, '/');
            }
            path
        }
    }
}

/// The file of a user is a plain path segment.
proof fn lemma_user_file(user: Seq<char>, ending: Seq<char>)
    requires
        identity::valid_username(user),
        ending.len() == 5,
        forall|i: int| 0 <= i < ending.len() ==> plain_char(#[trigger] ending[i]),
    ensures
        plain_segment(user + ending),
{
    let file = user + ending;
    assert forall|i: int| 0 <= i < file.len() implies plain_char(#[trigger] file[i]) by {
        if i < user.len() {
            assert(identity::username_char(user[i]));
        } else {
            assert(plain_char(ending[i - user.len()]));
        }
    }
    assert(file.len() > seq!['.', '.'].len());
    assert(file.len() > seq!['.'].len());
}

/// What a load is waiting for.
#[derive(Debug)]
pub enum LoadState {
    /// The profile of `username`.
    Profile { username: Username, include_plan: bool },
    /// The plan that goes with `profile`.
    Plan { profile: FingerProfile },
}

/// What a load's state says.
pub enum LoadStateView {
    Profile { user: Seq<char>, include_plan: bool },
    Plan { profile: ProfileView },
}

impl View for LoadState {
    type V = LoadStateView;

    open spec fn view(&self) -> LoadStateView {
        match self {
            LoadState::Profile { username, include_plan } => LoadStateView::Profile {
                user: username@,
                include_plan: *include_plan,
            },
            LoadState::Plan { profile } => LoadStateView::Plan { profile: profile@ },
        }
    }
}

/// What a load does next.
#[derive(Debug)]
pub enum LoadStep {
    /// Fetch the file at `path`, and resume in `state` with the answer.
    Fetch { path: String, state: LoadState },
    /// Finish with the outcome.
    Done(Result<UserRecord, RepositoryError>),
}

/// What a load's next step says.
pub enum LoadStepView {
    Fetch { path: Seq<char>, state: LoadStateView },
    Done(LoadResult),
}

/// What the outcome of a load says.
pub open spec fn outcome_view(outcome: Result<UserRecord, RepositoryError>) -> LoadResult {
    match outcome {
        Ok(record) => Ok(record@),
        Err(err) => Err(err@),
    }
}

impl View for LoadStep {
    type V = LoadStepView;

    open spec fn view(&self) -> LoadStepView {
        match self {
            LoadStep::Fetch { path, state } => LoadStepView::Fetch { path: path@, state: state@ },
            LoadStep::Done(outcome) => LoadStepView::Done(outcome_view(*outcome)),
        }
    }
}

/// The folders of the profiles and of the plans.
pub struct Folders {
    pub profiles: Seq<char>,
    pub plans: Seq<char>,
}

impl Folders {
    /// Where the profile of `user` stands.
    pub open spec fn profile_of(self, user: Seq<char>) -> Seq<char> {
        object_path(in_folder(self.profiles, profile_file(user)))
    }

    /// Where the plan of `user` stands.
    pub open spec fn plan_of(self, user: Seq<char>) -> Seq<char> {
        object_path(in_folder(self.plans, plan_file(user)))
    }

    /// The first step of a load: ask for the profile.
    pub open spec fn first_step(self, user: Seq<char>, include_plan: bool) -> LoadStepView {
        LoadStepView::Fetch {
            path: self.profile_of(user),
            state: LoadStateView::Profile { user, include_plan },
        }
    }

    /// The step that follows an answer.
    pub open spec fn next_step(self, state: LoadStateView, answer: FetchView) -> LoadStepView {
        match state {
            LoadStateView::Profile { user, include_plan } => match fetched_profile(user, answer) {
                Err(err) => LoadStepView::Done(Err(err)),
                Ok(profile) => if include_plan {
                    LoadStepView::Fetch {
                        path: self.plan_of(user),
                        state: LoadStateView::Plan { profile },
                    }
                } else {
                    LoadStepView::Done(Ok(RecordView { profile, plan: None }))
                },
            },
            LoadStateView::Plan { profile } => match fetched_plan(answer) {
                Err(err) => LoadStepView::Done(Err(err)),
                Ok(plan) => LoadStepView::Done(Ok(RecordView { profile, plan })),
            },
        }
    }

    /// What a load comes to from `step` on when the store answers as `fetch` does,
    /// with at most `fuel` more fetches; nothing where they do not suffice.
    pub open spec fn run(
        self,
        step: LoadStepView,
        fetch: spec_fn(Seq<char>) -> FetchView,
        fuel: nat,
    ) -> Option<LoadResult>
        decreases fuel,
    {
        match step {
            LoadStepView::Done(outcome) => Some(outcome),
            LoadStepView::Fetch { path, state } => if fuel == 0 {
                None
            } else {
                self.run(self.next_step(state, fetch(path)), fetch, (fuel - 1) as nat)
            },
        }
    }
}

impl ObjectStoreUserStore {
    /// The folders of this layout.
    pub open spec fn folders(&self) -> Folders {
        Folders { profiles: self.profiles(), plans: self.plans() }
    }

    /// Begin to load the record for `username`, optionally including the plan file.
    pub fn load_user(&self, username: &Username, include_plan: bool) -> (r: LoadStep)
        ensures
            r@ == self.folders().first_step(username@, include_plan),
    {
        LoadStep::Fetch {
            path: self.profile_path(username),
            state: LoadState::Profile { username: username.clone(), include_plan },
        }
    }

    /// Go on with a load once the store has answered.
    pub fn resume(&self, state: LoadState, answer: FetchOutcome) -> (r: LoadStep)
        ensures
            r@ == self.folders().next_step(state@, answer@),
    {
        match state {
            LoadState::Profile { username, include_plan } => {
                let content = match answer {
                    FetchOutcome::Found(content) => content,
                    FetchOutcome::Missing => {
                        return LoadStep::Done(Err(RepositoryError::NotFound));
                    },
                    FetchOutcome::Failed(source) => {
                        return LoadStep::Done(Err(RepositoryError::Storage { source }));
                    },
                };
                match FingerProfile::parse(username.clone(), content.as_slice()) {
                    Ok(profile) => {
                        if include_plan {
                            LoadStep::Fetch {
                                path: self.plan_path(&username),
                                state: LoadState::Plan { profile },
                            }
                        } else {
                            LoadStep::Done(Ok(UserRecord { profile, plan: None }))
                        }
                    },
                    Err(err) => LoadStep::Done(Err(RepositoryError::Parse(err))),
                }
            },
            LoadState::Plan { profile } => {
                match answer {
                    FetchOutcome::Found(content) => {
                        match core::str::from_utf8(content.as_slice()) {
                            Ok(plan) => {
                                proof {
                                    encode_utf8_decode_utf8(plan@);
                                }
                                LoadStep::Done(
                                    Ok(UserRecord { profile, plan: Some(plan.to_owned()) }),
                                )
                            },
                            Err(_) => LoadStep::Done(Err(RepositoryError::InvalidPlanEncoding)),
                        }
                    },
                    FetchOutcome::Missing => LoadStep::Done(Ok(UserRecord { profile, plan: None })),
                    FetchOutcome::Failed(source) => LoadStep::Done(
                        Err(RepositoryError::Storage { source }),
                    ),
                }
            },
        }
    }
}

/// Whatever the store answers, a load ends after two fetches at most, and what it
/// comes to is decided by the user's own two files.
pub proof fn law_load_reads_the_users_files(
    folders: Folders,
    user: Seq<char>,
    include_plan: bool,
    fetch: spec_fn(Seq<char>) -> FetchView,
)
    ensures
        folders.run(folders.first_step(user, include_plan), fetch, 2) == Some(
            loaded_record(
                user,
                include_plan,
                fetch(folders.profile_of(user)),
                fetch(folders.plan_of(user)),
            ),
        ),
{
    reveal_with_fuel(Folders::run, 3);
}

/// A load that does not ask for the plan ends after one fetch, that of the profile.
pub proof fn law_plan_is_fetched_only_on_request(
    folders: Folders,
    user: Seq<char>,
    fetch: spec_fn(Seq<char>) -> FetchView,
)
    ensures
        folders.run(folders.first_step(user, false), fetch, 1) is Some,
{
    reveal_with_fuel(Folders::run, 2);
}

/// A missing plan is no failure: the record has none.
pub proof fn law_missing_plan_is_no_failure(user: Seq<char>, answer: FetchView)
    ensures
        loaded_record(user, true, answer, FetchView::Missing) == loaded_record(
            user,
            false,
            answer,
            FetchView::Missing,
        ),
{
}

/// A record that is loaded for a user is that user's.
pub proof fn law_record_is_of_the_requested_user(
    user: Seq<char>,
    include_plan: bool,
    profile_answer: FetchView,
    plan_answer: FetchView,
)
    ensures
        loaded_record(user, include_plan, profile_answer, plan_answer) matches Ok(record)
            ==> record.profile.user == user,
{
}

/// No path leads to the profiles of two users, to the plans of two users, or to a
/// profile and a plan.
pub proof fn law_paths_tell_users_and_files_apart(path: Seq<char>, a: Seq<char>, b: Seq<char>)
    ensures
        leads_to(path, profile_file(a)) && leads_to(path, profile_file(b)) ==> a == b,
        leads_to(path, plan_file(a)) && leads_to(path, plan_file(b)) ==> a == b,
        !(leads_to(path, profile_file(a)) && leads_to(path, plan_file(b))),
{
    assert(profile_file(a).take(profile_file(a).len() - 5) =~= a);
    assert(profile_file(b).take(profile_file(b).len() - 5) =~= b);
    assert(plan_file(a).take(plan_file(a).len() - 5) =~= a);
    assert(plan_file(b).take(plan_file(b).len() - 5) =~= b);
    assert(profile_file(a).last() == 'l');
    assert(plan_file(b).last() == 'n');
}

/// The profile of a user is the file named after the user with `.toml` behind the
/// name, and the plan that with `.plan`, each in its folder; without a folder it
/// stands at the root.
pub proof fn law_user_files_are_named_after_the_user(folders: Folders, user: Seq<char>)
    ensures
        folders.profiles.len() > 0 ==> folders.profile_of(user) == object_path(
            folders.profiles + "/"@ + user + ".toml"@,
        ),
        folders.profiles.len() == 0 ==> folders.profile_of(user) == object_path(user + ".toml"@),
        folders.plans.len() > 0 ==> folders.plan_of(user) == object_path(
            folders.plans + "/"@ + user + ".plan"@,
        ),
        folders.plans.len() == 0 ==> folders.plan_of(user) == object_path(user + ".plan"@),
{
    reveal_strlit("/");
    reveal_strlit(".toml");
    reveal_strlit(".plan");
    assert(profile_file(user) =~= user + ".toml"@);
    assert(plan_file(user) =~= user + ".plan"@);
    assert(in_folder(folders.profiles, profile_file(user)) =~= if folders.profiles.len() > 0 {
        folders.profiles + "/"@ + user + ".toml"@
    } else {
        user + ".toml"@
    });
    assert(in_folder(folders.plans, plan_file(user)) =~= if folders.plans.len() > 0 {
        folders.plans + "/"@ + user + ".plan"@
    } else {
        user + ".plan"@
    });
}

/// Segments of letters, digits, hyphens, underscores and dots that are not relative
/// are plain.
pub proof fn law_plain_segments(s: Seq<char>)
    ensures
        plain_segment(s) <==> {
            &&& s.len() > 0
            &&& !(s == seq!['.'] || s == seq!['.', '.'])
            &&& forall|i: int|
                0 <= i < s.len() ==> {
                    ||| 'a' <= #[trigger] s[i] <= 'z'
                    ||| 'A' <= s[i] <= 'Z'
                    ||| '0' <= s[i] <= '9'
                    ||| s[i] == '-'
                    ||| s[i] == '_'
                    ||| s[i] == '.'
                }
        },
{
    if plain_segment(s) {
        assert forall|i: int| 0 <= i < s.len() implies {
            ||| 'a' <= #[trigger] s[i] <= 'z'
            ||| 'A' <= s[i] <= 'Z'
            ||| '0' <= s[i] <= '9'
            ||| s[i] == '-'
            ||| s[i] == '_'
            ||| s[i] == '.'
        } by {
            assert(plain_char(s[i]));
        }
    } else if forall|i: int|
        0 <= i < s.len() ==> {
            ||| 'a' <= #[trigger] s[i] <= 'z'
            ||| 'A' <= s[i] <= 'Z'
            ||| '0' <= s[i] <= '9'
            ||| s[i] == '-'
            ||| s[i] == '_'
            ||| s[i] == '.'
        } {
        assert forall|i: int| 0 <= i < s.len() implies plain_char(#[trigger] s[i]) by {}
    }
}

/// What a load comes to for each pair of answers. The profile decides first: a
/// missing one is no such user, a failure of the store is reported in its words, and
/// a file that gives no profile is reported with the reason. A plan counts only where
/// it is asked for: a missing one is none, and what is found is given in full.
pub proof fn law_what_a_load_comes_to(
    user: Seq<char>,
    include_plan: bool,
    content: Seq<u8>,
    reason: Seq<char>,
    plan: Seq<u8>,
    answer: FetchView,
)
    ensures
        loaded_record(user, include_plan, FetchView::Missing, answer) == Err::<
            RecordView,
            RepositoryErrorView,
        >(RepositoryErrorView::NotFound),
        loaded_record(user, include_plan, FetchView::Failed(reason), answer) == Err::<
            RecordView,
            RepositoryErrorView,
        >(RepositoryErrorView::Storage(reason)),
        match user::stored_profile(user, content) {
            Err(err) => loaded_record(user, include_plan, FetchView::Found(content), answer)
                == Err::<RecordView, RepositoryErrorView>(RepositoryErrorView::Parse(err)),
            Ok(profile) => {
                let found = FetchView::Found(content);
                &&& loaded_record(user, false, found, answer) == Ok::<
                    RecordView,
                    RepositoryErrorView,
                >(RecordView { profile, plan: None })
                &&& loaded_record(user, true, found, FetchView::Missing) == Ok::<
                    RecordView,
                    RepositoryErrorView,
                >(RecordView { profile, plan: None })
                &&& loaded_record(user, true, found, FetchView::Failed(reason)) == Err::<
                    RecordView,
                    RepositoryErrorView,
                >(RepositoryErrorView::Storage(reason))
                &&& valid_utf8(plan) ==> loaded_record(user, true, found, FetchView::Found(plan))
                    == Ok::<RecordView, RepositoryErrorView>(
                    RecordView { profile, plan: Some(decode_utf8(plan)) },
                )
                &&& !valid_utf8(plan) ==> loaded_record(user, true, found, FetchView::Found(plan))
                    == Err::<RecordView, RepositoryErrorView>(
                    RepositoryErrorView::InvalidPlanEncoding,
                )
            },
        },
{
}

/// Descriptions give the store's words and the profile's fault in full.
pub proof fn law_repository_errors_name_their_cause(reason: Seq<char>, err: ProfileErrorView)
    ensures
        RepositoryErrorView::Storage(reason).text() == "storage backend error: "@ + reason,
        RepositoryErrorView::Parse(err).text() == "profile parse error: "@ + err.text(),
{
}

/// What is said of records, answers and steps is said of all that they hold.
pub proof fn law_records_and_answers_are_seen_whole(
    record: UserRecord,
    content: Vec<u8>,
    reason: String,
    err: ProfileError,
    username: Username,
    include_plan: bool,
    state: LoadState,
)
    ensures
        record@.profile == record.profile@,
        record.plan matches Some(plan) ==> record@.plan == Some(plan@),
        record.plan is None ==> record@.plan is None,
        FetchOutcome::Found(content)@ == FetchView::Found(content@),
        FetchOutcome::Failed(reason)@ == FetchView::Failed(reason@),
        FetchOutcome::Missing@ is Missing,
        (RepositoryError::Storage { source: reason })@ == RepositoryErrorView::Storage(reason@),
        RepositoryError::Parse(err)@ == RepositoryErrorView::Parse(err@),
        (LoadState::Profile { username, include_plan })@ == (LoadStateView::Profile {
            user: username@,
            include_plan,
        }),
        (LoadState::Plan { profile: record.profile })@ == (LoadStateView::Plan {
            profile: record.profile@,
        }),
        (LoadStep::Fetch { path: reason, state })@ == (LoadStepView::Fetch {
            path: reason@,
            state: state@,
        }),
        LoadStep::Done(Ok(record))@ == LoadStepView::Done(Ok(record@)),
{
}

/// A load asks for the profile first, and for the plan behind it where the plan is
/// wanted.
pub proof fn law_load_asks_for_the_profile_and_then_the_plan(
    folders: Folders,
    user: Seq<char>,
    include_plan: bool,
    content: Seq<u8>,
    profile: ProfileView,
)
    requires
        user::stored_profile(user, content) == Ok::<ProfileView, ProfileErrorView>(profile),
    ensures
        folders.first_step(user, include_plan) == (LoadStepView::Fetch {
            path: folders.profile_of(user),
            state: LoadStateView::Profile { user, include_plan },
        }),
        folders.next_step(
            LoadStateView::Profile { user, include_plan: true },
            FetchView::Found(content),
        ) == (LoadStepView::Fetch {
            path: folders.plan_of(user),
            state: LoadStateView::Plan { profile },
        }),
        folders.next_step(
            LoadStateView::Profile { user, include_plan: false },
            FetchView::Found(content),
        ) == LoadStepView::Done(Ok(RecordView { profile, plan: None })),
{
}

} // verus!
