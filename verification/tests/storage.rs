use fingermouse::identity::Username;
use fingermouse::storage::{
    FetchOutcome, LoadStep, ObjectStoreUserStore, RepositoryError, UserRecord,
};
use fingermouse::user::ProfileError;
use futures::executor::block_on;
use object_store::memory::InMemory;
use object_store::path::Path;
use object_store::{ObjectStore, PutPayload};

fn user(name: &str) -> Username {
    match Username::parse(name) {
        Ok(user) => user,
        Err(err) => panic!("no username: {}", err.message()),
    }
}

fn store_with(files: &[(&str, &[u8])]) -> InMemory {
    let store = InMemory::new();
    for (path, content) in files {
        let path = Path::parse(path).unwrap();
        block_on(store.put(&path, PutPayload::from(content.to_vec()))).unwrap();
    }
    store
}

fn fetch(store: &InMemory, path: &str) -> FetchOutcome {
    let path = Path::parse(path).unwrap();
    match block_on(store.get(&path)) {
        Ok(found) => FetchOutcome::Found(block_on(found.bytes()).unwrap().to_vec()),
        Err(object_store::Error::NotFound { .. }) => FetchOutcome::Missing,
        Err(err) => FetchOutcome::Failed(err.to_string()),
    }
}

fn load(
    layout: &ObjectStoreUserStore,
    store: &InMemory,
    name: &str,
    include_plan: bool,
) -> (Result<UserRecord, RepositoryError>, Vec<String>) {
    let mut fetched = Vec::new();
    let mut step = layout.load_user(&user(name), include_plan);
    loop {
        match step {
            LoadStep::Done(outcome) => return (outcome, fetched),
            LoadStep::Fetch { path, state } => {
                let answer = fetch(store, &path);
                fetched.push(path);
                step = layout.resume(state, answer);
            }
        }
    }
}

const ALICE: &str = r#"
                        username = "alice"
                        full_name = "Alice Example"
                    "#;

#[test]
fn load_user_behaviour() {
    let store = store_with(&[
        ("profiles/alice.toml", ALICE.as_bytes()),
        ("plans/alice.plan", b"improve documentation\n"),
    ]);
    let repo = ObjectStoreUserStore::new("profiles", "plans");
    let (outcome, _) = load(&repo, &store, "alice", true);
    let record = match outcome {
        Ok(record) => record,
        Err(err) => panic!("expected a record, got {}", err.message()),
    };
    assert!(record.plan.is_some());
    let response = record.profile.render(true, record.plan.as_deref());
    let text = String::from_utf8(response.as_bytes()).unwrap();
    assert!(text.contains("Alice Example"));
    assert!(
        text.contains("improve documentation"),
        "expected rendered profile to contain plan snippet"
    );

    let empty = store_with(&[]);
    let (outcome, _) = load(&repo, &empty, "bob", false);
    assert!(
        matches!(outcome, Err(RepositoryError::NotFound)),
        "expected missing user error"
    );
}

#[test]
fn paths_of_user_files() {
    let repo = ObjectStoreUserStore::new("/profiles/", "//deep/plans");
    assert_eq!(repo.profile_path(&user("alice")), "profiles/alice.toml");
    assert_eq!(repo.plan_path(&user("Bob_1")), "deep/plans/bob_1.plan");
    let root = ObjectStoreUserStore::new("", "/");
    assert_eq!(root.profile_path(&user("alice")), "alice.toml");
    assert_eq!(root.plan_path(&user("alice")), "alice.plan");
}

#[test]
fn paths_never_climb() {
    let repo = ObjectStoreUserStore::new("../secret", "a//b/./*");
    assert_eq!(
        repo.profile_path(&user("alice")),
        "%2E%2E/secret/alice.toml"
    );
    assert_eq!(repo.plan_path(&user("alice")), "a/b/%2E/%2A/alice.plan");
}

#[test]
fn only_what_is_needed_is_fetched() {
    let store = store_with(&[
        ("profiles/alice.toml", ALICE.as_bytes()),
        ("plans/alice.plan", b"x"),
    ]);
    let repo = ObjectStoreUserStore::new("profiles", "plans");
    let (outcome, fetched) = load(&repo, &store, "alice", false);
    assert!(outcome.is_ok_and(|record| record.plan.is_none()));
    assert_eq!(fetched, ["profiles/alice.toml"]);
    let (outcome, fetched) = load(&repo, &store, "alice", true);
    assert!(outcome.is_ok_and(|record| record.plan.as_deref() == Some("x")));
    assert_eq!(fetched, ["profiles/alice.toml", "plans/alice.plan"]);
    let (_, fetched) = load(&repo, &store, "bob", true);
    assert_eq!(fetched, ["profiles/bob.toml"]);
}

#[test]
fn missing_plan_is_no_failure() {
    let store = store_with(&[("profiles/alice.toml", ALICE.as_bytes())]);
    let repo = ObjectStoreUserStore::new("profiles", "plans");
    let (outcome, _) = load(&repo, &store, "alice", true);
    let record = outcome.unwrap();
    assert!(record.plan.is_none());
    assert!(record.clone().plan.is_none());
}

#[test]
fn load_failures() {
    let store = store_with(&[
        ("profiles/alice.toml", ALICE.as_bytes()),
        ("profiles/bob.toml", ALICE.as_bytes()),
        ("plans/alice.plan", b"\xff\xfe"),
    ]);
    let repo = ObjectStoreUserStore::new("profiles", "plans");
    assert!(matches!(
        load(&repo, &store, "alice", true).0,
        Err(RepositoryError::InvalidPlanEncoding)
    ));
    assert!(matches!(
        load(&repo, &store, "bob", true).0,
        Err(RepositoryError::Parse(ProfileError::UsernameMismatch))
    ));
    for include_plan in [false, true] {
        let LoadStep::Fetch { state, .. } = repo.load_user(&user("alice"), include_plan) else {
            panic!("a load begins with a fetch");
        };
        let step = repo.resume(state, FetchOutcome::Failed("disk gone".to_owned()));
        assert!(matches!(
            step,
            LoadStep::Done(Err(RepositoryError::Storage { source })) if source == "disk gone"
        ));
    }
    let LoadStep::Fetch { state, .. } = repo.load_user(&user("alice"), true) else {
        panic!("a load begins with a fetch");
    };
    let LoadStep::Fetch { path, state } =
        repo.resume(state, FetchOutcome::Found(ALICE.as_bytes().to_vec()))
    else {
        panic!("the plan comes next");
    };
    assert_eq!(path, "plans/alice.plan");
    assert!(matches!(
        repo.resume(state, FetchOutcome::Failed("disk gone".to_owned())),
        LoadStep::Done(Err(RepositoryError::Storage { source })) if source == "disk gone"
    ));
}

#[test]
fn repository_messages() {
    let cases = [
        (RepositoryError::NotFound, "profile not found"),
        (
            RepositoryError::Parse(ProfileError::MissingUsername),
            "profile parse error: profile must declare a username field",
        ),
        (
            RepositoryError::InvalidPlanEncoding,
            "plan is not valid UTF-8",
        ),
        (
            RepositoryError::Storage {
                source: "disk gone".to_owned(),
            },
            "storage backend error: disk gone",
        ),
    ];
    for (err, expected) in cases {
        assert_eq!(err.message(), expected);
    }
    assert_eq!(
        RepositoryError::Parse(ProfileError::Toml("no table".to_owned())).message(),
        "profile parse error: invalid profile data: no table"
    );
}
