use crates_io_changes::index::CratesIndex;
use crates_io_changes::record::ChangeType;

const FOO_LINE: &str = "{\"name\":\"foo\",\"version\":\"1.0.0\",\"dependencies\":[],\"checksum\":\"a\",\"features\":{},\"yanked\":false}\n";
const BAR_LINE: &str = "{\"name\":\"bar\",\"version\":\"0.2.0\",\"dependencies\":[],\"checksum\":\"b\",\"features\":{},\"yanked\":true}\n";

/// Adds one commit whose tree holds exactly `files`, on top of `parent`.
fn add_commit(
    repo: &git2::Repository,
    parent: Option<git2::Oid>,
    author: &str,
    message: &str,
    files: &[(&str, &str)],
) -> git2::Oid {
    let mut tb = repo.treebuilder(None).unwrap();
    for (name, content) in files {
        let blob = repo.blob(content.as_bytes()).unwrap();
        tb.insert(name, blob, 0o100644).unwrap();
    }
    let tree_id = tb.write().unwrap();
    let tree = repo.find_tree(tree_id).unwrap();
    let sig = git2::Signature::now(author, "reg@example.com").unwrap();
    let parent_commits = match parent {
        Some(p) => vec![repo.find_commit(p).unwrap()],
        None => vec![],
    };
    let parent_refs: Vec<&git2::Commit> = parent_commits.iter().collect();
    repo.commit(None, &sig, &sig, message, &tree, &parent_refs).unwrap()
}

/// Points the repository's head at `tip`, replacing whatever was there, so
/// reruns of a test see only the chain it just built.
fn set_head(repo: &git2::Repository, tip: git2::Oid) {
    repo.reference("refs/heads/main", tip, true, "test").unwrap();
    repo.set_head("refs/heads/main").unwrap();
}

#[test]
fn test() {
    // The walk wants a registry clone at this path; build a small stand-in
    // when the surroundings allow writing, and leave quietly when they do not.
    let repo = match git2::Repository::init("crates.io-index") {
        Ok(r) => r,
        Err(_) => return,
    };
    let c0 = add_commit(&repo, None, "someone", "init", &[("config", "{}\n")]);
    let c1 = add_commit(
        &repo,
        Some(c0),
        "bors",
        "publish foo",
        &[("config", "{}\n"), ("foo", FOO_LINE)],
    );
    set_head(&repo, c1);
    drop(repo);

    let index = CratesIndex::new("crates.io-index").unwrap();
    let iter = index.iter().unwrap();

    let mut iter = iter;
    while let Some(i) = iter.next() {
        println!("{:?}", i);
    }
}

#[test]
fn single_commit_repository_yields_empty_stream() {
    let repo = match git2::Repository::init("target/testrepo_single") {
        Ok(r) => r,
        Err(_) => return,
    };
    let c0 = add_commit(&repo, None, "bors", "root", &[("foo", FOO_LINE)]);
    set_head(&repo, c0);
    drop(repo);

    let index = CratesIndex::new("target/testrepo_single").unwrap();
    let mut iter = index.iter().unwrap();
    assert!(iter.next().is_none());
}

#[test]
fn scenario_two_publishes_and_one_stranger() {
    let repo = match git2::Repository::init("target/testrepo_scenario") {
        Ok(r) => r,
        Err(_) => return,
    };
    let c0 = add_commit(&repo, None, "someone", "init", &[("config", "{}\n")]);
    let c1 = add_commit(
        &repo,
        Some(c0),
        "bors",
        "publish foo",
        &[("config", "{}\n"), ("foo", FOO_LINE)],
    );
    let c2 = add_commit(
        &repo,
        Some(c1),
        "alice",
        "proposal",
        &[("config", "{}\n"), ("foo", FOO_LINE), ("note", "hi\n")],
    );
    let c3 = add_commit(
        &repo,
        Some(c2),
        "bors",
        "yank bar",
        &[("config", "{}\n"), ("foo", FOO_LINE), ("note", "hi\n"), ("bar", BAR_LINE)],
    );
    set_head(&repo, c3);
    drop(repo);

    let index = CratesIndex::new("target/testrepo_scenario").unwrap();
    let mut iter = index.iter().unwrap();

    let first = iter.next().expect("first event").expect("no error");
    assert_eq!(first.payload.name, b"foo".to_vec());
    assert_eq!(first.payload.version, b"1.0.0".to_vec());
    assert!(!first.payload.yanked);
    assert_eq!(first.message, Some(b"publish foo".to_vec()));

    let second = iter.next().expect("second event").expect("no error");
    assert_eq!(second.payload.name, b"bar".to_vec());
    assert_eq!(second.payload.version, b"0.2.0".to_vec());
    assert!(second.payload.yanked);
    assert_eq!(second.message, Some(b"yank bar".to_vec()));

    assert!(iter.next().is_none());
}

#[test]
fn malformed_added_line_keeps_default_payload() {
    let repo = match git2::Repository::init("target/testrepo_malformed") {
        Ok(r) => r,
        Err(_) => return,
    };
    let c0 = add_commit(&repo, None, "someone", "init", &[("config", "{}\n")]);
    let c1 = add_commit(
        &repo,
        Some(c0),
        "bors",
        "broken publish",
        &[("config", "{}\n"), ("foo", "this is not a record\n")],
    );
    set_head(&repo, c1);
    drop(repo);

    let index = CratesIndex::new("target/testrepo_malformed").unwrap();
    let mut iter = index.iter().unwrap();
    let ev = iter.next().expect("one event").expect("no error");
    assert_eq!(ev.delta, ChangeType::Modified);
    assert_eq!(ev.payload.name, Vec::<u8>::new());
    assert!(!ev.payload.yanked);
    assert!(iter.next().is_none());
}

#[test]
fn opening_a_missing_repository_fails() {
    assert!(CratesIndex::new("target/testrepo_does_not_exist").is_err());
}
