//! The boundary to the git storage engine: declarations of git2's types and
//! one thin trusted wrapper per call the walk makes. What these contracts
//! say is believed, not proved; each comment names the function relied on.
//! The walk, the commits and the diffs depend on what is on disk, so the
//! wrappers promise nothing about their results: the verified code takes
//! whatever comes back and is proved for every value of it.

use vstd::prelude::*;
use crate::classify::DiffLineRec;
use crate::record::RepoError;

verus! {

#[verifier::external_type_specification]
#[verifier::external_body]
pub struct ExRepository(git2::Repository);

#[verifier::external_type_specification]
#[verifier::external_body]
pub struct ExRevwalk<'a>(git2::Revwalk<'a>);

#[verifier::external_type_specification]
#[verifier::external_body]
pub struct ExCommit<'a>(git2::Commit<'a>);

#[verifier::external_type_specification]
#[verifier::external_body]
pub struct ExTree<'a>(git2::Tree<'a>);

#[verifier::external_type_specification]
#[verifier::external_body]
pub struct ExDiff<'a>(git2::Diff<'a>);

#[verifier::external_type_specification]
#[verifier::external_body]
pub struct ExOid(git2::Oid);

#[verifier::external_type_specification]
#[verifier::external_body]
pub struct ExGitError(git2::Error);

/// Relies on git2::Repository::open: opens the repository at a path,
/// read-only, failing when none is there.
#[verifier::external_body]
pub(crate) fn repo_open(path: &str) -> (r: Result<git2::Repository, git2::Error>) {
    git2::Repository::open(path)
}

/// Relies on git2::Repository::revwalk: creates a fresh revision walk.
#[verifier::external_body]
pub(crate) fn revwalk_create<'a>(repo: &'a git2::Repository) -> (r: Result<
    git2::Revwalk<'a>,
    git2::Error,
>) {
    repo.revwalk()
}

/// Relies on git2::Revwalk::set_sorting with Sort::REVERSE: the walk yields
/// commits oldest first.
#[verifier::external_body]
pub(crate) fn revwalk_set_reverse<'a>(walk: &mut git2::Revwalk<'a>) -> (r: Result<
    (),
    git2::Error,
>) {
    walk.set_sorting(git2::Sort::REVERSE)
}

/// Relies on git2::Revwalk::push_head: roots the walk at the current head.
#[verifier::external_body]
pub(crate) fn revwalk_push_head<'a>(walk: &mut git2::Revwalk<'a>) -> (r: Result<
    (),
    git2::Error,
>) {
    walk.push_head()
}

/// Relies on the Iterator impl of git2::Revwalk: the next commit id of the
/// walk, none when it is exhausted.
#[verifier::external_body]
pub(crate) fn revwalk_next<'a>(walk: &mut git2::Revwalk<'a>) -> (r: Option<
    Result<git2::Oid, git2::Error>,
>) {
    walk.next()
}

/// Relies on git2::Repository::find_commit: looks a commit up by id.
#[verifier::external_body]
pub(crate) fn find_commit<'a>(repo: &'a git2::Repository, oid: git2::Oid) -> (r: Result<
    git2::Commit<'a>,
    git2::Error,
>) {
    repo.find_commit(oid)
}

/// Relies on git2::Commit::author and git2::Signature::name: the author
/// name as bytes, absent when it is not valid text.
#[verifier::external_body]
pub(crate) fn commit_author_name<'a>(c: &git2::Commit<'a>) -> (r: Option<Vec<u8>>) {
    c.author().name().ok().map(|n| n.as_bytes().to_vec())
}

/// Relies on git2::Commit::message: the commit message as bytes, absent
/// when it is not valid text.
#[verifier::external_body]
pub(crate) fn commit_message<'a>(c: &git2::Commit<'a>) -> (r: Option<Vec<u8>>) {
    c.message().ok().map(|m| m.as_bytes().to_vec())
}

/// Relies on git2::Commit::parent: the commit's parent by index, failing
/// when it has none.
#[verifier::external_body]
pub(crate) fn commit_parent<'a>(c: &git2::Commit<'a>, i: usize) -> (r: Result<
    git2::Commit<'a>,
    git2::Error,
>) {
    c.parent(i)
}

/// Relies on git2::Commit::tree_id: the id of the commit's tree.
#[verifier::external_body]
pub(crate) fn commit_tree_id<'a>(c: &git2::Commit<'a>) -> (r: git2::Oid) {
    c.tree_id()
}

/// Relies on git2::Repository::find_tree: looks a tree up by id.
#[verifier::external_body]
pub(crate) fn find_tree<'a>(repo: &'a git2::Repository, oid: git2::Oid) -> (r: Result<
    git2::Tree<'a>,
    git2::Error,
>) {
    repo.find_tree(oid)
}

/// Relies on git2::Repository::diff_tree_to_tree: the diff from the old
/// tree to the new one.
#[verifier::external_body]
pub(crate) fn diff_trees<'a>(
    repo: &'a git2::Repository,
    old: &git2::Tree<'a>,
    new: &git2::Tree<'a>,
) -> (r: Result<git2::Diff<'a>, git2::Error>) {
    repo.diff_tree_to_tree(Some(old), Some(new), None)
}

/// Relies on git2::Diff::foreach, which visits every line of every hunk in
/// order: collects each line's origin marker, raw bytes, and whether its
/// file-level delta status is Deleted.
#[verifier::external_body]
pub(crate) fn diff_collect_lines<'a>(diff: &git2::Diff<'a>) -> (r: Result<
    Vec<DiffLineRec>,
    git2::Error,
>) {
    let mut out: Vec<DiffLineRec> = Vec::new();
    let res = diff.foreach(&mut |_d, _p| true, None, None, Some(&mut |d, _h, l| {
        let deleted = matches!(d.status(), git2::Delta::Deleted);
        out.push(DiffLineRec { deleted, origin: l.origin() as u8, content: l.content().to_vec() });
        true
    }));
    res.map(|_| out)
}

/// Relies on git2::Error::message: the error's text as bytes.
#[verifier::external_body]
pub(crate) fn git_error_message(e: &git2::Error) -> (r: Vec<u8>) {
    e.message().as_bytes().to_vec()
}

/// Wrap a failure of the storage engine as the library's repository error.
pub fn wrap_git_error(e: &git2::Error) -> (r: RepoError) {
    RepoError { message: git_error_message(e) }
}

} // verus!
