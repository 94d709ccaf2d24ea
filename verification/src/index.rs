//! The index handle and its walk: open the repository, walk its history
//! oldest first with the root commit skipped, keep only the automation's
//! commits, and fold each one's diff into at most one change event.

use vstd::prelude::*;
use crate::classify::{classify_lines, event_of_lines, is_automation_author, line_views};
use crate::classify::LineModel;
use crate::record::{opt_bytes_view, Change, RepoError};

verus! {

/// A read-only handle on the registry repository. Each walk opens its own
/// handle; handles are never shared across concurrent requests.
pub struct CratesIndex {
    repo: git2::Repository,
}

/// A walk over the qualifying commits of one history, oldest first, the
/// root commit skipped. Forward-only and never reused.
pub struct IndexIter<'a> {
    repo: &'a git2::Repository,
    revwalk: git2::Revwalk<'a>,
}

impl CratesIndex {
    /// Open the registry repository at `path`, read-only.
    pub fn new(path: &str) -> (r: Result<CratesIndex, RepoError>) {
        match crate::gitio::repo_open(path) {
            Ok(repo) => Ok(CratesIndex { repo }),
            Err(e) => Err(crate::gitio::wrap_git_error(&e)),
        }
    }

    /// Begin a walk: oldest first from head, discarding the very first
    /// commit the walk yields. That commit is the root, which has no parent
    /// to diff against, so it never contributes an event; a single-commit
    /// repository yields an empty walk, not an error.
    pub fn iter<'a>(&'a self) -> (r: Result<IndexIter<'a>, RepoError>) {
        let mut revwalk = match crate::gitio::revwalk_create(&self.repo) {
            Ok(w) => w,
            Err(e) => {
                return Err(crate::gitio::wrap_git_error(&e));
            },
        };
        match crate::gitio::revwalk_set_reverse(&mut revwalk) {
            Ok(u) => u,
            Err(e) => {
                return Err(crate::gitio::wrap_git_error(&e));
            },
        };
        match crate::gitio::revwalk_push_head(&mut revwalk) {
            Ok(u) => u,
            Err(e) => {
                return Err(crate::gitio::wrap_git_error(&e));
            },
        };
        let skipped_root = crate::gitio::revwalk_next(&mut revwalk);
        match skipped_root {
            _ => {},
        }
        Ok(IndexIter { repo: &self.repo, revwalk })
    }
}

impl<'a> IndexIter<'a> {
    /// The next change event of the walk, oldest first: none when the
    /// history is exhausted, an error when the storage engine fails on a
    /// commit, tree or diff lookup. A commit is skipped when its author is
    /// not the automation identity, when its lookup fails inside the
    /// filter, or when its diff holds no added or removed line. Whatever
    /// the storage engine returned, an event handed out is the verified
    /// fold of some sequence of diff lines and some message.
    pub fn next(&mut self) -> (r: Option<Result<Change, RepoError>>)
        ensures
            (match r {
                Some(Ok(c)) => exists|ls: Seq<LineModel>, msg: Option<Seq<u8>>|
                    event_of_lines(ls, msg) == Some(c@),
                _ => true,
            }),
    {
        // A history holds fewer commits than a machine word can count; the
        // counter only makes the walk's termination explicit.
        let mut remaining: usize = usize::MAX;
        while remaining > 0
            decreases remaining,
        {
            remaining = remaining - 1;
            let step = crate::gitio::revwalk_next(&mut self.revwalk);
            let oid = match step {
                None => {
                    return None;
                },
                Some(Err(e)) => {
                    return Some(Err(crate::gitio::wrap_git_error(&e)));
                },
                Some(Ok(o)) => o,
            };
            let commit = match crate::gitio::find_commit(self.repo, oid) {
                Ok(c) => c,
                Err(_) => {
                    continue;
                },
            };
            let author = crate::gitio::commit_author_name(&commit);
            if !is_automation_author(&author) {
                continue;
            }
            let parent = match crate::gitio::commit_parent(&commit, 0) {
                Ok(p) => p,
                Err(e) => {
                    return Some(Err(crate::gitio::wrap_git_error(&e)));
                },
            };
            let tree_oid = crate::gitio::commit_tree_id(&commit);
            let tree = match crate::gitio::find_tree(self.repo, tree_oid) {
                Ok(t) => t,
                Err(e) => {
                    return Some(Err(crate::gitio::wrap_git_error(&e)));
                },
            };
            let parent_tree_oid = crate::gitio::commit_tree_id(&parent);
            let parent_tree = match crate::gitio::find_tree(self.repo, parent_tree_oid) {
                Ok(t) => t,
                Err(e) => {
                    return Some(Err(crate::gitio::wrap_git_error(&e)));
                },
            };
            let diff = match crate::gitio::diff_trees(self.repo, &parent_tree, &tree) {
                Ok(d) => d,
                Err(e) => {
                    return Some(Err(crate::gitio::wrap_git_error(&e)));
                },
            };
            let lines = match crate::gitio::diff_collect_lines(&diff) {
                Ok(ls) => ls,
                Err(e) => {
                    return Some(Err(crate::gitio::wrap_git_error(&e)));
                },
            };
            let message = crate::gitio::commit_message(&commit);
            let event = classify_lines(&lines, message);
            match event {
                Some(c) => {
                    proof {
                        assert(event_of_lines(line_views(lines@), opt_bytes_view(message)) == Some(
                            c@,
                        ));
                    }
                    return Some(Ok(c));
                },
                None => {
                    continue;
                },
            }
        }
        None
    }
}

} // verus!
