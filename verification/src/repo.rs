//! The repository whose digest is rendered: its root directory and name,
//! and the search for the root from a working directory.

use vstd::prelude::*;

use crate::path::{file_name_of, parent_of, path_file_name, path_parent};

verus! {

/// A Git repository, known by its root directory.
#[derive(Debug, Clone)]
pub struct Repo {
    root: String,
}

impl View for Repo {
    type V = Seq<char>;

    /// The root directory's path.
    closed spec fn view(&self) -> Seq<char> {
        self.root@
    }
}

/// The name shown for a repository rooted at `root`: the root's final
/// component, or `unknown` where it has none.
pub open spec fn repo_name(root: Seq<char>) -> Seq<char> {
    match path_file_name(root) {
        Some(name) => name,
        None => "unknown"@,
    }
}

impl Repo {
    /// The repository rooted at `root`.
    pub fn new(root: String) -> (repo: Self)
        ensures
            repo@ == root@,
    {
        Repo { root }
    }

    /// A repository rooted at `root`, for tests that need no search.
    pub fn from_root_for_test(root: String) -> (repo: Self)
        ensures
            repo@ == root@,
    {
        Repo::new(root)
    }

    /// The root directory.
    pub fn root(&self) -> (root: &str)
        ensures
            root@ == self@,
    {
        self.root.as_str()
    }

    /// The repository's name.
    pub fn name(&self) -> (name: &str)
        ensures
            name@ == repo_name(self@),
    {
        match file_name_of(self.root.as_str()) {
            Some(name) => name,
            None => "unknown",
        }
    }
}

/// What the search for a repository root does next.
#[derive(Debug, Clone, PartialEq, Eq)]
pub enum RootSearch {
    /// `current` holds a `.git` entry: it is the root.
    Found(String),
    /// Go on with the parent directory.
    Ascend(String),
    /// No directory up to the file system root holds a `.git` entry.
    NotFound,
}

/// One step of the search for the repository root, which starts at the
/// working directory: a directory that holds `.git` is the root; otherwise
/// the search goes on with its parent, and fails where there is none.
pub fn find_git_root_step(current: &str, has_git_entry: bool) -> (step: RootSearch)
    ensures
        has_git_entry ==> (step matches RootSearch::Found(root) && root@ == current@),
        !has_git_entry ==> match path_parent(current@) {
            Some(parent) => (step matches RootSearch::Ascend(next) && next@ == parent),
            None => step is NotFound,
        },
{
    if has_git_entry {
        return RootSearch::Found(current.to_owned());
    }
    match parent_of(current) {
        Some(parent) => RootSearch::Ascend(parent),
        None => RootSearch::NotFound,
    }
}

} // verus!
