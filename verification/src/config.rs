//! The project mapping: a table from repository path fragments to projects,
//! searched in declaration order.

use crate::text::{chars_of, contains, find_in, strip_slashes, strip_slashes_len};
use vstd::prelude::*;
use vstd::string::*;

verus! {

/// One repository of a project: a display alias and a fragment of its path.
#[derive(Debug, Clone)]
pub struct Repository {
    pub alias: String,
    pub repo_path: String,
}

/// A project and its repositories, in declaration order.
#[derive(Debug, Clone)]
pub struct Project {
    pub project_name: String,
    pub project_code: String,
    pub repositories: Vec<Repository>,
}

/// The whole mapping: the projects in declaration order.
#[derive(Debug, Clone)]
pub struct Config {
    pub projects: Vec<Project>,
}

/// A path fragment matches a repository path if either holds the other as a
/// substring, the path taken without its trailing slashes in the second case.
pub open spec fn entry_matches(path: Seq<char>, fragment: Seq<char>) -> bool {
    contains(path, fragment) || contains(fragment, strip_slashes(path))
}

/// The code of the group of unmapped repositories.
pub open spec fn unknown_code() -> Seq<char> {
    seq!['U', 'N', 'K', 'N', 'O', 'W', 'N']
}

/// The name of the group of unmapped repositories.
pub open spec fn unknown_name() -> Seq<char> {
    seq!['U', 'n', 'k', 'n', 'o', 'w', 'n']
}

impl Config {
    /// Entry `j` of project `i` exists.
    pub open spec fn has_entry(&self, i: int, j: int) -> bool {
        0 <= i < self.projects@.len() && 0 <= j < self.projects@[i].repositories@.len()
    }

    /// Entry `j` of project `i` exists and matches `path`.
    pub open spec fn hit(&self, path: Seq<char>, i: int, j: int) -> bool {
        self.has_entry(i, j) && entry_matches(path, self.projects@[i].repositories@[j].repo_path@)
    }

    /// Project code, project name and alias of entry `j` of project `i`.
    pub open spec fn entry_key(&self, i: int, j: int) -> (Seq<char>, Seq<char>, Seq<char>) {
        (
            self.projects@[i].project_code@,
            self.projects@[i].project_name@,
            self.projects@[i].repositories@[j].alias@,
        )
    }

    /// The key of the first entry that matches `path`, searching from entry
    /// `j` of project `i` on.
    pub open spec fn resolve_from(&self, path: Seq<char>, i: int, j: int) -> Option<
        (Seq<char>, Seq<char>, Seq<char>),
    >
        decreases
            self.projects@.len() - i,
            if 0 <= i < self.projects@.len() {
                self.projects@[i].repositories@.len() - j
            } else {
                0
            },
    {
        if i < 0 || j < 0 || i >= self.projects@.len() {
            None
        } else if j >= self.projects@[i].repositories@.len() {
            self.resolve_from(path, i + 1, 0)
        } else if self.hit(path, i, j) {
            Some(self.entry_key(i, j))
        } else {
            self.resolve_from(path, i, j + 1)
        }
    }

    /// The key of the first entry, in declaration order, that matches `path`.
    pub open spec fn resolve(&self, path: Seq<char>) -> Option<(Seq<char>, Seq<char>, Seq<char>)> {
        self.resolve_from(path, 0, 0)
    }

    /// The key under which a commit of the repository at `path` is grouped:
    /// that of the first matching entry, or else the unknown project with the
    /// path itself as alias.
    pub open spec fn group_key(&self, path: Seq<char>) -> (Seq<char>, Seq<char>, Seq<char>) {
        match self.resolve(path) {
            Some(k) => k,
            None => (unknown_code(), unknown_name(), path),
        }
    }

    /// Finds the first entry that matches a repository path and returns its
    /// project code, project name and alias.
    pub fn find_matching_repo(&self, commit_path: &str) -> (r: Option<(String, String, String)>)
        ensures
            match r {
                Some(t) => self.resolve(commit_path@) == Some((t.0@, t.1@, t.2@)),
                None => self.resolve(commit_path@) is None,
            },
    {
        let path = chars_of(commit_path);
        let keep: usize = strip_slashes_len(&path);
        let stripped = chars_of(commit_path.substring_char(0, keep));
        assert(path@.subrange(0, path@.len() as int) =~= path@);
        assert(stripped@.subrange(0, stripped@.len() as int) =~= stripped@);
        let mut i: usize = 0;
        while i < self.projects.len()
            invariant
                i <= self.projects@.len(),
                path@ == commit_path@,
                stripped@ == strip_slashes(commit_path@),
                self.resolve(commit_path@) == self.resolve_from(commit_path@, i as int, 0),
            decreases self.projects@.len() - i,
        {
            let project = &self.projects[i];
            let mut j: usize = 0;
            while j < project.repositories.len()
                invariant
                    i < self.projects@.len(),
                    project == self.projects@[i as int],
                    j <= project.repositories@.len(),
                    path@ == commit_path@,
                    stripped@ == strip_slashes(commit_path@),
                    self.resolve(commit_path@) == self.resolve_from(
                        commit_path@,
                        i as int,
                        j as int,
                    ),
                decreases project.repositories@.len() - j,
            {
                let repo = &project.repositories[j];
                let fragment = chars_of(repo.repo_path.as_str());
                assert(path@.subrange(0, path@.len() as int) =~= path@);
                assert(fragment@.subrange(0, fragment@.len() as int) =~= fragment@);
                let forward = find_in(&path, 0, path.len(), &fragment);
                if forward.is_some() || find_in(&fragment, 0, fragment.len(), &stripped).is_some() {
                    return Some(
                        (project.project_code.clone(), project.project_name.clone(), repo.alias.clone()),
                    );
                }
                j += 1;
            }
            i += 1;
        }
        None
    }

    /// Entry `(a, b)` stands before entry `(i, j)` in declaration order.
    pub open spec fn earlier(a: int, b: int, i: int, j: int) -> bool {
        a < i || (a == i && b < j)
    }

    proof fn lemma_resolve_reaches(&self, path: Seq<char>, a: int, b: int, i: int, j: int)
        requires
            self.hit(path, i, j),
            0 <= a,
            0 <= b,
            a < i || (a == i && b <= j),
            forall|x: int, y: int|
                Self::earlier(x, y, i, j) && !Self::earlier(x, y, a, b) ==> !self.hit(path, x, y),
        ensures
            self.resolve_from(path, a, b) == Some(self.entry_key(i, j)),
        decreases
            self.projects@.len() - a,
            if 0 <= a < self.projects@.len() {
                self.projects@[a].repositories@.len() - b
            } else {
                0
            },
    {
        if b >= self.projects@[a].repositories@.len() {
            self.lemma_resolve_reaches(path, a + 1, 0, i, j);
        } else if a == i && b == j {
        } else {
            assert(!self.hit(path, a, b));
            self.lemma_resolve_reaches(path, a, b + 1, i, j);
        }
    }

    proof fn lemma_resolve_misses(&self, path: Seq<char>, a: int, b: int)
        requires
            0 <= a,
            0 <= b,
            forall|x: int, y: int| !self.hit(path, x, y),
        ensures
            self.resolve_from(path, a, b) is None,
        decreases
            self.projects@.len() - a,
            if 0 <= a < self.projects@.len() {
                self.projects@[a].repositories@.len() - b
            } else {
                0
            },
    {
        if a >= self.projects@.len() {
        } else if b >= self.projects@[a].repositories@.len() {
            self.lemma_resolve_misses(path, a + 1, 0);
        } else {
            assert(!self.hit(path, a, b));
            self.lemma_resolve_misses(path, a, b + 1);
        }
    }

    /// The first match wins: where entry `j` of project `i` matches a path and
    /// no entry declared before it does, the path resolves to that entry,
    /// whatever matches after it.
    pub proof fn law_first_match_wins(&self, path: Seq<char>, i: int, j: int)
        requires
            self.hit(path, i, j),
            forall|x: int, y: int| Self::earlier(x, y, i, j) ==> !self.hit(path, x, y),
        ensures
            self.resolve(path) == Some(self.entry_key(i, j)),
            self.group_key(path) == self.entry_key(i, j),
    {
        self.lemma_resolve_reaches(path, 0, 0, i, j);
    }

    /// A path that no entry matches does not resolve, and is grouped under
    /// the unknown project with the path itself as alias.
    pub proof fn law_unmatched_is_unknown(&self, path: Seq<char>)
        requires
            forall|x: int, y: int| !self.hit(path, x, y),
        ensures
            self.resolve(path) is None,
            self.group_key(path) == (unknown_code(), unknown_name(), path),
    {
        self.lemma_resolve_misses(path, 0, 0);
    }
}

} // verus!
