//! Repositories: the directory each one is cloned into, and whether to clone.
use vstd::prelude::*;

use crate::text::{chars_of, lemma_split_nonempty, push_all, split_chars, split_on, string_of};

verus! {

/// A repository to clone.
pub struct Repo {
    pub url: String,
}

/// A URL whose last path segment gives no directory name.
#[derive(Debug)]
pub struct InvalidRepoUrl {
    pub url: String,
}

/// What to do about one repository.
pub enum RepoAction {
    /// The target directory exists already.
    Skip(String),
    /// Clone the URL (first) into the directory (second).
    Clone(String, String),
}

/// The position of the last `c` in `s`, or -1 where there is none.
pub open spec fn last_index_of(s: Seq<char>, c: char) -> int
    decreases s.len(),
{
    if s.len() == 0 {
        -1
    } else if s.last() == c {
        s.len() - 1
    } else {
        last_index_of(s.drop_last(), c)
    }
}

/// `segment` without its trailing `.`-delimited extension, if it has one.
pub open spec fn strip_extension(segment: Seq<char>) -> Seq<char> {
    let dot = last_index_of(segment, '.');
    if dot >= 0 {
        segment.subrange(0, dot)
    } else {
        segment
    }
}

/// The directory name of a repository: the last `/`-delimited segment of
/// its URL, without its extension.
pub open spec fn repo_name(url: Seq<char>) -> Seq<char> {
    strip_extension(split_on(url, '/').last())
}

proof fn lemma_last_index_bounds(s: Seq<char>, c: char)
    ensures
        -1 <= last_index_of(s, c) < s.len(),
    decreases s.len(),
{
    if s.len() > 0 {
        lemma_last_index_bounds(s.drop_last(), c);
    }
}

/// The position of the last `c` in `s`, if any.
fn find_last(s: &Vec<char>, c: char) -> (r: Option<usize>)
    ensures
        match r {
            Some(k) => last_index_of(s@, c) == k,
            None => last_index_of(s@, c) == -1,
        },
{
    let mut k: usize = s.len();
    assert(s@.subrange(0, k as int) =~= s@);
    while k > 0
        invariant
            k <= s@.len(),
            last_index_of(s@, c) == last_index_of(s@.subrange(0, k as int), c),
        decreases k,
    {
        assert(s@.subrange(0, k as int).drop_last() =~= s@.subrange(0, k - 1));
        if s[k - 1] == c {
            return Some(k - 1);
        }
        k -= 1;
    }
    None
}

/// The directory a repository goes into under `clone_dir`.
pub open spec fn repo_path(clone_dir: Seq<char>, url: Seq<char>) -> Seq<char> {
    clone_dir + seq!['/'] + repo_name(url)
}

/// The directory name derived from `url`, unless it is empty.
pub fn get_name(url: &str) -> (r: Option<String>)
    ensures
        match r {
            Some(name) => name@ == repo_name(url@) && name@.len() > 0,
            None => repo_name(url@).len() == 0,
        },
{
    let mut segments = split_chars(&chars_of(url), '/');
    proof {
        lemma_split_nonempty(url@, '/');
    }
    let last = segments.len() - 1;
    let segment = segments.remove(last);
    let name = match find_last(&segment, '.') {
        Some(dot) => {
            proof {
                lemma_last_index_bounds(segment@, '.');
            }
            let mut prefix: Vec<char> = Vec::new();
            let mut k: usize = 0;
            while k < dot
                invariant
                    k <= dot < segment@.len(),
                    prefix@ == segment@.subrange(0, k as int),
                decreases dot - k,
            {
                prefix.push(segment[k]);
                assert(prefix@ =~= segment@.subrange(0, k + 1));
                k += 1;
            }
            prefix
        },
        None => segment,
    };
    if name.len() == 0 {
        None
    } else {
        Some(string_of(&name))
    }
}

impl Repo {
    /// The directory this repository is cloned into under `clone_dir`.
    pub fn target_path(&self, clone_dir: &str) -> (r: Result<String, InvalidRepoUrl>)
        ensures
            match r {
                Ok(path) => repo_name(self.url@).len() > 0 && path@ == repo_path(
                    clone_dir@,
                    self.url@,
                ),
                Err(e) => repo_name(self.url@).len() == 0 && e.url@ == self.url@,
            },
    {
        match get_name(self.url.as_str()) {
            None => Err(InvalidRepoUrl { url: self.url.clone() }),
            Some(name) => {
                let mut out = chars_of(clone_dir);
                out.push('/');
                push_all(&mut out, &chars_of(name.as_str()));
                Ok(string_of(&out))
            },
        }
    }

    /// Clone unless the target directory exists; `exists` tells whether the
    /// path that `target_path` gives is there.
    pub fn plan(&self, clone_dir: &str, exists: bool) -> (r: Result<RepoAction, InvalidRepoUrl>)
        ensures
            match r {
                Ok(RepoAction::Skip(path)) => exists && repo_name(self.url@).len() > 0
                    && path@ == repo_path(clone_dir@, self.url@),
                Ok(RepoAction::Clone(url, path)) => !exists && repo_name(self.url@).len() > 0
                    && url@ == self.url@ && path@ == repo_path(clone_dir@, self.url@),
                Err(e) => repo_name(self.url@).len() == 0 && e.url@ == self.url@,
            },
            exists ==> !(r matches Ok(RepoAction::Clone(_, _))),
    {
        let path = match self.target_path(clone_dir) {
            Ok(p) => p,
            Err(e) => {
                return Err(e);
            },
        };
        if exists {
            Ok(RepoAction::Skip(path))
        } else {
            Ok(RepoAction::Clone(self.url.clone(), path))
        }
    }
}

} // verus!
