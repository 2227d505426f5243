//! Settings of a run, the whole declaration, and path helpers.
use vstd::prelude::*;

use crate::archive::ArchiveInstallation;
use crate::pkg::Packages;
use crate::repo::Repo;
use crate::text::{chars_of, push_all, replace_chars, replace_all, string_of};

verus! {

/// Everything a run is asked to bring about.
pub struct LocalState {
    pub archives: Vec<ArchiveInstallation>,
    pub packages: Packages,
    pub repos: Vec<Repo>,
    pub settings: Settings,
}

/// Where archives are unpacked and repositories cloned.
pub struct Settings {
    pub clone_dir: String,
    pub unpack_dir: String,
}

/// `path` with each `~` replaced by the home directory `home`.
pub open spec fn expanded(path: Seq<char>, home: Seq<char>) -> Seq<char> {
    replace_all(path, seq!['~'], home)
}

/// `rel` placed under `dir`, as `Path::join` does on Unix: an absolute `rel`
/// stands alone, and no separator is doubled.
pub open spec fn joined(dir: Seq<char>, rel: Seq<char>) -> Seq<char> {
    if rel.len() > 0 && rel[0] == '/' {
        rel
    } else if dir.len() == 0 {
        rel
    } else if dir.last() == '/' {
        dir + rel
    } else {
        dir + seq!['/'] + rel
    }
}

/// Replaces each `~` in `path` with the home directory `home`.
pub fn expand_user(path: &str, home: &str) -> (r: String)
    ensures
        r@ == expanded(path@, home@),
{
    let tilde = vec!['~'];
    assert(tilde@ =~= seq!['~']);
    string_of(&replace_chars(&chars_of(path), &tilde, &chars_of(home)))
}

/// The path `rel` under the directory `dir`.
pub fn join_path(dir: &str, rel: &str) -> (r: String)
    ensures
        r@ == joined(dir@, rel@),
{
    let d = chars_of(dir);
    let r = chars_of(rel);
    if r.len() > 0 && r[0] == '/' {
        return string_of(&r);
    }
    if d.len() == 0 {
        return string_of(&r);
    }
    let mut out: Vec<char> = Vec::new();
    push_all(&mut out, &d);
    if d[d.len() - 1] != '/' {
        out.push('/');
    }
    push_all(&mut out, &r);
    assert(out@ =~= joined(dir@, rel@));
    string_of(&out)
}

} // verus!
