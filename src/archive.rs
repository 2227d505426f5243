//! Archives: whether to fetch one, where it comes from, and which links to
//! make into what it unpacks.
use vstd::prelude::*;

use crate::text::{chars_of, replace_all, replace_chars, string_of};
use crate::unless::{condition_holds, str_view, Unless};
use crate::util::{expand_user, expanded, join_path, joined};

verus! {

/// A versioned archive to download and unpack, with the links to make.
pub struct ArchiveInstallation {
    pub version: String,
    pub unless: Unless,
    pub links: Vec<Link>,
    pub url: String,
}

/// A link to make: `src` is relative to the unpack directory, `dest` may
/// start with `~`. Only `src` may hold the version placeholder.
pub struct Link {
    pub src: String,
    pub dest: String,
}

/// A link resolved to the two paths it joins.
pub struct LinkPaths {
    /// The file in the unpacked archive.
    pub original: String,
    /// The link to create.
    pub link: String,
}

/// What to do about one archive.
pub enum ArchiveAction {
    /// The probe shows the version in place.
    Skip,
    /// Download from this URL and unpack.
    Fetch(String),
}

/// The placeholder that stands for the version: `${version}`.
pub open spec fn version_tag() -> Seq<char> {
    seq!['$', '{', 'v', 'e', 'r', 's', 'i', 'o', 'n', '}']
}

impl ArchiveInstallation {
    /// `text` with each placeholder replaced by the version.
    pub fn replace_version(&self, text: &str) -> (r: String)
        ensures
            r@ == replace_all(text@, version_tag(), self.version@),
    {
        let tag = vec!['$', '{', 'v', 'e', 'r', 's', 'i', 'o', 'n', '}'];
        assert(tag@ =~= version_tag());
        string_of(&replace_chars(&chars_of(text), &tag, &chars_of(self.version.as_str())))
    }

    pub fn get_unless(&self) -> (r: &Unless)
        ensures
            *r == self.unless,
    {
        &self.unless
    }

    /// The download URL, with the version in place.
    pub fn get_url(&self) -> (r: String)
        ensures
            r@ == replace_all(self.url@, version_tag(), self.version@),
    {
        self.replace_version(self.url.as_str())
    }

    /// Fetch unless a condition is declared and the probe's output shows the
    /// version in place. `probe_stdout` is what the probe printed, or `None`
    /// where it did not run.
    pub fn plan(&self, probe_stdout: Option<&str>) -> (r: ArchiveAction)
        ensures
            match r {
                ArchiveAction::Skip => self.unless.cmd@.len() > 0 && condition_holds(
                    self.unless.post@,
                    self.version@,
                    str_view(probe_stdout),
                ),
                ArchiveAction::Fetch(url) => url@ == replace_all(
                    self.url@,
                    version_tag(),
                    self.version@,
                ) && !(self.unless.cmd@.len() > 0 && condition_holds(
                    self.unless.post@,
                    self.version@,
                    str_view(probe_stdout),
                )),
            },
            probe_stdout is None ==> r is Fetch,
    {
        if self.unless.is_declared() && self.unless.is_satisfied(
            self.version.as_str(),
            probe_stdout,
        ) {
            ArchiveAction::Skip
        } else {
            ArchiveAction::Fetch(self.get_url())
        }
    }

    /// The paths of each link: the original under `unpack_dir` and the link
    /// with `~` expanded to `home`, both with the version in place.
    pub fn link_paths(&self, unpack_dir: &str, home: &str) -> (r: Vec<LinkPaths>)
        ensures
            r@.len() == self.links@.len(),
            forall|i: int|
                0 <= i < r@.len() ==> {
                    &&& (#[trigger] r@[i]).original@ == joined(
                        unpack_dir@,
                        replace_all(self.links@[i].src@, version_tag(), self.version@),
                    )
                    &&& r@[i].link@ == expanded(self.links@[i].dest@, home@)
                },
    {
        let mut out: Vec<LinkPaths> = Vec::new();
        let mut i: usize = 0;
        while i < self.links.len()
            invariant
                i <= self.links@.len(),
                out@.len() == i,
                forall|k: int|
                    0 <= k < i ==> {
                        &&& (#[trigger] out@[k]).original@ == joined(
                            unpack_dir@,
                            replace_all(self.links@[k].src@, version_tag(), self.version@),
                        )
                        &&& out@[k].link@ == expanded(self.links@[k].dest@, home@)
                    },
            decreases self.links@.len() - i,
        {
            let link = &self.links[i];
            let src = self.replace_version(link.src.as_str());
            let original = join_path(unpack_dir, src.as_str());
            let target = expand_user(link.dest.as_str(), home);
            out.push(LinkPaths { original, link: target });
            i += 1;
        }
        out
    }
}

} // verus!
