//! The condition under which an archive counts as already installed: a
//! probe command whose output, reduced by a pipeline, equals the version.
use vstd::prelude::*;

use crate::post::{evaluation, run_op, Evaluation};
use crate::text::{chars_of, split_chars, split_on, string_of, string_views};

verus! {

/// A probe command and the pipeline that reduces its output. An empty
/// command means that no condition is declared.
pub struct Unless {
    pub cmd: String,
    pub post: String,
}

/// Whether a probe that printed `output` (or `None`: it did not start, or
/// printed no text) shows that `version` is in place.
pub open spec fn condition_holds(post: Seq<char>, version: Seq<char>, output: Option<Seq<char>>) -> bool {
    match output {
        None => false,
        Some(out) => post.len() > 0 && evaluation(out, post) == Evaluation::Value(version),
    }
}

pub open spec fn str_view(o: Option<&str>) -> Option<Seq<char>> {
    match o {
        Some(s) => Some(s@),
        None => None,
    }
}

impl Unless {
    /// Whether a probe is declared at all.
    pub fn is_declared(&self) -> (r: bool)
        ensures
            r == (self.cmd@.len() > 0),
    {
        chars_of(self.cmd.as_str()).len() > 0
    }

    /// The probe's program and arguments: the command split at single spaces.
    pub fn probe_args(&self) -> (r: Vec<String>)
        ensures
            string_views(r@) == split_on(self.cmd@, ' '),
    {
        let parts = split_chars(&chars_of(self.cmd.as_str()), ' ');
        let mut out: Vec<String> = Vec::new();
        let mut i: usize = 0;
        while i < parts.len()
            invariant
                i <= parts@.len(),
                forall|k: int| 0 <= k < i ==> #[trigger] out@[k]@ == parts@[k]@,
                out@.len() == i,
            decreases parts@.len() - i,
        {
            out.push(string_of(&parts[i]));
            i += 1;
        }
        assert(string_views(out@) =~= crate::text::char_views(parts@));
        out
    }

    /// Whether the probe's output shows `version` in place. A probe that did
    /// not run, an empty pipeline and a pipeline that fails all count as
    /// not satisfied.
    pub fn is_satisfied(&self, version: &str, probe_stdout: Option<&str>) -> (r: bool)
        ensures
            r == condition_holds(self.post@, version@, str_view(probe_stdout)),
            probe_stdout is None ==> !r,
    {
        match probe_stdout {
            None => false,
            Some(out) => {
                if chars_of(self.post.as_str()).len() == 0 {
                    return false;
                }
                match run_op(out, self.post.as_str()) {
                    Ok(v) => v == version.to_owned(),
                    Err(_) => false,
                }
            },
        }
    }
}

} // verus!
