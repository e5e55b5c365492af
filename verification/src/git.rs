//! What comes back from running git, as plain values.

use vstd::prelude::*;
use crate::text::{is_ws, lemma_trim_nonblank, trim, trimmed};

verus! {

/// The result of one git run as the caller sees it.
pub enum GitReply {
    /// git ran and exited; `stdout` and `stderr` are its output read as UTF-8
    /// (invalid sequences replaced).
    Exited { success: bool, code: Option<i32>, stdout: String, stderr: String },
    /// git could not be started; `message` describes the error.
    SpawnFailed { message: String },
    /// The task that ran git failed; `message` describes the failure.
    TaskFailed { message: String },
    /// git did not finish in time.
    TimedOut,
}

/// The output of a git run that exited successfully.
pub open spec fn success_output(r: GitReply) -> Option<Seq<char>> {
    match r {
        GitReply::Exited { success, stdout, .. } => if success {
            Some(stdout@)
        } else {
            None
        },
        _ => None,
    }
}

/// The work tree has uncommitted changes: the short status output, when git
/// could be run, is not blank. `None` stands for a run that could not be started.
pub open spec fn has_uncommitted_spec(status_output: Option<Seq<char>>) -> bool {
    match status_output {
        Some(o) => trim(o).len() > 0,
        None => false,
    }
}

/// Decides from the output of `git status --porcelain=v2` (or `None` when git could
/// not be started) whether the work tree has uncommitted changes.
pub fn has_uncommitted(status_output: Option<&str>) -> (r: bool)
    ensures
        r == has_uncommitted_spec(
            match status_output {
                Some(o) => Some(o@),
                None => None,
            },
        ),
        r == match status_output {
            Some(o) => exists|i: int| 0 <= i < o@.len() && !is_ws(#[trigger] o@[i]),
            None => false,
        },
{
    match status_output {
        Some(o) => {
            proof {
                lemma_trim_nonblank(o@);
            }
            let t = trimmed(o);
            !t.as_str().is_empty()
        },
        None => false,
    }
}

} // verus!
