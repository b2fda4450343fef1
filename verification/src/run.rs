//! How a run ends, once every matched file has been rendered.
use vstd::prelude::*;
use crate::env_context::EnvContext;

verus! {

/// How a run ends.
#[derive(Debug, Clone, Copy, PartialEq, Eq, Structural)]
pub enum Outcome {
    /// No pattern matched a file: an error.
    NoFilesMatched,
    /// Variables were left unresolved and the run was asked to fail on that:
    /// nothing is written.
    Unresolved,
    /// The rendered files are written.
    Success,
}

/// How a run that rendered `files_matched` files with `ctx` ends.
pub fn outcome(files_matched: usize, ctx: &EnvContext, fail_on_missing: bool) -> (res: Outcome)
    ensures
        res == (if files_matched == 0 {
            Outcome::NoFilesMatched
        } else if fail_on_missing && ctx@.missing.len() > 0 {
            Outcome::Unresolved
        } else {
            Outcome::Success
        }),
{
    if files_matched == 0 {
        Outcome::NoFilesMatched
    } else if fail_on_missing && ctx.has_unresolved() {
        Outcome::Unresolved
    } else {
        Outcome::Success
    }
}

} // verus!
