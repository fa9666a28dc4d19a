//! Parsed command-line options and the operation they select. Reading the
//! real process arguments is the caller's business; the selection logic is
//! here.

use vstd::prelude::*;

verus! {

/// What a run does: fetch (with or without reversed filters) or vacuum.
pub enum FetchOperation {
    Fetch(bool),
    Vacuum,
}

/// The command-line options.
pub struct CmdArgs {
    pub config: String,
    pub reverse: bool,
    pub vacuum: bool,
    pub feeds_only: Option<bool>,
}

impl CmdArgs {
    /// The operation the flags select: vacuum wins over fetching.
    pub fn get_action(&self) -> (op: FetchOperation)
        ensures
            op == if self.vacuum {
                FetchOperation::Vacuum
            } else {
                FetchOperation::Fetch(self.reverse)
            },
    {
        if self.vacuum {
            FetchOperation::Vacuum
        } else {
            FetchOperation::Fetch(self.reverse)
        }
    }
}

} // verus!
