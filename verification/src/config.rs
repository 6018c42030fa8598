//! Resolved run configuration and its validation.
//!
//! The caller parses command-line flags; the engine consumes only this
//! resolved form. Validation enforces the two flag rules: the keep-shortest
//! action and an external program are mutually exclusive, and a dry run is
//! meaningful only when some action was requested.

use vstd::prelude::*;

verus! {

/// Resolved configuration of one run.
///
/// `exec` and `path` are byte strings: the engine compares and reports
/// paths but never interprets them.
pub struct Opt {
    /// Skip symlink entries outright, without resolving them.
    pub ignore_symlinks: bool,
    /// Cycle guard: how many links one entry's resolution may follow.
    pub max_links: usize,
    /// Within each duplicate group, keep the path with the shortest name
    /// (ties by lexicographic order) and delete the rest.
    pub keep_shortest: bool,
    /// Report the intended action instead of performing it.
    pub pretend: bool,
    /// Program to invoke once per duplicate group, with the group's paths
    /// as its arguments.
    pub exec_program: Option<Vec<u8>>,
    /// Root of the tree to scan.
    pub path: Vec<u8>,
}

/// Why a configuration is rejected before scanning.
#[derive(PartialEq, Eq, Structural, Clone, Copy, Debug)]
pub enum ValidateError {
    /// `keep_shortest` and `exec` were both requested.
    KeepShortestWithExec,
    /// `pretend` was requested without `keep_shortest` or `exec`.
    PretendWithoutAction,
}

impl Opt {
    /// Whether the flag combination is one the engine accepts.
    pub open spec fn is_valid(self) -> bool {
        &&& !(self.keep_shortest && self.exec_program is Some)
        &&& self.pretend ==> (self.keep_shortest || self.exec_program is Some)
    }

    /// Reject the two invalid flag combinations, before any scanning.
    pub fn validate(&self) -> (r: Result<(), ValidateError>)
        ensures
            r is Ok <==> self.is_valid(),
            self.keep_shortest && self.exec_program is Some ==> r == Result::<(), ValidateError>::Err(
                ValidateError::KeepShortestWithExec,
            ),
            !(self.keep_shortest && self.exec_program is Some) && self.pretend && !self.keep_shortest
                && self.exec_program is None ==> r == Result::<(), ValidateError>::Err(
                ValidateError::PretendWithoutAction,
            ),
    {
        if self.keep_shortest && self.exec_program.is_some() {
            Err(ValidateError::KeepShortestWithExec)
        } else if self.pretend && !(self.keep_shortest || self.exec_program.is_some()) {
            Err(ValidateError::PretendWithoutAction)
        } else {
            Ok(())
        }
    }
}

} // verus!
