//! Output configuration: an explicit verbosity value threaded through the
//! engine (no process-wide state), and the status tags a task can be shown
//! with.

use vstd::prelude::*;

verus! {

/// How much diagnostic output the caller wants.
#[derive(Debug, Clone, Copy, PartialEq, Eq, Structural)]
pub enum OutputMode {
    Normal,
    Verbose,
    Quiet,
}

impl OutputMode {
    /// True exactly in quiet mode.
    pub fn is_quiet(&self) -> (r: bool)
        ensures
            r == (*self == OutputMode::Quiet),
    {
        matches!(*self, OutputMode::Quiet)
    }

    /// True exactly in verbose mode.
    pub fn is_verbose(&self) -> (r: bool)
        ensures
            r == (*self == OutputMode::Verbose),
    {
        matches!(*self, OutputMode::Verbose)
    }
}

/// Display status of one task in a status line.
#[derive(Debug, Clone, Copy)]
pub enum StoryStatus {
    Pending,
    Running,
    Success,
    Failed,
}

} // verus!
