//! Verbosity configuration.  The engine only decides *what* would be printed
//! at which level; actually printing is left to the caller.

use vstd::prelude::*;

verus! {

/// Verbosity level plus a quiet override.
#[derive(Debug, Clone, Copy, PartialEq, Eq, Structural)]
pub struct VerboseOutput {
    pub level: u8,
    pub quiet: bool,
}

impl VerboseOutput {
    pub fn new(level: u8, quiet: bool) -> (r: Self)
        ensures
            r.level == level,
            r.quiet == quiet,
    {
        VerboseOutput { level, quiet }
    }

    /// The configured verbosity level.
    pub fn level(&self) -> (r: u8)
        ensures
            r == self.level,
    {
        self.level
    }

    /// Whether all output is suppressed.
    pub fn is_quiet(&self) -> (r: bool)
        ensures
            r == self.quiet,
    {
        self.quiet
    }

    /// Whether a message of the given level would be shown.
    pub fn shows(&self, message_level: u8) -> (r: bool)
        ensures
            r == (!self.quiet && self.level >= message_level),
    {
        !self.quiet && self.level >= message_level
    }
}

impl Default for VerboseOutput {
    fn default() -> (r: Self)
        ensures
            r.level == 0,
            !r.quiet,
    {
        VerboseOutput { level: 0, quiet: false }
    }
}

} // verus!
