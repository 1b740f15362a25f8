//! Simple transfer counters, reported at the end of a session.

use vstd::prelude::*;

verus! {

/// Totals for a finished transfer.
#[derive(Debug, Clone)]
pub struct Stats {
    pub total_files: usize,
    pub total_bytes: u64,
    pub transferred_files: usize,
    pub transferred_bytes: u64,
    /// Wall time of the transfer, in milliseconds.
    pub execution_time_ms: u64,
}

impl Stats {
    pub fn new() -> (r: Self)
        ensures
            r.total_files == 0 && r.total_bytes == 0,
            r.transferred_files == 0 && r.transferred_bytes == 0,
            r.execution_time_ms == 0,
    {
        Self::default()
    }
}

impl Default for Stats {
    fn default() -> (r: Self)
        ensures
            r.total_files == 0 && r.total_bytes == 0,
            r.transferred_files == 0 && r.transferred_bytes == 0,
            r.execution_time_ms == 0,
    {
        Stats {
            total_files: 0,
            total_bytes: 0,
            transferred_files: 0,
            transferred_bytes: 0,
            execution_time_ms: 0,
        }
    }
}

} // verus!
