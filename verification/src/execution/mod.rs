//! Execution decisions for immutable validation plans.
//!
//! Commands and repository snapshots are run by the caller; what to run
//! next, and what each outcome means for the report, is decided here.

use vstd::prelude::*;

pub mod aggregate;
pub mod capture;
pub mod outcome;
pub mod checks;
pub mod completion;
pub mod termination;
pub mod prerequisites;
pub mod progress;
pub mod run;

verus! {

/// Captured facts from one subprocess attempt.
#[derive(Clone, Debug)]
pub struct ProcessOutput {
    /// Process exit code, absent when startup failed or no code was available.
    pub exit_code: Option<i32>,
    /// Complete observed lifetime in milliseconds.
    pub duration_ms: u64,
    /// Whether the configured deadline terminated the process.
    pub timed_out: bool,
    /// Whether cooperative cancellation terminated the process.
    pub interrupted: bool,
    /// UTF-8-lossy tail of standard output.
    pub stdout: String,
    /// UTF-8-lossy tail of standard error.
    pub stderr: String,
    /// Whether earlier standard-output bytes were discarded.
    pub stdout_truncated: bool,
    /// Whether earlier standard-error bytes were discarded.
    pub stderr_truncated: bool,
    /// Startup failure captured before a child process existed.
    pub start_error: Option<String>,
}

} // verus!
