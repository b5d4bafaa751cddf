//! Version 4 validation report document types.

use vstd::prelude::*;
use crate::contracts::config::{GroupMemberRef, RepositoryProvider};

verus! {

/// Validation report schema version emitted by this crate.
pub const REPORT_SCHEMA_VERSION: u32 = 4;

/// Outcome assigned to an individual tool, check, or integrity result.
#[derive(Clone, Copy, Debug, PartialEq, Eq, Structural)]
pub enum Status {
    /// The operation completed successfully.
    Pass,
    /// The operation ran and found a validation failure.
    Fail,
    /// The operation could not run because a prerequisite was unavailable.
    Blocked,
    /// The operation was intentionally omitted, commonly after cancellation or dependency failure.
    Skipped,
}

/// Result of checking one declared tool during preflight.
#[derive(Clone, Debug)]
pub struct ToolResult {
    /// Stable tool identifier from the configuration.
    pub id: String,
    /// Executable name or path requested from the operating system.
    pub program: String,
    /// Complete version-query command, including the executable.
    pub argv: Vec<String>,
    /// Outcome of tool discovery and version validation.
    pub status: Status,
    /// Parsed semantic version when discovery succeeds.
    pub version: Option<String>,
    /// Diagnostic when discovery or validation does not pass.
    pub reason: Option<String>,
}

/// User selection that produced a validation report.
#[derive(Clone, Debug)]
pub enum ValidationSelection {
    /// A group and every member reachable from it.
    Group {
        /// Selected group identifier.
        id: String,
    },
    /// One suite and its contextual check invocations.
    Suite {
        /// Selected suite identifier.
        id: String,
    },
    /// One direct check at the workspace root.
    Check {
        /// Selected check identifier.
        id: String,
    },
}

/// Execution context that gives a check result its stable identity.
#[derive(Clone, Debug)]
pub enum CheckContext {
    /// Check invocation owned by a suite.
    Suite {
        /// Identifier of the owning suite.
        suite_id: String,
    },
    /// Check invoked directly at the workspace root.
    Direct,
}

/// Complete observable result of one contextual check execution.
#[derive(Clone, Debug)]
pub struct CheckExecutionResult {
    /// Stable check identifier from the configuration.
    pub check_id: String,
    /// Context that distinguishes direct and suite-bound invocations.
    pub context: CheckContext,
    /// Human-readable check name captured at execution time.
    pub label: String,
    /// Human-readable check description captured at execution time.
    pub description: String,
    /// Complete executed command, including the executable.
    pub argv: Vec<String>,
    /// Final operation status.
    pub status: Status,
    /// Process exit code when the operating system reports one.
    pub exit_code: Option<i32>,
    /// Elapsed execution time in milliseconds.
    pub duration_ms: u64,
    /// Configured timeout in seconds.
    pub timeout_seconds: u64,
    /// Whether timeout initiated process-tree termination.
    pub timed_out: bool,
    /// Whether captured standard output exceeded the configured byte limit.
    pub stdout_truncated: bool,
    /// Whether captured standard error exceeded the configured byte limit.
    pub stderr_truncated: bool,
    /// Captured standard output.
    pub stdout: String,
    /// Captured standard error.
    pub stderr: String,
    /// Diagnostic for failure, blocking, or omission when available.
    pub reason: Option<String>,
}

/// Aggregated result for one executable suite.
#[derive(Clone, Debug)]
pub struct SuiteResult {
    /// Stable suite identifier.
    pub id: String,
    /// Human-readable suite name.
    pub label: String,
    /// Human-readable suite description.
    pub description: String,
    /// Portable path relative to the workspace root.
    pub working_directory: String,
    /// Sum of concrete check durations in milliseconds.
    pub check_duration_ms: u64,
    /// Aggregate outcome of the suite's counted checks.
    pub summary: Summary,
    /// Ordered check identifiers belonging to the suite.
    pub check_ids: Vec<String>,
}

/// Aggregated result for one ordered group composition.
#[derive(Clone, Debug)]
pub struct GroupResult {
    /// Stable group identifier.
    pub id: String,
    /// Human-readable group name.
    pub label: String,
    /// Human-readable group description.
    pub description: String,
    /// Derived hierarchy level, where leaf groups start at one.
    pub level: usize,
    /// Sum of distinct descendant check durations in milliseconds.
    pub check_duration_ms: u64,
    /// Aggregate outcome of distinct descendant checks.
    pub summary: Summary,
    /// Ordered references that compose the group.
    pub members: Vec<GroupMemberRef>,
}

/// Synthetic result describing repository mutation detection itself.
#[derive(Clone, Debug)]
pub struct RepositoryIntegrityResult {
    /// Synthetic result identifier.
    pub id: String,
    /// Human-readable integrity-check name.
    pub label: String,
    /// Outcome of repository capture and comparison.
    pub status: Status,
    /// Total repository capture and comparison time in milliseconds.
    pub duration_ms: u64,
    /// Diagnostic when integrity does not pass.
    pub reason: Option<String>,
}

/// Repository snapshots and their classified differences.
#[derive(Clone, Debug)]
pub struct RepositoryReport {
    /// Repository provider used for this report.
    pub provider: RepositoryProvider,
    /// Counted synthetic integrity result.
    pub integrity: RepositoryIntegrityResult,
    /// Sorted repository entries captured before checks, when available.
    pub before: Option<Vec<String>>,
    /// Sorted repository entries captured after checks, when available.
    pub after: Option<Vec<String>>,
    /// Entries introduced by validation, when comparison succeeds.
    pub introduced: Option<Vec<String>>,
    /// Entries removed by validation, when comparison succeeds.
    pub removed: Option<Vec<String>>,
    /// Entries whose visible content changed, when comparison succeeds.
    pub changed: Option<Vec<String>>,
}

/// Overall validation result derived from every counted status.
#[derive(Clone, Copy, Debug, PartialEq, Eq, Structural)]
pub enum OverallResult {
    /// Every counted operation passed.
    Pass,
    /// At least one counted operation failed.
    Fail,
    /// No operation failed, but at least one was blocked or skipped.
    Blocked,
}

/// Counts of concrete statuses together with their aggregate result.
#[derive(Clone, Debug)]
pub struct Summary {
    /// Number of passing counted operations.
    pub pass: usize,
    /// Number of failing counted operations.
    pub fail: usize,
    /// Number of blocked counted operations.
    pub blocked: usize,
    /// Number of skipped counted operations.
    pub skipped: usize,
    /// Aggregate result derived from the counts.
    pub result: OverallResult,
}

/// Portable version 4 document emitted after a validation run.
#[derive(Clone, Debug)]
pub struct ValidationReport {
    /// Version of the report contract.
    pub schema_version: u32,
    /// User selection that produced this report.
    pub selection: ValidationSelection,
    /// Portable workspace marker, always `.` in version 4.
    pub workspace_root: String,
    /// Unix timestamp in milliseconds captured at validation start.
    pub started_at_unix_ms: u64,
    /// Total validation duration in milliseconds.
    pub duration_ms: u64,
    /// Preflight results for every required tool.
    pub tools: Vec<ToolResult>,
    /// Aggregate results for reached groups in planning order.
    pub groups: Vec<GroupResult>,
    /// Aggregate results for reached suites in planning order.
    pub suites: Vec<SuiteResult>,
    /// Concrete check results in deterministic execution order.
    pub checks: Vec<CheckExecutionResult>,
    /// Repository integrity details when configured.
    pub repository: Option<RepositoryReport>,
    /// Aggregate result across concrete checks and repository integrity.
    pub summary: Summary,
}

/// The kind of a selection (0 group, 1 suite, 2 check) and its identifier.
pub open spec fn selection_view(selection: ValidationSelection) -> (int, Seq<char>) {
    match selection {
        ValidationSelection::Group { id } => (0, id@),
        ValidationSelection::Suite { id } => (1, id@),
        ValidationSelection::Check { id } => (2, id@),
    }
}

/// Number of occurrences of `status` in `statuses`.
pub open spec fn status_count(statuses: Seq<Status>, status: Status) -> nat
    decreases statuses.len(),
{
    if statuses.len() == 0 {
        0
    } else {
        status_count(statuses.drop_last(), status) + (if statuses.last() == status { 1nat } else { 0nat })
    }
}

/// The aggregate of the given counts: any failure dominates, then any
/// blocked or skipped operation.
pub open spec fn overall_of(fail: int, blocked: int, skipped: int) -> OverallResult {
    if fail > 0 {
        OverallResult::Fail
    } else if blocked > 0 || skipped > 0 {
        OverallResult::Blocked
    } else {
        OverallResult::Pass
    }
}

/// `summary` counts exactly the statuses of `statuses`.
pub open spec fn summarizes(summary: Summary, statuses: Seq<Status>) -> bool {
    &&& summary.pass == status_count(statuses, Status::Pass)
    &&& summary.fail == status_count(statuses, Status::Fail)
    &&& summary.blocked == status_count(statuses, Status::Blocked)
    &&& summary.skipped == status_count(statuses, Status::Skipped)
    &&& summary.result == overall_of(summary.fail as int, summary.blocked as int, summary.skipped as int)
}

proof fn lemma_status_count_concat(a: Seq<Status>, b: Seq<Status>, status: Status)
    ensures
        status_count(a + b, status) == status_count(a, status) + status_count(b, status),
    decreases b.len(),
{
    if b.len() > 0 {
        lemma_status_count_concat(a, b.drop_last(), status);
        assert((a + b).drop_last() =~= a + b.drop_last());
    } else {
        assert(a + b =~= a);
    }
}

proof fn lemma_status_count_multiset(s: Seq<Status>, status: Status)
    ensures
        status_count(s, status) == s.to_multiset().count(status),
    decreases s.len(),
{
    broadcast use vstd::seq_lib::group_to_multiset_ensures;
    if s.len() == 0 {
        assert(s.to_multiset() =~= vstd::multiset::Multiset::empty());
    } else {
        lemma_status_count_multiset(s.drop_last(), status);
        assert(s =~= s.drop_last().push(s.last()));
    }
}

/// Counting does not depend on order: statuses that are a permutation of
/// one another are summarized alike.
pub proof fn lemma_summary_ignores_order(xs: Seq<Status>, ys: Seq<Status>, a: Summary, b: Summary)
    requires
        xs.to_multiset() == ys.to_multiset(),
        summarizes(a, xs),
        summarizes(b, ys),
    ensures
        a == b,
{
    lemma_status_count_multiset(xs, Status::Pass);
    lemma_status_count_multiset(ys, Status::Pass);
    lemma_status_count_multiset(xs, Status::Fail);
    lemma_status_count_multiset(ys, Status::Fail);
    lemma_status_count_multiset(xs, Status::Blocked);
    lemma_status_count_multiset(ys, Status::Blocked);
    lemma_status_count_multiset(xs, Status::Skipped);
    lemma_status_count_multiset(ys, Status::Skipped);
}

/// Counting is additive: each count of two runs of statuses together is the
/// sum of the counts of each.
pub proof fn lemma_summary_adds(xs: Seq<Status>, ys: Seq<Status>, a: Summary, b: Summary, both: Summary)
    requires
        summarizes(a, xs),
        summarizes(b, ys),
        summarizes(both, xs + ys),
    ensures
        both.pass == a.pass + b.pass,
        both.fail == a.fail + b.fail,
        both.blocked == a.blocked + b.blocked,
        both.skipped == a.skipped + b.skipped,
{
    lemma_status_count_concat(xs, ys, Status::Pass);
    lemma_status_count_concat(xs, ys, Status::Fail);
    lemma_status_count_concat(xs, ys, Status::Blocked);
    lemma_status_count_concat(xs, ys, Status::Skipped);
}

/// The process exit code associated with an aggregate result.
pub open spec fn exit_code_of(result: OverallResult) -> i32 {
    match result {
        OverallResult::Pass => 0,
        OverallResult::Fail => 1,
        OverallResult::Blocked => 2,
    }
}

proof fn lemma_counts_bounded(statuses: Seq<Status>)
    ensures
        status_count(statuses, Status::Pass) + status_count(statuses, Status::Fail) + status_count(statuses, Status::Blocked)
            + status_count(statuses, Status::Skipped) == statuses.len(),
    decreases statuses.len(),
{
    if statuses.len() > 0 {
        lemma_counts_bounded(statuses.drop_last());
    }
}

impl Summary {
    /// Counts statuses and derives the strongest aggregate outcome.
    pub fn from_statuses(statuses: &[Status]) -> (r: Summary)
        ensures
            summarizes(r, statuses@),
    {
        let mut pass: usize = 0;
        let mut fail: usize = 0;
        let mut blocked: usize = 0;
        let mut skipped: usize = 0;
        let mut i: usize = 0;
        while i < statuses.len()
            invariant
                i <= statuses@.len(),
                pass == status_count(statuses@.take(i as int), Status::Pass),
                fail == status_count(statuses@.take(i as int), Status::Fail),
                blocked == status_count(statuses@.take(i as int), Status::Blocked),
                skipped == status_count(statuses@.take(i as int), Status::Skipped),
            decreases statuses@.len() - i,
        {
            proof {
                assert(statuses@.take(i + 1).drop_last() =~= statuses@.take(i as int));
                lemma_counts_bounded(statuses@.take(i + 1));
            }
            match statuses[i] {
                Status::Pass => pass = pass + 1,
                Status::Fail => fail = fail + 1,
                Status::Blocked => blocked = blocked + 1,
                Status::Skipped => skipped = skipped + 1,
            }
            i = i + 1;
        }
        assert(statuses@.take(statuses@.len() as int) =~= statuses@);
        let result = if fail > 0 {
            OverallResult::Fail
        } else if blocked > 0 || skipped > 0 {
            OverallResult::Blocked
        } else {
            OverallResult::Pass
        };
        Summary { pass, fail, blocked, skipped, result }
    }

    /// Maps the aggregate result to the process exit code used by the CLI.
    pub fn exit_code(&self) -> (r: i32)
        ensures
            r == exit_code_of(self.result),
    {
        match self.result {
            OverallResult::Pass => 0,
            OverallResult::Fail => 1,
            OverallResult::Blocked => 2,
        }
    }
}

} // verus!
