//! The decisions of a run that surround check execution: the preflight
//! verdict, whether the repository is sampled, what repository integrity
//! reports, and the assembly of the final report.

use vstd::prelude::*;
use crate::contracts::config::RepositoryConfig;
use crate::contracts::report::{
    status_count, summarizes, GroupResult, OverallResult, RepositoryIntegrityResult, RepositoryReport, Status,
    Summary, SuiteResult, ToolResult, ValidationReport, ValidationSelection, REPORT_SCHEMA_VERSION,
};
use crate::execution::aggregate::statuses_of;
use crate::execution::checks::{lookup_status, status_of};
use crate::execution::run::Execution;
use crate::repository::{absent_from, changed_paths, compare, RepositorySnapshot};
use crate::text::{owned, views};

verus! {

/// Completed report together with the cancellation state observed by the run.
#[derive(Debug)]
pub struct RunOutcome {
    /// Complete portable report produced by the run.
    pub report: ValidationReport,
    /// Whether cancellation was observed at any point during execution.
    pub interrupted: bool,
}

/// Every tool passed preflight.
pub open spec fn all_tools_pass(tools: Seq<ToolResult>) -> bool {
    forall|k: int| 0 <= k < tools.len() ==> (#[trigger] tools[k]).status == Status::Pass
}

/// The status of the preflight phase: passing only when every tool passes.
pub fn prerequisite_status(tools: &Vec<ToolResult>) -> (r: Status)
    ensures
        r == (if all_tools_pass(tools@) { Status::Pass } else { Status::Blocked }),
{
    let mut i: usize = 0;
    while i < tools.len()
        invariant
            i <= tools@.len(),
            forall|k: int| 0 <= k < i ==> (#[trigger] tools@[k]).status == Status::Pass,
        decreases tools@.len() - i,
    {
        match tools[i].status {
            Status::Pass => {},
            _ => {
                return Status::Blocked;
            },
        }
        i = i + 1;
    }
    Status::Pass
}

/// The repository is sampled only when it is configured and its provider
/// tool passed preflight.
pub fn repository_ready(repository: &Option<RepositoryConfig>, tools: &Vec<(String, Status)>) -> (r: bool)
    ensures
        r == (match repository {
            Some(config) => status_of(tools@, config.tool_id@) == Some(Status::Pass),
            None => false,
        }),
{
    match repository {
        Some(config) => match lookup_status(tools, config.tool_id.as_str()) {
            Some(Status::Pass) => true,
            _ => false,
        },
        None => false,
    }
}

/// The status of a snapshot phase: passing when the snapshot was taken;
/// after the checks, a failure under cancellation counts as skipped.
pub fn snapshot_status(taken: bool, cancelled: bool, after_checks: bool) -> (r: Status)
    ensures
        r == (if taken {
            Status::Pass
        } else if after_checks && cancelled {
            Status::Skipped
        } else {
            Status::Blocked
        }),
{
    if taken {
        Status::Pass
    } else if after_checks && cancelled {
        Status::Skipped
    } else {
        Status::Blocked
    }
}

/// The entries of a snapshot that was taken.
pub open spec fn taken_entries(snapshot: Option<Result<RepositorySnapshot, String>>) -> Option<Seq<Seq<char>>> {
    match snapshot {
        Some(Ok(s)) => Some(views(s.entries@)),
        _ => None,
    }
}

/// The view of an optional list of texts.
pub open spec fn opt_views(values: Option<Vec<String>>) -> Option<Seq<Seq<char>>> {
    match values {
        Some(v) => Some(views(v@)),
        None => None,
    }
}

/// The view of an optional text.
pub open spec fn opt_text(value: Option<String>) -> Option<Seq<char>> {
    match value {
        Some(v) => Some(v@),
        None => None,
    }
}

/// Why a snapshot could not be taken, preferring the initial one.
pub open spec fn snapshot_failure(
    before: Option<Result<RepositorySnapshot, String>>,
    after: Option<Result<RepositorySnapshot, String>>,
) -> Option<Seq<char>> {
    match before {
        Some(Err(reason)) => Some(reason@),
        _ => match after {
            Some(Err(reason)) => Some(reason@),
            _ => None,
        },
    }
}

/// The status when integrity cannot be decided.
pub open spec fn undecided_status(cancelled: bool) -> Status {
    if cancelled {
        Status::Skipped
    } else {
        Status::Blocked
    }
}

/// `report` is the repository section of a run, given the snapshots taken
/// before and after the checks.
pub open spec fn reports_repository(
    report: RepositoryReport,
    config: RepositoryConfig,
    before: Option<Result<RepositorySnapshot, String>>,
    after: Option<Result<RepositorySnapshot, String>>,
    cancelled: bool,
    duration_ms: u64,
) -> bool {
    &&& report.provider == config.provider
    &&& report.integrity.id@ == "repository.integrity"@
    &&& report.integrity.label@ == "Integridade do repositório"@
    &&& report.integrity.duration_ms == duration_ms
    &&& match (before, after) {
        (Some(Ok(b)), Some(Ok(a))) => {
            let introduced = absent_from(a.paths(), b.paths());
            let removed = absent_from(b.paths(), a.paths());
            let changed = changed_paths(b.states@, a);
            let mutated = config.detect_mutations && !(introduced.len() == 0 && removed.len() == 0 && changed.len()
                == 0);
            &&& report.integrity.status == (if mutated { Status::Fail } else { Status::Pass })
            &&& opt_text(report.integrity.reason) == (if mutated {
                Some("validation changed Git-visible workspace state"@)
            } else {
                None
            })
            &&& opt_views(report.before) == Some(views(b.entries@))
            &&& opt_views(report.after) == Some(views(a.entries@))
            &&& opt_views(report.introduced) == Some(introduced)
            &&& opt_views(report.removed) == Some(removed)
            &&& opt_views(report.changed) == Some(changed)
        },
        _ => {
            &&& report.integrity.status == undecided_status(cancelled)
            &&& opt_text(report.integrity.reason) == Some(
                match snapshot_failure(before, after) {
                    Some(reason) => reason,
                    None => "repository tool is unavailable"@,
                },
            )
            &&& opt_views(report.before) == (if snapshot_failure(before, after) is Some {
                taken_entries(before)
            } else {
                None
            })
            &&& opt_views(report.after) == (if snapshot_failure(before, after) is Some {
                taken_entries(after)
            } else {
                None
            })
            &&& report.introduced is None
            &&& report.removed is None
            &&& report.changed is None
        },
    }
}

/// With mutation detection on, a path held by both snapshots whose status
/// code or index entries changed while the checks ran fails the integrity
/// check.
pub proof fn lemma_changed_entry_fails_integrity(
    report: RepositoryReport,
    config: RepositoryConfig,
    b: RepositorySnapshot,
    a: RepositorySnapshot,
    cancelled: bool,
    duration_ms: u64,
    x: Seq<char>,
)
    requires
        reports_repository(report, config, Some(Ok(b)), Some(Ok(a)), cancelled, duration_ms),
        b.wf(),
        a.wf(),
        config.detect_mutations,
        b.paths().contains(x),
        a.paths().contains(x),
        b.state_of(x).status@ != a.state_of(x).status@ || views(b.state_of(x).index_entries@) != views(
            a.state_of(x).index_entries@,
        ),
    ensures
        report.integrity.status == Status::Fail,
{
    crate::repository::lemma_compare_detects_changes(b, a, x);
    let changed = changed_paths(b.states@, a);
    assert(changed.contains(x));
    assert(changed.len() > 0);
}

fn copy_entries(snapshot: &Option<Result<RepositorySnapshot, String>>) -> (r: Option<Vec<String>>)
    ensures
        opt_views(r) == taken_entries(*snapshot),
{
    match snapshot {
        Some(Ok(s)) => Some(crate::config::validation::clone_strings(&s.entries)),
        _ => None,
    }
}

/// Decides repository integrity from the snapshots taken around the checks.
///
/// Integrity fails when mutation detection is on and the snapshots differ;
/// it is blocked, or skipped under cancellation, when a snapshot is missing.
pub fn repository_report(
    config: &RepositoryConfig,
    before: &Option<Result<RepositorySnapshot, String>>,
    after: &Option<Result<RepositorySnapshot, String>>,
    cancelled: bool,
    duration_ms: u64,
) -> (r: RepositoryReport)
    requires
        before matches Some(Ok(s)) ==> s.wf(),
        after matches Some(Ok(s)) ==> s.wf(),
    ensures
        reports_repository(r, *config, *before, *after, cancelled, duration_ms),
{
    let id = owned("repository.integrity");
    let label = owned("Integridade do repositório");
    match (before, after) {
        (Some(Ok(b)), Some(Ok(a))) => {
            let (introduced, removed, changed) = compare(b, a);
            let mutated = config.detect_mutations && !(introduced.len() == 0 && removed.len() == 0 && changed.len()
                == 0);
            proof {
                assert(views(introduced@).len() == introduced@.len());
                assert(views(removed@).len() == removed@.len());
                assert(views(changed@).len() == changed@.len());
            }
            RepositoryReport {
                provider: config.provider,
                integrity: RepositoryIntegrityResult {
                    id,
                    label,
                    status: if mutated {
                        Status::Fail
                    } else {
                        Status::Pass
                    },
                    duration_ms,
                    reason: if mutated {
                        Some(owned("validation changed Git-visible workspace state"))
                    } else {
                        None
                    },
                },
                before: Some(crate::config::validation::clone_strings(&b.entries)),
                after: Some(crate::config::validation::clone_strings(&a.entries)),
                introduced: Some(introduced),
                removed: Some(removed),
                changed: Some(changed),
            }
        },
        _ => {
            let status = if cancelled {
                Status::Skipped
            } else {
                Status::Blocked
            };
            let failure = match before {
                Some(Err(reason)) => Some(owned(reason.as_str())),
                _ => match after {
                    Some(Err(reason)) => Some(owned(reason.as_str())),
                    _ => None,
                },
            };
            let (reason, before_entries, after_entries) = match failure {
                Some(reason) => (reason, copy_entries(before), copy_entries(after)),
                None => (owned("repository tool is unavailable"), None, None),
            };
            RepositoryReport {
                provider: config.provider,
                integrity: RepositoryIntegrityResult { id, label, status, duration_ms, reason: Some(reason) },
                before: before_entries,
                after: after_entries,
                introduced: None,
                removed: None,
                changed: None,
            }
        },
    }
}

/// The values present in a sequence of optional values, in order.
pub open spec fn present<T>(values: Seq<Option<T>>) -> Seq<T>
    decreases values.len(),
{
    if values.len() == 0 {
        Seq::empty()
    } else {
        match values.last() {
            Some(v) => present(values.drop_last()).push(v),
            None => present(values.drop_last()),
        }
    }
}

fn take_present<T>(values: Vec<Option<T>>) -> (r: Vec<T>)
    ensures
        r@ == present(values@),
{
    let ghost all = values@;
    let mut rest = values;
    let mut r: Vec<T> = Vec::new();
    let ghost mut k: int = 0;
    while rest.len() > 0
        invariant
            0 <= k <= all.len(),
            rest@ == all.skip(k),
            r@ == present(all.take(k)),
        decreases rest@.len(),
    {
        let x = rest.remove(0);
        proof {
            assert(x == all[k]);
            assert(all.take(k + 1).drop_last() =~= all.take(k));
            assert(rest@ =~= all.skip(k + 1));
        }
        match x {
            Some(v) => {
                r.push(v);
            },
            None => {},
        }
        proof {
            k = k + 1;
        }
    }
    assert(all.take(k) =~= all);
    r
}

/// The statuses a run summary counts: every check, then repository integrity.
pub open spec fn counted_statuses(report: ValidationReport) -> Seq<Status> {
    statuses_of(report.checks@) + match report.repository {
        Some(repository) => seq![repository.integrity.status],
        None => Seq::empty(),
    }
}

fn copy_selection(selection: &ValidationSelection) -> (r: ValidationSelection)
    ensures
        crate::contracts::report::selection_view(r) == crate::contracts::report::selection_view(*selection),
{
    match selection {
        ValidationSelection::Group { id } => ValidationSelection::Group { id: owned(id.as_str()) },
        ValidationSelection::Suite { id } => ValidationSelection::Suite { id: owned(id.as_str()) },
        ValidationSelection::Check { id } => ValidationSelection::Check { id: owned(id.as_str()) },
    }
}

/// Assembles the report of a finished run: the preflight results, the
/// reached groups and suites in plan order, every check in execution
/// order, and the repository section, summarized together.
pub fn final_report(
    plan: &crate::planning::ValidationPlan,
    execution: Execution,
    tools: Vec<ToolResult>,
    repository: Option<RepositoryReport>,
    started_at_unix_ms: u64,
    duration_ms: u64,
) -> (r: ValidationReport)
    ensures
        r.schema_version == REPORT_SCHEMA_VERSION,
        crate::contracts::report::selection_view(r.selection) == crate::contracts::report::selection_view(plan.selection),
        r.workspace_root@ == "."@,
        r.started_at_unix_ms == started_at_unix_ms,
        r.duration_ms == duration_ms,
        r.tools == tools,
        r.groups@ == present(execution.group_results@),
        r.suites@ == present(execution.suite_results@),
        r.checks == execution.ordered,
        r.repository == repository,
        summarizes(r.summary, counted_statuses(r)),
{
    let checks = execution.ordered;
    let mut statuses: Vec<Status> = Vec::new();
    let mut i: usize = 0;
    while i < checks.len()
        invariant
            i <= checks@.len(),
            statuses@ == statuses_of(checks@).take(i as int),
        decreases checks@.len() - i,
    {
        statuses.push(checks[i].status);
        proof {
            assert(statuses_of(checks@).take(i + 1) =~= statuses_of(checks@).take(i as int).push(checks@[i as int].status));
        }
        i = i + 1;
    }
    assert(statuses_of(checks@).take(checks@.len() as int) =~= statuses_of(checks@));
    match &repository {
        Some(report) => {
            statuses.push(report.integrity.status);
        },
        None => {},
    }
    let summary = Summary::from_statuses(statuses.as_slice());
    let r = ValidationReport {
        schema_version: REPORT_SCHEMA_VERSION,
        selection: copy_selection(&plan.selection),
        workspace_root: owned("."),
        started_at_unix_ms,
        duration_ms,
        tools,
        groups: take_present(execution.group_results),
        suites: take_present(execution.suite_results),
        checks,
        repository,
        summary,
    };
    proof {
        reveal_strlit(".");
        assert(statuses@ =~= counted_statuses(r));
    }
    r
}

/// A summary passes exactly when every status it counts passes, so a run
/// exits with code 0 only when every check and repository integrity pass.
pub proof fn lemma_summary_passes_iff_all_pass(summary: Summary, statuses: Seq<Status>)
    requires
        summarizes(summary, statuses),
    ensures
        summary.result == OverallResult::Pass <==> forall|k: int| 0 <= k < statuses.len() ==> #[trigger] statuses[k]
            == Status::Pass,
    decreases statuses.len(),
{
    lemma_count_zero_iff_absent(statuses, Status::Fail);
    lemma_count_zero_iff_absent(statuses, Status::Blocked);
    lemma_count_zero_iff_absent(statuses, Status::Skipped);
    if summary.result == OverallResult::Pass {
        assert forall|k: int| 0 <= k < statuses.len() implies #[trigger] statuses[k] == Status::Pass by {
            match statuses[k] {
                Status::Fail => {},
                Status::Blocked => {},
                Status::Skipped => {},
                Status::Pass => {},
            }
        }
    }
}

/// A status is counted zero times exactly when it does not occur.
proof fn lemma_count_zero_iff_absent(statuses: Seq<Status>, status: Status)
    ensures
        status_count(statuses, status) == 0 <==> forall|k: int| 0 <= k < statuses.len() ==> statuses[k] != status,
    decreases statuses.len(),
{
    if statuses.len() > 0 {
        lemma_count_zero_iff_absent(statuses.drop_last(), status);
        if status_count(statuses, status) == 0 {
            assert forall|k: int| 0 <= k < statuses.len() implies statuses[k] != status by {
                if k < statuses.len() - 1 {
                    assert(statuses.drop_last()[k] == statuses[k]);
                }
            }
        } else if statuses.last() != status {
            let k = choose|k: int| 0 <= k < statuses.drop_last().len() && statuses.drop_last()[k] == status;
            assert(statuses[k] == status);
        }
    }
}

} // verus!
