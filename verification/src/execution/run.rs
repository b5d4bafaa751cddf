//! The check-execution state machine of one validation run.
//!
//! The machine walks the plan: direct checks one by one, or a suite's
//! checks in order, or a group tree depth first with memoized groups and
//! suites. Each call of [`Execution::step`] takes one decision; when a check
//! command must run, the step returns it and the caller runs it and hands
//! the process facts to the next step.

use vstd::prelude::*;
use crate::config::parameters::{expand, expansion};
use crate::config::validation::{lemma_check_tools_declared, ValidatedConfig};
use crate::contracts::config::{CheckConfig, GroupMemberRef};
use crate::contracts::report::{CheckContext, CheckExecutionResult, GroupResult, Status, SuiteResult, ValidationSelection};
use crate::execution::aggregate::{execution_of, find_execution, group_result, group_result_of, suite_result, suite_result_of};
use crate::execution::checks::{
    check_gate, executed, executed_result, gate_of, nonexecuted, nonexecuted_result, same_result, set_status,
};
use crate::execution::ProcessOutput;
use crate::execution::progress::ProgressReporter;
use crate::planning::{CheckExecutionKey, ExecutionNodeRef, PlannedGroup, PlannedSuite, ValidationPlan};
use crate::text::{entry_of, extend_strings, keys_of, owned, views};
use crate::inspection::program_of;
use crate::reporting::result::first_where;

verus! {

/// A command the caller must run before the next step.
#[derive(Clone, Debug)]
pub struct CommandRequest {
    /// Executable passed directly to the operating system.
    pub program: String,
    /// Arguments, without the executable.
    pub args: Vec<String>,
    /// Working directory.
    pub cwd: String,
    /// Deadline in seconds.
    pub timeout_seconds: u64,
    /// Captured bytes kept from each output stream.
    pub output_limit: usize,
}

/// What the caller does after a step.
#[derive(Clone, Debug)]
pub enum ExecutionStep {
    /// Call the next step without output.
    Continue,
    /// Run the command and pass its output to the next step.
    Run(CommandRequest),
    /// Every planned check has been classified.
    Finished,
}

/// A check whose command is running.
#[derive(Clone, Debug)]
pub struct PendingCheck {
    /// Position of the check among the declared checks.
    pub check: usize,
    /// The command line recorded in the result.
    pub argv: Vec<String>,
    /// Position of the planned execution the result belongs to, if planned.
    pub execution: Option<usize>,
}

/// A group being walked.
#[derive(Clone, Debug)]
pub struct GroupFrame {
    /// Position of the group in the plan.
    pub group: usize,
    /// Membership path from the selected group.
    pub path: Vec<ExecutionNodeRef>,
    /// Next member to visit.
    pub next: usize,
    /// Whether the group was announced.
    pub started: bool,
}

/// A suite being run.
#[derive(Clone, Debug)]
pub struct SuiteRun {
    /// Position of the suite in the plan.
    pub suite: usize,
    /// Membership path from the selected node.
    pub path: Vec<ExecutionNodeRef>,
    /// Next invocation to run.
    pub next: usize,
    /// Statuses of this suite's checks so far.
    pub local: Vec<(String, Status)>,
    /// Whether the suite was announced.
    pub started: bool,
    /// The invocation whose command is running.
    pub pending: Option<PendingCheck>,
}

/// Direct checks being run at the workspace root.
#[derive(Clone, Debug)]
pub struct DirectRun {
    /// Next planned execution to run.
    pub next: usize,
    /// Statuses of the direct checks so far.
    pub local: Vec<(String, Status)>,
    /// The check whose command is running.
    pub pending: Option<PendingCheck>,
}

/// A lifecycle event of a run, in the order the run reaches it. Groups and
/// suites are positions in the plan, checks positions among the declared
/// checks, results positions in the order checks were classified.
#[derive(Clone, Debug)]
pub enum ExecutionEvent {
    /// A group is walked for the first time.
    GroupStarted { path: Vec<ExecutionNodeRef>, group: usize, members: usize },
    /// A group already run is met again.
    GroupReused { path: Vec<ExecutionNodeRef>, group: usize },
    /// A group's result is stored.
    GroupFinished { path: Vec<ExecutionNodeRef>, group: usize },
    /// A suite runs for the first time.
    SuiteStarted { path: Vec<ExecutionNodeRef>, suite: usize, checks: usize },
    /// A suite already run is met again.
    SuiteReused { path: Vec<ExecutionNodeRef>, suite: usize },
    /// A suite's result is stored.
    SuiteFinished { path: Vec<ExecutionNodeRef>, suite: usize },
    /// A suite's check is about to be classified.
    CheckStarted { path: Vec<ExecutionNodeRef>, position: usize, total: usize, check: usize },
    /// A suite's check was classified.
    CheckFinished { path: Vec<ExecutionNodeRef>, position: usize, total: usize, result: usize },
    /// A direct check is about to be classified.
    DirectCheckStarted { position: usize, total: usize, check: usize },
    /// A direct check was classified.
    DirectCheckFinished { position: usize, total: usize, result: usize },
}

/// An event by the kind and identifier of each node of its path.
pub ghost enum EventView {
    GroupStarted { path: Seq<(bool, Seq<char>)>, group: int, members: int },
    GroupReused { path: Seq<(bool, Seq<char>)>, group: int },
    GroupFinished { path: Seq<(bool, Seq<char>)>, group: int },
    SuiteStarted { path: Seq<(bool, Seq<char>)>, suite: int, checks: int },
    SuiteReused { path: Seq<(bool, Seq<char>)>, suite: int },
    SuiteFinished { path: Seq<(bool, Seq<char>)>, suite: int },
    CheckStarted { path: Seq<(bool, Seq<char>)>, position: int, total: int, check: int },
    CheckFinished { path: Seq<(bool, Seq<char>)>, position: int, total: int, result: int },
    DirectCheckStarted { position: int, total: int, check: int },
    DirectCheckFinished { position: int, total: int, result: int },
}

/// The view of an event.
pub open spec fn event_view(e: ExecutionEvent) -> EventView {
    match e {
        ExecutionEvent::GroupStarted { path, group, members } => EventView::GroupStarted {
            path: path_view(path@),
            group: group as int,
            members: members as int,
        },
        ExecutionEvent::GroupReused { path, group } => EventView::GroupReused { path: path_view(path@), group: group as int },
        ExecutionEvent::GroupFinished { path, group } => EventView::GroupFinished {
            path: path_view(path@),
            group: group as int,
        },
        ExecutionEvent::SuiteStarted { path, suite, checks } => EventView::SuiteStarted {
            path: path_view(path@),
            suite: suite as int,
            checks: checks as int,
        },
        ExecutionEvent::SuiteReused { path, suite } => EventView::SuiteReused { path: path_view(path@), suite: suite as int },
        ExecutionEvent::SuiteFinished { path, suite } => EventView::SuiteFinished {
            path: path_view(path@),
            suite: suite as int,
        },
        ExecutionEvent::CheckStarted { path, position, total, check } => EventView::CheckStarted {
            path: path_view(path@),
            position: position as int,
            total: total as int,
            check: check as int,
        },
        ExecutionEvent::CheckFinished { path, position, total, result } => EventView::CheckFinished {
            path: path_view(path@),
            position: position as int,
            total: total as int,
            result: result as int,
        },
        ExecutionEvent::DirectCheckStarted { position, total, check } => EventView::DirectCheckStarted {
            position: position as int,
            total: total as int,
            check: check as int,
        },
        ExecutionEvent::DirectCheckFinished { position, total, result } => EventView::DirectCheckFinished {
            position: position as int,
            total: total as int,
            result: result as int,
        },
    }
}

/// The views of a sequence of events.
pub open spec fn events_view(events: Seq<ExecutionEvent>) -> Seq<EventView> {
    Seq::new(events.len(), |i: int| event_view(events[i]))
}

/// Two publications in a row publish both events in order.
pub proof fn lemma_published_twice(a: Seq<EventView>, x: EventView, y: EventView)
    ensures
        (a + seq![x]) + seq![y] == a + seq![x, y],
{
    assert((a + seq![x]) + seq![y] =~= a + seq![x, y]);
}

/// `after` published the events `new` after those of `before`.
pub open spec fn published(before: Execution, after: Execution, new: Seq<EventView>) -> bool {
    events_view(after.events@) == events_view(before.events@) + new
}

/// The state of check execution for one plan.
#[derive(Debug)]
pub struct Execution {
    /// Groups being walked, innermost last.
    pub frames: Vec<GroupFrame>,
    /// The suite being run, if any.
    pub suite_run: Option<SuiteRun>,
    /// The direct checks being run, for a check selection.
    pub direct: Option<DirectRun>,
    /// The result of each planned execution, once known.
    pub results: Vec<Option<CheckExecutionResult>>,
    /// Every result, in the order the checks were classified.
    pub ordered: Vec<CheckExecutionResult>,
    /// The result of each planned group, once known.
    pub group_results: Vec<Option<GroupResult>>,
    /// The result of each planned suite, once known.
    pub suite_results: Vec<Option<SuiteResult>>,
    /// The lifecycle events published so far.
    pub events: Vec<ExecutionEvent>,
}

impl Execution {
    /// Positions held by the state lie within the plan and the configuration.
    pub open spec fn wf(&self, v: ValidatedConfig, plan: ValidationPlan) -> bool {
        &&& plan.wf()
        &&& (self.direct is Some ==> self.suite_run is None && self.frames@.len() == 0)
        &&& self.results@.len() == plan.check_executions@.len()
        &&& self.group_results@.len() == plan.groups@.len()
        &&& self.suite_results@.len() == plan.suites@.len()
        &&& forall|i: int|
            0 <= i < self.frames@.len() ==> (#[trigger] self.frames@[i]).group < plan.groups@.len() && self.frames@[i].next
                <= plan.groups@[self.frames@[i].group as int].members@.len()
        &&& match self.suite_run {
            Some(run) => {
                &&& run.suite < plan.suites@.len()
                &&& run.next <= plan.suites@[run.suite as int].checks@.len()
                &&& (run.pending is Some ==> run.started && run.next < plan.suites@[run.suite as int].checks@.len())
                &&& match run.pending {
                    Some(p) => p.check < v.checked.config.checks@.len() && match p.execution {
                        Some(e) => e < self.results@.len(),
                        None => true,
                    },
                    None => true,
                }
            },
            None => true,
        }
        &&& match self.direct {
            Some(run) => {
                &&& run.next <= plan.check_executions@.len()
                &&& (run.pending is Some ==> run.next < plan.check_executions@.len())
                &&& match run.pending {
                    Some(p) => p.check < v.checked.config.checks@.len() && match p.execution {
                        Some(e) => e < self.results@.len(),
                        None => true,
                    },
                    None => true,
                }
            },
            None => true,
        }
    }

    /// A check command is running and its output is owed to the next step.
    pub open spec fn awaiting(&self) -> bool {
        ||| (self.suite_run matches Some(run) && run.pending is Some)
        ||| (self.direct matches Some(run) && run.pending is Some)
    }

    /// No work is left.
    pub open spec fn finished(&self) -> bool {
        &&& self.frames@.len() == 0
        &&& self.suite_run is None
        &&& self.direct is None
    }
}

/// A position held as an optional machine integer, as a mathematical one.
pub open spec fn as_index(position: Option<usize>) -> Option<int> {
    match position {
        Some(e) => Some(e as int),
        None => None,
    }
}

/// `after` holds the statuses of `before` with `id` set to `status`.
pub open spec fn status_set(
    before: Seq<(String, Status)>,
    after: Seq<(String, Status)>,
    id: Seq<char>,
    status: Status,
) -> bool {
    &&& crate::execution::checks::status_of(after, id) == Some(status)
    &&& forall|other: Seq<char>|
        other != id ==> crate::execution::checks::status_of(after, other) == crate::execution::checks::status_of(
            before,
            other,
        )
}

/// `after` classified one more check than `before`: the result is the last
/// of `after.ordered`, and a copy of it is stored for the planned execution
/// at `execution`, if any. Nothing else of the results changed.
pub open spec fn recorded(before: Execution, after: Execution, execution: Option<int>) -> bool {
    &&& after.ordered@.len() == before.ordered@.len() + 1
    &&& forall|k: int| 0 <= k < before.ordered@.len() ==> after.ordered@[k] == before.ordered@[k]
    &&& after.results@.len() == before.results@.len()
    &&& forall|k: int| 0 <= k < before.results@.len() && execution != Some(k) ==> after.results@[k] == before.results@[k]
    &&& match execution {
        Some(e) => after.results@[e] matches Some(stored) && same_result(stored, after.ordered@.last()),
        None => true,
    }
}

/// `after` classified nothing more than `before`.
pub open spec fn nothing_recorded(before: Execution, after: Execution) -> bool {
    &&& after.results == before.results
    &&& after.ordered == before.ordered
}

/// One step of a direct run: the check whose command ran is classified from
/// its output; otherwise the next planned check is classified without
/// running when its gate stops it, or its command is asked for.
pub open spec fn direct_transition(
    v: ValidatedConfig,
    plan: ValidationPlan,
    tools: Seq<(String, Status)>,
    cancelled: bool,
    output: Option<ProcessOutput>,
    before: Execution,
    after: Execution,
    r: ExecutionStep,
) -> bool {
    let run = before.direct->0;
    let checks = v.checked.config.checks@;
    &&& after.frames == before.frames
    &&& after.suite_run == before.suite_run
    &&& after.group_results == before.group_results
    &&& after.suite_results == before.suite_results
    &&& match run.pending {
        Some(pending) => {
            let check = checks[pending.check as int];
            let result = after.ordered@.last();
            &&& r is Continue
            &&& recorded(before, after, as_index(pending.execution))
            &&& published(
                before,
                after,
                seq![
                    EventView::DirectCheckFinished {
                        position: run.next + 1,
                        total: plan.check_executions@.len() as int,
                        result: before.ordered@.len() as int,
                    },
                ],
            )
            &&& executed_result(result, check, None, views(pending.argv@), output->0)
            &&& after.direct matches Some(next) && next.next == run.next + 1 && next.pending is None && status_set(
                run.local@,
                next.local@,
                check.id@,
                result.status,
            )
        },
        None => if run.next >= plan.check_executions@.len() {
            &&& r is Continue
            &&& after.direct is None
            &&& nothing_recorded(before, after)
            &&& after.events == before.events
        } else {
            let id = plan.check_executions@[run.next as int].check_id@;
            if !keys_of(checks).contains(id) {
                &&& r is Continue
                &&& after.direct matches Some(next) && next.next == run.next + 1 && next.local == run.local
                    && next.pending is None
                &&& nothing_recorded(before, after)
                &&& after.events == before.events
            } else {
                let p = entry_of(checks, id);
                let check = checks[p];
                let arguments = expansion(check.args@, Seq::empty());
                let argv = seq![program_of(v.checked, id)] + arguments;
                let total = plan.check_executions@.len() as int;
                let started = EventView::DirectCheckStarted { position: run.next + 1, total, check: p };
                match gate_of(check, Seq::empty(), run.local@, tools, cancelled) {
                    Some((status, reason)) => {
                        &&& r is Continue
                        &&& recorded(before, after, Some(run.next as int))
                        &&& published(
                            before,
                            after,
                            seq![
                                started,
                                EventView::DirectCheckFinished {
                                    position: run.next + 1,
                                    total,
                                    result: before.ordered@.len() as int,
                                },
                            ],
                        )
                        &&& nonexecuted_result(after.ordered@.last(), check, None, argv, status, reason)
                        &&& after.direct matches Some(next) && next.next == run.next + 1 && next.pending is None
                            && status_set(run.local@, next.local@, check.id@, status)
                    },
                    None => {
                        &&& r matches ExecutionStep::Run(request) && request.program@ == program_of(v.checked, id)
                            && views(request.args@) == arguments && request.cwd@ == v.checked.workspace_root@
                            && request.timeout_seconds == check.timeout_seconds && request.output_limit
                            == v.checked.config.output_limit_bytes
                        &&& after.direct matches Some(next) && next.next == run.next && next.local == run.local
                            && (next.pending matches Some(pc) && pc.check == p && views(pc.argv@) == argv
                            && pc.execution == Some(run.next))
                        &&& nothing_recorded(before, after)
                        &&& published(before, after, seq![started])
                    },
                }
            }
        },
    }
}

/// One step of a suite run: the suite is announced, or found already run;
/// the check whose command ran is classified from its output; the next
/// check is classified without running when its gate stops it, or its
/// command is asked for; after the last check the suite's result is stored.
pub open spec fn suite_transition(
    v: ValidatedConfig,
    plan: ValidationPlan,
    tools: Seq<(String, Status)>,
    cancelled: bool,
    output: Option<ProcessOutput>,
    before: Execution,
    after: Execution,
    r: ExecutionStep,
) -> bool {
    let run = before.suite_run->0;
    let checks = v.checked.config.checks@;
    let suite = plan.suites@[run.suite as int];
    let n = suite.checks@.len() as int;
    let path = path_view(run.path@);
    &&& r is Continue || r is Run
    &&& after.frames == before.frames
    &&& after.direct == before.direct
    &&& after.group_results == before.group_results
    &&& if !run.started {
        &&& r is Continue
        &&& nothing_recorded(before, after)
        &&& after.suite_results == before.suite_results
        &&& published(
            before,
            after,
            seq![
                if before.suite_results@[run.suite as int] is Some {
                    EventView::SuiteReused { path, suite: run.suite as int }
                } else {
                    EventView::SuiteStarted { path, suite: run.suite as int, checks: n }
                },
            ],
        )
        &&& match before.suite_results@[run.suite as int] {
            Some(_) => after.suite_run is None,
            None => after.suite_run matches Some(next) && next.started && next.suite == run.suite && next.path
                == run.path && next.next == run.next && next.local == run.local && next.pending == run.pending,
        }
    } else {
        match run.pending {
            Some(pending) => {
                let check = checks[pending.check as int];
                let result = after.ordered@.last();
                &&& r is Continue
                &&& recorded(before, after, as_index(pending.execution))
                &&& published(
                    before,
                    after,
                    seq![
                        EventView::CheckFinished {
                            path,
                            position: run.next + 1,
                            total: n,
                            result: before.ordered@.len() as int,
                        },
                    ],
                )
                &&& after.suite_results == before.suite_results
                &&& executed_result(result, check, Some(suite.id@), views(pending.argv@), output->0)
                &&& after.suite_run matches Some(next) && next.started && next.suite == run.suite && next.path
                    == run.path && next.next == run.next + 1 && next.pending is None && status_set(
                    run.local@,
                    next.local@,
                    suite.checks@[run.next as int].check_id@,
                    result.status,
                )
            },
            None => if run.next < suite.checks@.len() {
                let invocation = suite.checks@[run.next as int];
                let id = invocation.check_id@;
                if !keys_of(checks).contains(id) {
                    &&& r is Continue
                    &&& nothing_recorded(before, after)
                    &&& after.events == before.events
                    &&& after.suite_results == before.suite_results
                    &&& after.suite_run matches Some(next) && next.started && next.suite == run.suite && next.path
                        == run.path && next.next == run.next + 1 && next.local == run.local && next.pending is None
                } else {
                    let p = entry_of(checks, id);
                    let check = checks[p];
                    let argv = seq![program_of(v.checked, id)] + views(invocation.arguments@);
                    let execution = execution_of(plan.check_executions@, (Some(suite.id@), id));
                    let started = EventView::CheckStarted { path, position: run.next + 1, total: n, check: p };
                    match gate_of(check, views(invocation.depends_on@), run.local@, tools, cancelled) {
                        Some((status, reason)) => {
                            &&& r is Continue
                            &&& recorded(before, after, execution)
                            &&& published(
                                before,
                                after,
                                seq![
                                    started,
                                    EventView::CheckFinished {
                                        path,
                                        position: run.next + 1,
                                        total: n,
                                        result: before.ordered@.len() as int,
                                    },
                                ],
                            )
                            &&& after.suite_results == before.suite_results
                            &&& nonexecuted_result(after.ordered@.last(), check, Some(suite.id@), argv, status, reason)
                            &&& after.suite_run matches Some(next) && next.started && next.suite == run.suite
                                && next.path == run.path && next.next == run.next + 1 && next.pending is None
                                && status_set(run.local@, next.local@, id, status)
                        },
                        None => {
                            &&& r matches ExecutionStep::Run(request) && request.program@ == program_of(v.checked, id)
                                && views(request.args@) == views(invocation.arguments@) && request.cwd@
                                == suite.working_directory@ && request.timeout_seconds == check.timeout_seconds
                                && request.output_limit == v.checked.config.output_limit_bytes
                            &&& nothing_recorded(before, after)
                            &&& after.suite_results == before.suite_results
                            &&& after.suite_run matches Some(next) && next.started && next.suite == run.suite
                                && next.path == run.path && next.next == run.next && next.local == run.local
                                && (next.pending matches Some(pc) && pc.check == p && views(pc.argv@) == argv
                                && as_index(pc.execution) == execution)
                            &&& published(before, after, seq![started])
                        },
                    }
                }
            } else {
                &&& r is Continue
                &&& nothing_recorded(before, after)
                &&& published(before, after, seq![EventView::SuiteFinished { path, suite: run.suite as int }])
                &&& after.suite_run is None
                &&& after.suite_results@.len() == before.suite_results@.len()
                &&& forall|k: int|
                    0 <= k < before.suite_results@.len() && k != run.suite ==> after.suite_results@[k]
                        == before.suite_results@[k]
                &&& after.suite_results@[run.suite as int] matches Some(result) && suite_result_of(
                    result,
                    suite,
                    plan.suite_check_executions@[run.suite as int]@,
                    plan.check_executions@,
                    before.results@,
                )
            },
        }
    }
}

/// One step of a group walk, on the innermost group: the group is
/// announced, or found already run; its next member is entered (a group
/// already run is not entered again, a suite starts a suite run); after
/// its last member the group's result is stored.
pub open spec fn group_transition(plan: ValidationPlan, before: Execution, after: Execution) -> bool {
    let frame = before.frames@.last();
    let rest = before.frames@.drop_last();
    let group = plan.groups@[frame.group as int];
    let path = path_view(frame.path@);
    &&& after.direct == before.direct
    &&& nothing_recorded(before, after)
    &&& if !frame.started {
        &&& after.suite_run == before.suite_run
        &&& after.suite_results == before.suite_results
        &&& after.group_results == before.group_results
        &&& published(
            before,
            after,
            seq![
                if before.group_results@[frame.group as int] is Some {
                    EventView::GroupReused { path, group: frame.group as int }
                } else {
                    EventView::GroupStarted { path, group: frame.group as int, members: group.members@.len() as int }
                },
            ],
        )
        &&& match before.group_results@[frame.group as int] {
            Some(_) => after.frames@ == rest,
            None => after.frames@ == rest.push(GroupFrame { started: true, ..frame }),
        }
    } else if frame.next < group.members@.len() {
        let advanced = GroupFrame { next: (frame.next + 1) as usize, ..frame };
        &&& after.suite_results == before.suite_results
        &&& after.group_results == before.group_results
        &&& match group.members@[frame.next as int] {
            GroupMemberRef::Group { id } => {
                &&& after.suite_run == before.suite_run
                &&& match first_where(plan.groups@, |g: crate::planning::PlannedGroup| g.id@ == id@) {
                    Some(g) => if before.group_results@[g] is Some {
                        &&& after.frames@ == rest.push(advanced)
                        &&& published(
                            before,
                            after,
                            seq![EventView::GroupReused { path: path.push((true, id@)), group: g }],
                        )
                    } else {
                        &&& after.events == before.events
                        &&& after.frames@.len() == rest.len() + 2
                        &&& after.frames@.drop_last() == rest.push(advanced)
                        &&& after.frames@.last().group == g
                        &&& path_view(after.frames@.last().path@) == path_view(frame.path@).push((true, id@))
                        &&& after.frames@.last().next == 0
                        &&& !after.frames@.last().started
                    },
                    None => after.frames@ == rest.push(advanced) && after.events == before.events,
                }
            },
            GroupMemberRef::Suite { id } => {
                &&& after.frames@ == rest.push(advanced)
                &&& after.events == before.events
                &&& match first_where(plan.suites@, |s: crate::planning::PlannedSuite| s.id@ == id@) {
                    Some(k) => after.suite_run matches Some(next) && next.suite == k && path_view(next.path@)
                        == path_view(frame.path@).push((false, id@)) && next.next == 0 && next.local@.len() == 0
                        && !next.started && next.pending is None,
                    None => after.suite_run == before.suite_run,
                }
            },
        }
    } else {
        &&& after.frames@ == rest
        &&& published(before, after, seq![EventView::GroupFinished { path, group: frame.group as int }])
        &&& after.suite_run == before.suite_run
        &&& after.suite_results == before.suite_results
        &&& after.group_results@.len() == before.group_results@.len()
        &&& forall|k: int|
            0 <= k < before.group_results@.len() && k != frame.group ==> after.group_results@[k]
                == before.group_results@[k]
        &&& after.group_results@[frame.group as int] matches Some(result) && group_result_of(
            result,
            group,
            plan.descendant_check_executions@[frame.group as int]@,
            plan.check_executions@,
            before.results@,
        )
    }
}

/// One step of a run: direct checks first, then the running suite, then
/// the innermost group; with none left the run is finished.
pub open spec fn execution_step(
    v: ValidatedConfig,
    plan: ValidationPlan,
    tools: Seq<(String, Status)>,
    cancelled: bool,
    output: Option<ProcessOutput>,
    before: Execution,
    after: Execution,
    r: ExecutionStep,
) -> bool {
    if before.direct is Some {
        direct_transition(v, plan, tools, cancelled, output, before, after, r)
    } else if before.suite_run is Some {
        suite_transition(v, plan, tools, cancelled, output, before, after, r)
    } else if before.frames@.len() > 0 {
        &&& r is Continue
        &&& group_transition(plan, before, after)
    } else {
        &&& r is Finished
        &&& after == before
    }
}

/// The result of suite `s` is stored and no run of it is under way.
pub open spec fn suite_settled(e: Execution, s: int) -> bool {
    &&& 0 <= s < e.suite_results@.len()
    &&& e.suite_results@[s] is Some
    &&& !(e.suite_run matches Some(run) && run.suite == s && run.started)
}

/// The result of group `g` is stored and no walk of it is under way.
pub open spec fn group_settled(e: Execution, g: int) -> bool {
    &&& 0 <= g < e.group_results@.len()
    &&& e.group_results@[g] is Some
    &&& forall|i: int| 0 <= i < e.frames@.len() && (#[trigger] e.frames@[i]).group == g ==> !e.frames@[i].started
}

/// A shared suite runs once per validation run: once its result is stored,
/// every step keeps that result and starts no run of the suite again.
pub proof fn lemma_settled_suite_stays(
    v: ValidatedConfig,
    plan: ValidationPlan,
    tools: Seq<(String, Status)>,
    cancelled: bool,
    output: Option<ProcessOutput>,
    before: Execution,
    after: Execution,
    r: ExecutionStep,
    s: int,
)
    requires
        before.wf(v, plan),
        execution_step(v, plan, tools, cancelled, output, before, after, r),
        suite_settled(before, s),
    ensures
        suite_settled(after, s),
        after.suite_results@[s] == before.suite_results@[s],
{
}

/// A shared group runs once per validation run: once its result is stored,
/// every step keeps that result and starts no walk of the group again.
pub proof fn lemma_settled_group_stays(
    v: ValidatedConfig,
    plan: ValidationPlan,
    tools: Seq<(String, Status)>,
    cancelled: bool,
    output: Option<ProcessOutput>,
    before: Execution,
    after: Execution,
    r: ExecutionStep,
    g: int,
)
    requires
        before.wf(v, plan),
        execution_step(v, plan, tools, cancelled, output, before, after, r),
        group_settled(before, g),
    ensures
        group_settled(after, g),
        after.group_results@[g] == before.group_results@[g],
{
    if before.direct is None && before.suite_run is None && before.frames@.len() > 0 {
        let n = before.frames@.len();
        let frame = before.frames@[n - 1];
        let rest = before.frames@.drop_last();
        assert(frame == before.frames@.last());
        assert forall|i: int| 0 <= i < rest.len() && (#[trigger] rest[i]).group == g implies !rest[i].started by {
            assert(rest[i] == before.frames@[i]);
        }
        if frame.started {
            assert(frame.group != g);
        }
        let group = plan.groups@[frame.group as int];
        let advanced = GroupFrame { next: (frame.next + 1) as usize, ..frame };
        if !frame.started {
            match before.group_results@[frame.group as int] {
                Some(_) => {
                    assert(after.frames@ == rest);
                },
                None => {
                    assert(frame.group != g);
                    let pushed = GroupFrame { started: true, ..frame };
                    assert(after.frames@ == rest.push(pushed));
                    assert forall|i: int| 0 <= i < after.frames@.len() && (#[trigger] after.frames@[i]).group == g implies !after.frames@[i].started by {
                        if i < rest.len() {
                            assert(after.frames@[i] == rest[i]);
                        }
                    }
                },
            }
        } else if frame.next < group.members@.len() {
            assert(frame.group != g);
            match group.members@[frame.next as int] {
                GroupMemberRef::Group { id } => {
                    match first_where(plan.groups@, |x: crate::planning::PlannedGroup| x.id@ == id@) {
                        Some(h) => if before.group_results@[h] is Some {
                            assert forall|i: int| 0 <= i < after.frames@.len() && (#[trigger] after.frames@[i]).group == g implies !after.frames@[i].started by {
                                if i < rest.len() {
                                    assert(after.frames@[i] == rest[i]);
                                }
                            }
                        } else {
                            assert(h != g);
                            assert forall|i: int| 0 <= i < after.frames@.len() && (#[trigger] after.frames@[i]).group == g implies !after.frames@[i].started by {
                                if i < rest.len() {
                                    assert(after.frames@.drop_last()[i] == rest[i]);
                                } else if i == rest.len() {
                                    assert(after.frames@.drop_last()[i] == advanced);
                                }
                            }
                        },
                        None => {
                            assert forall|i: int| 0 <= i < after.frames@.len() && (#[trigger] after.frames@[i]).group == g implies !after.frames@[i].started by {
                                if i < rest.len() {
                                    assert(after.frames@[i] == rest[i]);
                                }
                            }
                        },
                    }
                },
                GroupMemberRef::Suite { .. } => {
                    assert forall|i: int| 0 <= i < after.frames@.len() && (#[trigger] after.frames@[i]).group == g implies !after.frames@[i].started by {
                        if i < rest.len() {
                            assert(after.frames@[i] == rest[i]);
                        }
                    }
                },
            }
        } else {
            assert(frame.group != g);
            assert(after.frames@ == rest);
        }
    }
}

fn nones<T>(n: usize) -> (r: Vec<Option<T>>)
    ensures
        r@.len() == n,
        forall|i: int| 0 <= i < n ==> r@[i] is None,
{
    let mut r: Vec<Option<T>> = Vec::new();
    let mut i: usize = 0;
    while i < n
        invariant
            i <= n,
            r@.len() == i,
            forall|k: int| 0 <= k < i ==> r@[k] is None,
        decreases n - i,
    {
        r.push(None);
        i = i + 1;
    }
    r
}

/// The kind and identifier of each node of a membership path.
pub open spec fn path_view(path: Seq<ExecutionNodeRef>) -> Seq<(bool, Seq<char>)> {
    Seq::new(path.len(), |i: int| (path[i] is Group, crate::planning::node_id(path[i])))
}

fn copy_node(node: &ExecutionNodeRef) -> (r: ExecutionNodeRef)
    ensures
        crate::planning::node_id(r) == crate::planning::node_id(*node),
        (r is Group) == (*node is Group),
{
    match node {
        ExecutionNodeRef::Group { id } => ExecutionNodeRef::Group { id: owned(id.as_str()) },
        ExecutionNodeRef::Suite { id } => ExecutionNodeRef::Suite { id: owned(id.as_str()) },
    }
}

fn extend_path(path: &Vec<ExecutionNodeRef>, node: ExecutionNodeRef) -> (r: Vec<ExecutionNodeRef>)
    ensures
        path_view(r@) == path_view(path@).push((node is Group, crate::planning::node_id(node))),
{
    let mut r: Vec<ExecutionNodeRef> = Vec::new();
    let mut i: usize = 0;
    while i < path.len()
        invariant
            i <= path@.len(),
            path_view(r@) == path_view(path@).take(i as int),
        decreases path@.len() - i,
    {
        let ghost before = r@;
        r.push(copy_node(&path[i]));
        assert(path_view(r@) =~= path_view(before).push(path_view(path@)[i as int]));
        assert(path_view(path@).take(i + 1) =~= path_view(path@).take(i as int).push(path_view(path@)[i as int]));
        i = i + 1;
    }
    let ghost before = r@;
    let ghost last = (node is Group, crate::planning::node_id(node));
    r.push(node);
    assert(path_view(r@) =~= path_view(before).push(last));
    assert(path_view(path@).take(path@.len() as int) =~= path_view(path@));
    r
}

fn copy_path(path: &Vec<ExecutionNodeRef>) -> (r: Vec<ExecutionNodeRef>)
    ensures
        path_view(r@) == path_view(path@),
{
    let mut r: Vec<ExecutionNodeRef> = Vec::new();
    let mut i: usize = 0;
    while i < path.len()
        invariant
            i <= path@.len(),
            path_view(r@) == path_view(path@).take(i as int),
        decreases path@.len() - i,
    {
        let ghost before = r@;
        r.push(copy_node(&path[i]));
        assert(path_view(r@) =~= path_view(before).push(path_view(path@)[i as int]));
        assert(path_view(path@).take(i + 1) =~= path_view(path@).take(i as int).push(path_view(path@)[i as int]));
        i = i + 1;
    }
    assert(path_view(path@).take(path@.len() as int) =~= path_view(path@));
    r
}

fn copy_result(result: &CheckExecutionResult) -> (r: CheckExecutionResult)
    ensures
        r.status == result.status,
        r.check_id@ == result.check_id@,
        same_result(r, *result),
{
    CheckExecutionResult {
        check_id: owned(result.check_id.as_str()),
        context: match &result.context {
            CheckContext::Suite { suite_id } => CheckContext::Suite { suite_id: owned(suite_id.as_str()) },
            CheckContext::Direct => CheckContext::Direct,
        },
        label: owned(result.label.as_str()),
        description: owned(result.description.as_str()),
        argv: crate::config::validation::clone_strings(&result.argv),
        status: result.status,
        exit_code: result.exit_code,
        duration_ms: result.duration_ms,
        timeout_seconds: result.timeout_seconds,
        timed_out: result.timed_out,
        stdout_truncated: result.stdout_truncated,
        stderr_truncated: result.stderr_truncated,
        stdout: owned(result.stdout.as_str()),
        stderr: owned(result.stderr.as_str()),
        reason: match &result.reason {
            Some(reason) => Some(owned(reason.as_str())),
            None => None,
        },
    }
}

/// The executable of the tool a declared check runs with.
fn check_program(v: &ValidatedConfig, p: usize) -> (r: String)
    requires
        v.wf(),
        p < v.checked.config.checks@.len(),
    ensures
        r@ == program_of(v.checked, v.checked.config.checks@[p as int].id@),
{
    proof {
        lemma_check_tools_declared(v.checked, p as int);
    }
    proof {
        let checks = v.checked.config.checks@;
        assert(keys_of(checks)[p as int] == checks[p as int].id@);
        let e = entry_of(checks, checks[p as int].id@);
        crate::config::validation::lemma_unique_position(checks, e, p as int);
    }
    match v.checked.tool_position(v.checked.config.checks[p].tool_id.as_str()) {
        Some(t) => owned(v.checked.config.tools[t].program.as_str()),
        None => {
            proof {
                assert(false);
            }
            String::new()
        },
    }
}

/// The command line of a check: its executable, then its arguments.
fn command_line(program: &str, args: &Vec<String>) -> (r: Vec<String>)
    ensures
        views(r@) == seq![program@] + views(args@),
{
    let mut r: Vec<String> = Vec::new();
    r.push(owned(program));
    extend_strings(&mut r, args);
    assert(views(r@) =~= seq![program@] + views(args@));
    r
}

impl Execution {
        /// Publishes one event.
    fn publish(&mut self, event: ExecutionEvent)
        ensures
            final(self).events@ == old(self).events@.push(event),
            events_view(final(self).events@) == events_view(old(self).events@) + seq![event_view(event)],
            final(self).frames == old(self).frames,
            final(self).suite_run == old(self).suite_run,
            final(self).direct == old(self).direct,
            final(self).results == old(self).results,
            final(self).ordered == old(self).ordered,
            final(self).group_results == old(self).group_results,
            final(self).suite_results == old(self).suite_results,
    {
        let ghost before = self.events@;
        self.events.push(event);
        assert(events_view(self.events@) =~= events_view(before) + seq![event_view(event)]);
    }

/// Prepares execution of a plan.
    pub fn new(v: &ValidatedConfig, plan: &ValidationPlan) -> (r: Self)
        requires
            plan.wf(),
        ensures
            r.wf(*v, *plan),
            !r.awaiting(),
            r.ordered@.len() == 0,
            r.events@.len() == 0,
            crate::execution::completion::walks_settled(*plan, r),
            crate::execution::termination::frames_chain(*plan, r),
            crate::execution::completion::direct_settled(*v, *plan, r),
            forall|k: int| 0 <= k < r.results@.len() ==> r.results@[k] is None,
            forall|k: int| 0 <= k < r.group_results@.len() ==> r.group_results@[k] is None,
            forall|k: int| 0 <= k < r.suite_results@.len() ==> r.suite_results@[k] is None,
            match plan.selection {
                ValidationSelection::Group { id } => {
                    &&& r.suite_run is None
                    &&& r.direct is None
                    &&& match first_where(plan.groups@, |g: crate::planning::PlannedGroup| g.id@ == id@) {
                        Some(g) => r.frames@.len() == 1 && r.frames@[0].group == g && path_view(r.frames@[0].path@)
                            == seq![(true, id@)] && r.frames@[0].next == 0 && !r.frames@[0].started,
                        None => r.frames@.len() == 0,
                    }
                },
                ValidationSelection::Suite { id } => {
                    &&& r.frames@.len() == 0
                    &&& r.direct is None
                    &&& match first_where(plan.suites@, |s: crate::planning::PlannedSuite| s.id@ == id@) {
                        Some(k) => r.suite_run matches Some(run) && run.suite == k && path_view(run.path@) == seq![
                            (false, id@),
                        ] && run.next == 0 && run.local@.len() == 0 && !run.started && run.pending is None,
                        None => r.suite_run is None,
                    }
                },
                ValidationSelection::Check { .. } => {
                    &&& r.frames@.len() == 0
                    &&& r.suite_run is None
                    &&& r.direct matches Some(run) && run.next == 0 && run.local@.len() == 0 && run.pending is None
                },
            },
    {
        let mut frames: Vec<GroupFrame> = Vec::new();
        let mut suite_run: Option<SuiteRun> = None;
        let mut direct: Option<DirectRun> = None;
        match &plan.selection {
            ValidationSelection::Group { id } => match crate::inspection::planned_group_at(plan, id.as_str()) {
                Some(g) => {
                    let mut path: Vec<ExecutionNodeRef> = Vec::new();
                    path.push(ExecutionNodeRef::Group { id: owned(id.as_str()) });
                    assert(path_view(path@) =~= seq![(true, id@)]);
                    frames.push(GroupFrame { group: g, path, next: 0, started: false });
                },
                None => {},
            },
            ValidationSelection::Suite { id } => match crate::inspection::planned_suite_at(plan, id.as_str()) {
                Some(s) => {
                    let mut path: Vec<ExecutionNodeRef> = Vec::new();
                    path.push(ExecutionNodeRef::Suite { id: owned(id.as_str()) });
                    assert(path_view(path@) =~= seq![(false, id@)]);
                    suite_run = Some(SuiteRun { suite: s, path, next: 0, local: Vec::new(), started: false, pending: None });
                },
                None => {},
            },
            ValidationSelection::Check { .. } => {
                direct = Some(DirectRun { next: 0, local: Vec::new(), pending: None });
            },
        }
        let r = Execution {
            frames,
            suite_run,
            direct,
            results: nones(plan.check_executions.len()),
            ordered: Vec::new(),
            events: Vec::new(),
            group_results: nones(plan.groups.len()),
            suite_results: nones(plan.suites.len()),
        };
        assert(r.results@.len() == plan.check_executions@.len());
        assert(r.direct is Some ==> r.suite_run is None && r.frames@.len() == 0);
        assert(forall|i: int|
            0 <= i < r.frames@.len() ==> (#[trigger] r.frames@[i]).group < plan.groups@.len() && r.frames@[i].next
                <= plan.groups@[r.frames@[i].group as int].members@.len());
        assert(match r.suite_run {
            Some(run) => {
                &&& run.suite < plan.suites@.len()
                &&& run.next <= plan.suites@[run.suite as int].checks@.len()
            },
            None => true,
        });
        proof {
            crate::execution::completion::lemma_walks_start(*v, *plan, r);
        }
        r
    }

    /// Records a classified result.
    fn record(&mut self, v: &ValidatedConfig, plan: &ValidationPlan, execution: Option<usize>, result: CheckExecutionResult)
        requires
            old(self).wf(*v, *plan),
            execution matches Some(e) ==> e < old(self).results@.len(),
        ensures
            final(self).wf(*v, *plan),
            final(self).frames == old(self).frames,
            final(self).suite_run == old(self).suite_run,
            final(self).direct == old(self).direct,
            final(self).group_results == old(self).group_results,
            final(self).suite_results == old(self).suite_results,
            recorded(*old(self), *final(self), as_index(execution)),
            final(self).ordered@.last() == result,
            final(self).events == old(self).events,
    {
        match execution {
            Some(e) => {
                self.results.set(e, Some(copy_result(&result)));
            },
            None => {},
        }
        self.ordered.push(result);
    }

    fn direct_step(
        &mut self,
        v: &ValidatedConfig,
        plan: &ValidationPlan,
        tools: &Vec<(String, Status)>,
        cancelled: bool,
        output: Option<ProcessOutput>,
    ) -> (r: ExecutionStep)
        requires
            v.wf(),
            old(self).wf(*v, *plan),
            old(self).direct is Some,
            old(self).awaiting() ==> output is Some,
        ensures
            final(self).wf(*v, *plan),
            (r is Run) == final(self).awaiting(),
            !(r is Finished),
            direct_transition(*v, *plan, tools@, cancelled, output, *old(self), *final(self), r),
    {
        let mut run = match self.direct.take() {
            Some(run) => run,
            None => {
                return ExecutionStep::Continue;
            },
        };
        let total = plan.check_executions.len();
        match run.pending.take() {
            Some(pending) => {
                let output = match output {
                    Some(output) => output,
                    None => {
                        proof {
                            assert(false);
                        }
                        return ExecutionStep::Continue;
                    },
                };
                let check = &v.checked.config.checks[pending.check];
                let result = executed(check, CheckContext::Direct, pending.argv, output);
                set_status(&mut run.local, check.id.as_str(), result.status);
                let position = run.next + 1;
                let index = self.ordered.len();
                self.publish(ExecutionEvent::DirectCheckFinished { position, total, result: index });
                self.record(v, plan, pending.execution, result);
                run.next = run.next + 1;
                self.direct = Some(run);
                ExecutionStep::Continue
            },
            None => {
                if run.next >= total {
                    return ExecutionStep::Continue;
                }
                let execution = &plan.check_executions[run.next];
                match v.checked.check_position(execution.check_id.as_str()) {
                    None => {
                        run.next = run.next + 1;
                        self.direct = Some(run);
                        ExecutionStep::Continue
                    },
                    Some(p) => {
                        let check = &v.checked.config.checks[p];
                        proof {
                            assert(keys_of(v.checked.config.checks@)[p as int] == execution.check_id@);
                        }
                        let no_bindings: Vec<(String, crate::contracts::config::ParameterValue)> = Vec::new();
                        assert(no_bindings@ =~= Seq::empty());
                        let arguments = expand(check.args.as_slice(), &no_bindings);
                        let program = check_program(v, p);
                        let argv = command_line(program.as_str(), &arguments);
                        let ghost start_events = events_view(self.events@);
                        self.publish(ExecutionEvent::DirectCheckStarted { position: run.next + 1, total, check: p });
                        let no_dependencies: Vec<String> = Vec::new();
                        assert(views(no_dependencies@) =~= Seq::empty());
                        let ghost local = run.local@;
                        let gate = check_gate(check, &no_dependencies, &run.local, tools, cancelled);
                        proof {
                            crate::execution::checks::lemma_gate_unique(
                                *check,
                                Seq::empty(),
                                local,
                                tools@,
                                cancelled,
                                crate::execution::checks::verdict_view(gate),
                            );
                        }
                        match gate {
                            Some((status, reason)) => {
                                let result = nonexecuted(check, CheckContext::Direct, argv, status, reason);
                                set_status(&mut run.local, check.id.as_str(), status);
                                let position = run.next + 1;
                                let index = self.ordered.len();
                                self.publish(ExecutionEvent::DirectCheckFinished { position, total, result: index });
                                proof {
                                    lemma_published_twice(
                                        start_events,
                                        EventView::DirectCheckStarted {
                                            position: position as int,
                                            total: total as int,
                                            check: p as int,
                                        },
                                        EventView::DirectCheckFinished {
                                            position: position as int,
                                            total: total as int,
                                            result: index as int,
                                        },
                                    );
                                }
                                self.record(v, plan, Some(run.next), result);
                                run.next = run.next + 1;
                                self.direct = Some(run);
                                ExecutionStep::Continue
                            },
                            None => {
                                let request = CommandRequest {
                                    program,
                                    args: arguments,
                                    cwd: owned(v.checked.workspace_root.as_str()),
                                    timeout_seconds: check.timeout_seconds,
                                    output_limit: v.checked.config.output_limit_bytes,
                                };
                                run.pending = Some(PendingCheck { check: p, argv, execution: Some(run.next) });
                                self.direct = Some(run);
                                ExecutionStep::Run(request)
                            },
                        }
                    },
                }
            },
        }
    }

    fn suite_step(
        &mut self,
        v: &ValidatedConfig,
        plan: &ValidationPlan,
        tools: &Vec<(String, Status)>,
        cancelled: bool,
        output: Option<ProcessOutput>,
    ) -> (r: ExecutionStep)
        requires
            v.wf(),
            old(self).wf(*v, *plan),
            old(self).direct is None,
            old(self).suite_run is Some,
            old(self).awaiting() ==> output is Some,
        ensures
            final(self).wf(*v, *plan),
            (r is Run) == final(self).awaiting(),
            !(r is Finished),
            suite_transition(*v, *plan, tools@, cancelled, output, *old(self), *final(self), r),
    {
        let mut run = match self.suite_run.take() {
            Some(run) => run,
            None => {
                return ExecutionStep::Continue;
            },
        };
        let suite = &plan.suites[run.suite];
        let n = suite.checks.len();
        if !run.started {
            if self.suite_results[run.suite].is_some() {
                let path = copy_path(&run.path);
                self.publish(ExecutionEvent::SuiteReused { path, suite: run.suite });
                return ExecutionStep::Continue;
            }
            let path = copy_path(&run.path);
            self.publish(ExecutionEvent::SuiteStarted { path, suite: run.suite, checks: n });
            run.started = true;
            self.suite_run = Some(run);
            return ExecutionStep::Continue;
        }
        match run.pending.take() {
            Some(pending) => {
                let output = match output {
                    Some(output) => output,
                    None => {
                        proof {
                            assert(false);
                        }
                        return ExecutionStep::Continue;
                    },
                };
                let check = &v.checked.config.checks[pending.check];
                let context = CheckContext::Suite { suite_id: owned(suite.id.as_str()) };
                assert(crate::execution::checks::context_suite(context) == Some(suite.id@));
                let result = executed(check, context, pending.argv, output);
                set_status(&mut run.local, suite.checks[run.next].check_id.as_str(), result.status);
                let path = copy_path(&run.path);
                let index = self.ordered.len();
                self.publish(ExecutionEvent::CheckFinished { path, position: run.next + 1, total: n, result: index });
                self.record(v, plan, pending.execution, result);
                run.next = run.next + 1;
                self.suite_run = Some(run);
                ExecutionStep::Continue
            },
            None => {
                if run.next < n {
                    let invocation = &suite.checks[run.next];
                    match v.checked.check_position(invocation.check_id.as_str()) {
                        None => {
                            run.next = run.next + 1;
                            self.suite_run = Some(run);
                            ExecutionStep::Continue
                        },
                        Some(p) => {
                            let check = &v.checked.config.checks[p];
                            proof {
                                assert(keys_of(v.checked.config.checks@)[p as int] == invocation.check_id@);
                            }
                            let program = check_program(v, p);
                            let argv = command_line(program.as_str(), &invocation.arguments);
                            let path = copy_path(&run.path);
                            let ghost start_events = events_view(self.events@);
                            let ghost run_path = path_view(run.path@);
                            self.publish(ExecutionEvent::CheckStarted { path, position: run.next + 1, total: n, check: p });
                            let key = CheckExecutionKey::Suite {
                                suite_id: owned(suite.id.as_str()),
                                check_id: owned(invocation.check_id.as_str()),
                            };
                            let execution = find_execution(&plan.check_executions, &key);
                            let context = CheckContext::Suite { suite_id: owned(suite.id.as_str()) };
                            assert(crate::execution::checks::context_suite(context) == Some(suite.id@));
                            let ghost local = run.local@;
                            let gate = check_gate(check, &invocation.depends_on, &run.local, tools, cancelled);
                            proof {
                                crate::execution::checks::lemma_gate_unique(
                                    *check,
                                    views(invocation.depends_on@),
                                    local,
                                    tools@,
                                    cancelled,
                                    crate::execution::checks::verdict_view(gate),
                                );
                            }
                            match gate {
                                Some((status, reason)) => {
                                    let result = nonexecuted(check, context, argv, status, reason);
                                    set_status(&mut run.local, invocation.check_id.as_str(), status);
                                    let path = copy_path(&run.path);
                                    let index = self.ordered.len();
                                    self.publish(
                                        ExecutionEvent::CheckFinished { path, position: run.next + 1, total: n, result: index },
                                    );
                                    proof {
                                        lemma_published_twice(
                                            start_events,
                                            EventView::CheckStarted {
                                                path: run_path,
                                                position: run.next + 1,
                                                total: n as int,
                                                check: p as int,
                                            },
                                            EventView::CheckFinished {
                                                path: run_path,
                                                position: run.next + 1,
                                                total: n as int,
                                                result: index as int,
                                            },
                                        );
                                    }
                                    self.record(v, plan, execution, result);
                                    run.next = run.next + 1;
                                    self.suite_run = Some(run);
                                    ExecutionStep::Continue
                                },
                                None => {
                                    let request = CommandRequest {
                                        program,
                                        args: crate::config::validation::clone_strings(&invocation.arguments),
                                        cwd: owned(suite.working_directory.as_str()),
                                        timeout_seconds: check.timeout_seconds,
                                        output_limit: v.checked.config.output_limit_bytes,
                                    };
                                    run.pending = Some(PendingCheck { check: p, argv, execution });
                                    self.suite_run = Some(run);
                                    ExecutionStep::Run(request)
                                },
                            }
                        },
                    }
                } else {
                    let result = suite_result(
                        suite,
                        &plan.suite_check_executions[run.suite],
                        &plan.check_executions,
                        &self.results,
                    );
                    let path = copy_path(&run.path);
                    self.publish(ExecutionEvent::SuiteFinished { path, suite: run.suite });
                    self.suite_results.set(run.suite, Some(result));
                    ExecutionStep::Continue
                }
            },
        }
    }

    fn group_step(&mut self, v: &ValidatedConfig, plan: &ValidationPlan)
        requires
            old(self).wf(*v, *plan),
            old(self).direct is None,
            old(self).suite_run is None,
            old(self).frames@.len() > 0,
        ensures
            final(self).wf(*v, *plan),
            !final(self).awaiting(),
            group_transition(*plan, *old(self), *final(self)),
    {
        let ghost start = *self;
        let mut frame = match self.frames.pop() {
            Some(frame) => frame,
            None => {
                return;
            },
        };
        let group = &plan.groups[frame.group];
        let ghost rest = start.frames@.drop_last();
        assert(self.frames@ == rest);
        assert(frame == start.frames@.last());
        if !frame.started {
            if self.group_results[frame.group].is_some() {
                let path = copy_path(&frame.path);
                self.publish(ExecutionEvent::GroupReused { path, group: frame.group });
                return;
            }
            let path = copy_path(&frame.path);
            self.publish(ExecutionEvent::GroupStarted { path, group: frame.group, members: group.members.len() });
            frame.started = true;
            self.frames.push(frame);
            return;
        }
        if frame.next < group.members.len() {
            let member = &group.members[frame.next];
            frame.next = frame.next + 1;
            let ghost advanced = frame;
            match member {
                GroupMemberRef::Group { id } => {
                    let path = extend_path(&frame.path, ExecutionNodeRef::Group { id: owned(id.as_str()) });
                    self.frames.push(frame);
                    assert(self.frames@ == rest.push(advanced));
                    match crate::inspection::planned_group_at(plan, id.as_str()) {
                        Some(g) => {
                            if self.group_results[g].is_some() {
                                self.publish(ExecutionEvent::GroupReused { path, group: g });
                            } else {
                                let ghost before = self.frames@;
                                self.frames.push(GroupFrame { group: g, path, next: 0, started: false });
                                assert(self.frames@.drop_last() == before);
                            }
                        },
                        None => {},
                    }
                },
                GroupMemberRef::Suite { id } => {
                    let path = extend_path(&frame.path, ExecutionNodeRef::Suite { id: owned(id.as_str()) });
                    self.frames.push(frame);
                    assert(self.frames@ == rest.push(advanced));
                    match crate::inspection::planned_suite_at(plan, id.as_str()) {
                        Some(s) => {
                            self.suite_run = Some(
                                SuiteRun { suite: s, path, next: 0, local: Vec::new(), started: false, pending: None },
                            );
                        },
                        None => {},
                    }
                },
            }
        } else {
            let result = group_result(
                group,
                &plan.descendant_check_executions[frame.group],
                &plan.check_executions,
                &self.results,
            );
            let path = copy_path(&frame.path);
            self.publish(ExecutionEvent::GroupFinished { path, group: frame.group });
            self.group_results.set(frame.group, Some(result));
        }
    }

    /// Takes one decision of the run.
    ///
    /// `tools` holds the preflight status of each tool, `cancelled` whether
    /// cancellation was requested, and `output` the facts of the command the
    /// previous step asked for.
    pub fn step(
        &mut self,
        v: &ValidatedConfig,
        plan: &ValidationPlan,
        tools: &Vec<(String, Status)>,
        cancelled: bool,
        output: Option<ProcessOutput>,
    ) -> (r: ExecutionStep)
        requires
            v.wf(),
            old(self).wf(*v, *plan),
            old(self).awaiting() ==> output is Some,
        ensures
            final(self).wf(*v, *plan),
            (r is Run) == final(self).awaiting(),
            r is Finished ==> final(self).finished(),
            execution_step(*v, *plan, tools@, cancelled, output, *old(self), *final(self), r),
            crate::execution::completion::walks_settled(*plan, *old(self)) ==> crate::execution::completion::walks_settled(
                *plan,
                *final(self),
            ),
            crate::execution::completion::walks_settled(*plan, *old(self)) && r is Finished
                ==> crate::execution::completion::selection_settled(*plan, *final(self)),
            crate::execution::completion::direct_settled(*v, *plan, *old(self))
                ==> crate::execution::completion::direct_settled(*v, *plan, *final(self)),
            crate::execution::termination::frames_chain(*plan, *old(self))
                ==> crate::execution::termination::frames_chain(*plan, *final(self)),
            crate::execution::completion::walks_settled(*plan, *old(self)) && crate::execution::termination::frames_chain(
                *plan,
                *old(self),
            ) && crate::execution::termination::plan_acyclic(*plan) && !(r is Finished)
                ==> crate::execution::termination::lex_less(
                crate::execution::termination::run_measure(*plan, *final(self)),
                crate::execution::termination::run_measure(*plan, *old(self)),
            ),
            crate::execution::completion::direct_settled(*v, *plan, *old(self)) && r is Finished
                && plan.selection is Check ==> crate::execution::completion::declared_results(
                *v,
                *plan,
                *final(self),
                plan.check_executions@.len() as int,
            ),
    {
        let ghost before = *self;
        let r = self.dispatch_step(v, plan, tools, cancelled, output);
        proof {
            if crate::execution::completion::walks_settled(*plan, before) {
                crate::execution::completion::lemma_walks_stay_settled(*v, *plan, tools@, cancelled, output, before, *self, r);
                if r is Finished {
                    crate::execution::completion::lemma_finished_run_settled(*plan, *self);
                }
            }
            if crate::execution::termination::frames_chain(*plan, before) {
                crate::execution::termination::lemma_chain_kept(*v, *plan, tools@, cancelled, output, before, *self, r);
                if crate::execution::completion::walks_settled(*plan, before) && crate::execution::termination::plan_acyclic(*plan)
                    && !(r is Finished) {
                    crate::execution::termination::lemma_step_decreases(*v, *plan, tools@, cancelled, output, before, *self, r);
                }
            }
            if crate::execution::completion::direct_settled(*v, *plan, before) {
                crate::execution::completion::lemma_direct_stays_settled(*v, *plan, tools@, cancelled, output, before, *self, r);
                if r is Finished && plan.selection is Check {
                    crate::execution::completion::lemma_finished_direct_settled(*v, *plan, *self);
                }
            }
        }
        r
    }

    fn dispatch_step(
        &mut self,
        v: &ValidatedConfig,
        plan: &ValidationPlan,
        tools: &Vec<(String, Status)>,
        cancelled: bool,
        output: Option<ProcessOutput>,
    ) -> (r: ExecutionStep)
        requires
            v.wf(),
            old(self).wf(*v, *plan),
            old(self).awaiting() ==> output is Some,
        ensures
            final(self).wf(*v, *plan),
            (r is Run) == final(self).awaiting(),
            r is Finished ==> final(self).finished(),
            execution_step(*v, *plan, tools@, cancelled, output, *old(self), *final(self), r),
    {
        if self.direct.is_some() {
            return self.direct_step(v, plan, tools, cancelled, output);
        }
        if self.suite_run.is_some() {
            return self.suite_step(v, plan, tools, cancelled, output);
        }
        if self.frames.len() > 0 {
            self.group_step(v, plan);
            return ExecutionStep::Continue;
        }
        ExecutionStep::Finished
    }
}


/// What an event hands to a progress reporter: the callback, named by the
/// variant, and the values it receives.
pub enum EventSubject<'a> {
    /// `group_started`: the path, the planned group, its member count.
    GroupStarted { path: &'a [ExecutionNodeRef], group: &'a PlannedGroup, members: usize },
    /// `group_reused`: the path, the planned group, its stored result.
    GroupReused { path: &'a [ExecutionNodeRef], group: &'a PlannedGroup, result: &'a GroupResult },
    /// `group_finished`: the path, the planned group, its stored result.
    GroupFinished { path: &'a [ExecutionNodeRef], group: &'a PlannedGroup, result: &'a GroupResult },
    /// `suite_started`: the path, the planned suite, its check count.
    SuiteStarted { path: &'a [ExecutionNodeRef], suite: &'a PlannedSuite, checks: usize },
    /// `suite_reused`: the path, the planned suite, its stored result.
    SuiteReused { path: &'a [ExecutionNodeRef], suite: &'a PlannedSuite, result: &'a SuiteResult },
    /// `suite_finished`: the path, the planned suite, its stored result.
    SuiteFinished { path: &'a [ExecutionNodeRef], suite: &'a PlannedSuite, result: &'a SuiteResult },
    /// `check_started`: the path, the position and count, the declared check.
    CheckStarted { path: &'a [ExecutionNodeRef], position: usize, total: usize, check: &'a CheckConfig },
    /// `check_finished`: the path, the position and count, the classified result.
    CheckFinished { path: &'a [ExecutionNodeRef], position: usize, total: usize, result: &'a CheckExecutionResult },
    /// `direct_check_started`: the position and count, the declared check.
    DirectCheckStarted { position: usize, total: usize, check: &'a CheckConfig },
    /// `direct_check_finished`: the position and count, the classified result.
    DirectCheckFinished { position: usize, total: usize, result: &'a CheckExecutionResult },
}

/// The meaning of what an event hands to a progress reporter.
pub ghost enum SubjectView {
    GroupStarted { path: Seq<ExecutionNodeRef>, group: PlannedGroup, members: usize },
    GroupReused { path: Seq<ExecutionNodeRef>, group: PlannedGroup, result: GroupResult },
    GroupFinished { path: Seq<ExecutionNodeRef>, group: PlannedGroup, result: GroupResult },
    SuiteStarted { path: Seq<ExecutionNodeRef>, suite: PlannedSuite, checks: usize },
    SuiteReused { path: Seq<ExecutionNodeRef>, suite: PlannedSuite, result: SuiteResult },
    SuiteFinished { path: Seq<ExecutionNodeRef>, suite: PlannedSuite, result: SuiteResult },
    CheckStarted { path: Seq<ExecutionNodeRef>, position: usize, total: usize, check: CheckConfig },
    CheckFinished { path: Seq<ExecutionNodeRef>, position: usize, total: usize, result: CheckExecutionResult },
    DirectCheckStarted { position: usize, total: usize, check: CheckConfig },
    DirectCheckFinished { position: usize, total: usize, result: CheckExecutionResult },
}

/// The meaning of an event subject.
pub open spec fn subject_view(s: EventSubject) -> SubjectView {
    match s {
        EventSubject::GroupStarted { path, group, members } => SubjectView::GroupStarted { path: path@, group: *group, members },
        EventSubject::GroupReused { path, group, result } => SubjectView::GroupReused { path: path@, group: *group, result: *result },
        EventSubject::GroupFinished { path, group, result } => SubjectView::GroupFinished { path: path@, group: *group, result: *result },
        EventSubject::SuiteStarted { path, suite, checks } => SubjectView::SuiteStarted { path: path@, suite: *suite, checks },
        EventSubject::SuiteReused { path, suite, result } => SubjectView::SuiteReused { path: path@, suite: *suite, result: *result },
        EventSubject::SuiteFinished { path, suite, result } => SubjectView::SuiteFinished { path: path@, suite: *suite, result: *result },
        EventSubject::CheckStarted { path, position, total, check } => SubjectView::CheckStarted { path: path@, position, total, check: *check },
        EventSubject::CheckFinished { path, position, total, result } => SubjectView::CheckFinished { path: path@, position, total, result: *result },
        EventSubject::DirectCheckStarted { position, total, check } => SubjectView::DirectCheckStarted { position, total, check: *check },
        EventSubject::DirectCheckFinished { position, total, result } => SubjectView::DirectCheckFinished { position, total, result: *result },
    }
}

/// What `event` of `execution` hands to a progress reporter: the event's
/// path and counts, with the planned group or suite at its position, the
/// stored group or suite result, the declared check, or the classified
/// result it names; nothing where a position names nothing.
pub open spec fn event_subject_spec(v: ValidatedConfig, plan: ValidationPlan, e: Execution, event: ExecutionEvent) -> Option<SubjectView> {
    match event {
        ExecutionEvent::GroupStarted { path, group, members } => if group < plan.groups@.len() {
            Some(SubjectView::GroupStarted { path: path@, group: plan.groups@[group as int], members })
        } else {
            None
        },
        ExecutionEvent::GroupReused { path, group } => if group < plan.groups@.len() && group < e.group_results@.len()
            && e.group_results@[group as int] is Some {
            Some(SubjectView::GroupReused { path: path@, group: plan.groups@[group as int], result: e.group_results@[group as int]->0 })
        } else {
            None
        },
        ExecutionEvent::GroupFinished { path, group } => if group < plan.groups@.len() && group < e.group_results@.len()
            && e.group_results@[group as int] is Some {
            Some(SubjectView::GroupFinished { path: path@, group: plan.groups@[group as int], result: e.group_results@[group as int]->0 })
        } else {
            None
        },
        ExecutionEvent::SuiteStarted { path, suite, checks } => if suite < plan.suites@.len() {
            Some(SubjectView::SuiteStarted { path: path@, suite: plan.suites@[suite as int], checks })
        } else {
            None
        },
        ExecutionEvent::SuiteReused { path, suite } => if suite < plan.suites@.len() && suite < e.suite_results@.len()
            && e.suite_results@[suite as int] is Some {
            Some(SubjectView::SuiteReused { path: path@, suite: plan.suites@[suite as int], result: e.suite_results@[suite as int]->0 })
        } else {
            None
        },
        ExecutionEvent::SuiteFinished { path, suite } => if suite < plan.suites@.len() && suite < e.suite_results@.len()
            && e.suite_results@[suite as int] is Some {
            Some(SubjectView::SuiteFinished { path: path@, suite: plan.suites@[suite as int], result: e.suite_results@[suite as int]->0 })
        } else {
            None
        },
        ExecutionEvent::CheckStarted { path, position, total, check } => if check < v.checked.config.checks@.len() {
            Some(SubjectView::CheckStarted { path: path@, position, total, check: v.checked.config.checks@[check as int] })
        } else {
            None
        },
        ExecutionEvent::CheckFinished { path, position, total, result } => if result < e.ordered@.len() {
            Some(SubjectView::CheckFinished { path: path@, position, total, result: e.ordered@[result as int] })
        } else {
            None
        },
        ExecutionEvent::DirectCheckStarted { position, total, check } => if check < v.checked.config.checks@.len() {
            Some(SubjectView::DirectCheckStarted { position, total, check: v.checked.config.checks@[check as int] })
        } else {
            None
        },
        ExecutionEvent::DirectCheckFinished { position, total, result } => if result < e.ordered@.len() {
            Some(SubjectView::DirectCheckFinished { position, total, result: e.ordered@[result as int] })
        } else {
            None
        },
    }
}

/// Finds what `event` of `execution` hands to a progress reporter.
pub fn event_subject<'a>(
    v: &'a ValidatedConfig,
    plan: &'a ValidationPlan,
    execution: &'a Execution,
    event: &'a ExecutionEvent,
) -> (r: Option<EventSubject<'a>>)
    ensures
        match r {
            Some(s) => event_subject_spec(*v, *plan, *execution, *event) == Some(subject_view(s)),
            None => event_subject_spec(*v, *plan, *execution, *event) is None,
        },
{
    match event {
        ExecutionEvent::GroupStarted { path, group, members } => if *group < plan.groups.len() {
            Some(EventSubject::GroupStarted { path: path.as_slice(), group: &plan.groups[*group], members: *members })
        } else {
            None
        },
        ExecutionEvent::GroupReused { path, group } => if *group < plan.groups.len() && *group < execution.group_results.len() {
            match &execution.group_results[*group] {
                Some(result) => Some(EventSubject::GroupReused { path: path.as_slice(), group: &plan.groups[*group], result }),
                None => None,
            }
        } else {
            None
        },
        ExecutionEvent::GroupFinished { path, group } => if *group < plan.groups.len() && *group < execution.group_results.len() {
            match &execution.group_results[*group] {
                Some(result) => Some(EventSubject::GroupFinished { path: path.as_slice(), group: &plan.groups[*group], result }),
                None => None,
            }
        } else {
            None
        },
        ExecutionEvent::SuiteStarted { path, suite, checks } => if *suite < plan.suites.len() {
            Some(EventSubject::SuiteStarted { path: path.as_slice(), suite: &plan.suites[*suite], checks: *checks })
        } else {
            None
        },
        ExecutionEvent::SuiteReused { path, suite } => if *suite < plan.suites.len() && *suite < execution.suite_results.len() {
            match &execution.suite_results[*suite] {
                Some(result) => Some(EventSubject::SuiteReused { path: path.as_slice(), suite: &plan.suites[*suite], result }),
                None => None,
            }
        } else {
            None
        },
        ExecutionEvent::SuiteFinished { path, suite } => if *suite < plan.suites.len() && *suite < execution.suite_results.len() {
            match &execution.suite_results[*suite] {
                Some(result) => Some(EventSubject::SuiteFinished { path: path.as_slice(), suite: &plan.suites[*suite], result }),
                None => None,
            }
        } else {
            None
        },
        ExecutionEvent::CheckStarted { path, position, total, check } => if *check < v.checked.config.checks.len() {
            Some(EventSubject::CheckStarted {
                path: path.as_slice(),
                position: *position,
                total: *total,
                check: &v.checked.config.checks[*check],
            })
        } else {
            None
        },
        ExecutionEvent::CheckFinished { path, position, total, result } => if *result < execution.ordered.len() {
            Some(EventSubject::CheckFinished {
                path: path.as_slice(),
                position: *position,
                total: *total,
                result: &execution.ordered[*result],
            })
        } else {
            None
        },
        ExecutionEvent::DirectCheckStarted { position, total, check } => if *check < v.checked.config.checks.len() {
            Some(EventSubject::DirectCheckStarted { position: *position, total: *total, check: &v.checked.config.checks[*check] })
        } else {
            None
        },
        ExecutionEvent::DirectCheckFinished { position, total, result } => if *result < execution.ordered.len() {
            Some(EventSubject::DirectCheckFinished { position: *position, total: *total, result: &execution.ordered[*result] })
        } else {
            None
        },
    }
}

/// Hands an event subject to the reporter callback its variant names,
/// with the values it holds; a missing subject calls nothing.
pub fn publish_subject<P: ProgressReporter>(progress: &mut P, subject: Option<EventSubject>) {
    match subject {
        Some(EventSubject::GroupStarted { path, group, members }) => progress.group_started(path, group, members),
        Some(EventSubject::GroupReused { path, group, result }) => progress.group_reused(path, group, result),
        Some(EventSubject::GroupFinished { path, group, result }) => progress.group_finished(path, group, result),
        Some(EventSubject::SuiteStarted { path, suite, checks }) => progress.suite_started(path, suite, checks),
        Some(EventSubject::SuiteReused { path, suite, result }) => progress.suite_reused(path, suite, result),
        Some(EventSubject::SuiteFinished { path, suite, result }) => progress.suite_finished(path, suite, result),
        Some(EventSubject::CheckStarted { path, position, total, check }) => progress.check_started(path, position, total, check),
        Some(EventSubject::CheckFinished { path, position, total, result }) => progress.check_finished(path, position, total, result),
        Some(EventSubject::DirectCheckStarted { position, total, check }) => progress.direct_check_started(position, total, check),
        Some(EventSubject::DirectCheckFinished { position, total, result }) => progress.direct_check_finished(position, total, result),
        None => {},
    }
}

/// Hands an event of `execution` to a progress reporter: the subject that
/// [`event_subject`] finds, to the callback it names.
pub fn publish_event<P: ProgressReporter>(
    progress: &mut P,
    v: &ValidatedConfig,
    plan: &ValidationPlan,
    execution: &Execution,
    event: &ExecutionEvent,
) {
    publish_subject(progress, event_subject(v, plan, execution, event));
}

} // verus!
