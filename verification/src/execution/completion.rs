//! What a run has settled at every step, and what a finished run holds.

use vstd::prelude::*;
use crate::config::validation::ValidatedConfig;
use crate::contracts::config::GroupMemberRef;
use crate::contracts::report::{Status, ValidationSelection};
use crate::execution::ProcessOutput;
use crate::execution::run::{execution_step, Execution, ExecutionStep};
use crate::planning::ValidationPlan;
use crate::reporting::result::{first_where, lemma_first_where_found};
use crate::text::keys_of;

verus! {

/// The planned group or suite that member `j` of planned group `g` names
/// has its result stored in `e`, or the member names nothing planned.
pub open spec fn member_done(plan: ValidationPlan, e: Execution, g: int, j: int) -> bool {
    match plan.groups@[g].members@[j] {
        GroupMemberRef::Group { id } => match first_where(plan.groups@, |g: crate::planning::PlannedGroup| g.id@ == id@) {
            Some(h) => e.group_results@[h] is Some,
            None => true,
        },
        GroupMemberRef::Suite { id } => match first_where(plan.suites@, |s: crate::planning::PlannedSuite| s.id@ == id@) {
            Some(k) => e.suite_results@[k] is Some,
            None => true,
        },
    }
}

/// Member `j` of the group that frame `i` walks is settled in `e`.
pub open spec fn frame_member_done(plan: ValidationPlan, e: Execution, i: int, j: int) -> bool {
    member_done(plan, e, e.frames@[i].group as int, j)
}

/// Member `j` of the group that frame `i` walks is being run: the frame
/// above walks that group, or, above the innermost frame, the suite run
/// runs that suite.
pub open spec fn member_running(plan: ValidationPlan, e: Execution, i: int, j: int) -> bool {
    match plan.groups@[e.frames@[i].group as int].members@[j] {
        GroupMemberRef::Group { id } => match first_where(plan.groups@, |g: crate::planning::PlannedGroup| g.id@ == id@) {
            Some(h) => i + 1 < e.frames@.len() && e.frames@[i + 1].group == h,
            None => false,
        },
        GroupMemberRef::Suite { id } => match first_where(plan.suites@, |s: crate::planning::PlannedSuite| s.id@ == id@) {
            Some(k) => i + 1 == e.frames@.len() && (e.suite_run matches Some(run) && run.suite == k),
            None => false,
        },
    }
}

/// The selected group or suite is being run or has its result.
pub open spec fn selection_under_way(plan: ValidationPlan, e: Execution) -> bool {
    match plan.selection {
        ValidationSelection::Group { id } => match first_where(plan.groups@, |g: crate::planning::PlannedGroup| g.id@ == id@) {
            Some(g) => (e.frames@.len() > 0 && e.frames@[0].group == g) || e.group_results@[g] is Some,
            None => true,
        },
        ValidationSelection::Suite { id } => match first_where(plan.suites@, |s: crate::planning::PlannedSuite| s.id@ == id@) {
            Some(k) => (e.suite_run matches Some(run) && run.suite == k) || e.suite_results@[k] is Some,
            None => true,
        },
        ValidationSelection::Check { .. } => true,
    }
}

/// The selected group or suite has its result.
pub open spec fn selection_settled(plan: ValidationPlan, e: Execution) -> bool {
    match plan.selection {
        ValidationSelection::Group { id } => match first_where(plan.groups@, |g: crate::planning::PlannedGroup| g.id@ == id@) {
            Some(g) => e.group_results@[g] is Some,
            None => true,
        },
        ValidationSelection::Suite { id } => match first_where(plan.suites@, |s: crate::planning::PlannedSuite| s.id@ == id@) {
            Some(k) => e.suite_results@[k] is Some,
            None => true,
        },
        ValidationSelection::Check { .. } => true,
    }
}

/// Every stored group result comes after the results of all its members;
/// only the innermost walk may be unannounced, and then at its start; every
/// walk has settled the members it passed, but for the last one, which may
/// still be running; and the selection is under way or settled.
pub open spec fn walks_settled(plan: ValidationPlan, e: Execution) -> bool {
    &&& forall|g: int, j: int|
        0 <= g < e.group_results@.len() && e.group_results@[g] is Some && 0 <= j < plan.groups@[g].members@.len()
            ==> #[trigger] member_done(plan, e, g, j)
    &&& forall|i: int|
        0 <= i < e.frames@.len() ==> (#[trigger] e.frames@[i]).started || (i + 1 == e.frames@.len()
            && e.frames@[i].next == 0)
    &&& forall|i: int, j: int|
        0 <= i < e.frames@.len() && 0 <= j < e.frames@[i].next - 1 ==> #[trigger] frame_member_done(plan, e, i, j)
    &&& forall|i: int|
        0 <= i < e.frames@.len() && (#[trigger] e.frames@[i]).next > 0 ==> frame_member_done(
            plan,
            e,
            i,
            e.frames@[i].next - 1,
        ) || member_running(plan, e, i, e.frames@[i].next - 1)
    &&& selection_under_way(plan, e)
}

/// Stored results of `before` stay stored in `after`.
pub open spec fn results_kept(before: Execution, after: Execution) -> bool {
    &&& after.group_results@.len() == before.group_results@.len()
    &&& after.suite_results@.len() == before.suite_results@.len()
    &&& forall|h: int|
        0 <= h < before.group_results@.len() && before.group_results@[h] is Some ==> after.group_results@[h] is Some
    &&& forall|k: int|
        0 <= k < before.suite_results@.len() && before.suite_results@[k] is Some ==> after.suite_results@[k] is Some
}

proof fn lemma_done_kept(v: ValidatedConfig, plan: ValidationPlan, before: Execution, after: Execution, g: int, j: int)
    requires
        before.wf(v, plan),
        results_kept(before, after),
        0 <= g < plan.groups@.len(),
        0 <= j < plan.groups@[g].members@.len(),
        member_done(plan, before, g, j),
    ensures
        member_done(plan, after, g, j),
{
    match plan.groups@[g].members@[j] {
        GroupMemberRef::Group { id } => {
            lemma_first_where_found(plan.groups@, |g: crate::planning::PlannedGroup| g.id@ == id@);
        },
        GroupMemberRef::Suite { id } => {
            lemma_first_where_found(plan.suites@, |s: crate::planning::PlannedSuite| s.id@ == id@);
        },
    }
}

/// A new run has settled nothing yet and has its selection under way.
pub proof fn lemma_walks_start(v: ValidatedConfig, plan: ValidationPlan, e: Execution)
    requires
        e.wf(v, plan),
        forall|k: int| 0 <= k < e.group_results@.len() ==> e.group_results@[k] is None,
        e.frames@.len() <= 1,
        e.frames@.len() == 1 ==> e.frames@[0].next == 0,
        selection_under_way(plan, e),
    ensures
        walks_settled(plan, e),
{
}

/// Every step of a run keeps what it has settled: a stored group result
/// keeps the results of all its members, each walk keeps the members it
/// passed, and the selection stays under way until its result is stored.
#[verifier::rlimit(60)]
#[verifier::spinoff_prover]
pub proof fn lemma_walks_stay_settled(
    v: ValidatedConfig,
    plan: ValidationPlan,
    tools: Seq<(String, Status)>,
    cancelled: bool,
    output: Option<ProcessOutput>,
    before: Execution,
    after: Execution,
    r: ExecutionStep,
)
    requires
        before.wf(v, plan),
        after.wf(v, plan),
        execution_step(v, plan, tools, cancelled, output, before, after, r),
        walks_settled(plan, before),
    ensures
        walks_settled(plan, after),
{
    if before.direct is Some || before.suite_run is Some {
        lemma_suite_step_settled(v, plan, tools, cancelled, output, before, after, r);
    } else if before.frames@.len() > 0 {
        lemma_group_step_settled(v, plan, before, after);
    }
}

#[verifier::rlimit(60)]
proof fn lemma_suite_step_settled(
    v: ValidatedConfig,
    plan: ValidationPlan,
    tools: Seq<(String, Status)>,
    cancelled: bool,
    output: Option<ProcessOutput>,
    before: Execution,
    after: Execution,
    r: ExecutionStep,
)
    requires
        before.wf(v, plan),
        after.wf(v, plan),
        execution_step(v, plan, tools, cancelled, output, before, after, r),
        walks_settled(plan, before),
        before.direct is Some || before.suite_run is Some,
    ensures
        walks_settled(plan, after),
{
    assert(after.frames == before.frames);
    assert(after.group_results == before.group_results);
    let n = before.frames@.len() as int;
    // The suite run, if it stops, leaves the result of its suite stored.
    assert(before.suite_run matches Some(run) ==> (after.suite_run matches Some(next) && next.suite == run.suite)
        || after.suite_results@[run.suite as int] is Some);
    assert(results_kept(before, after));
    assert forall|g: int, j: int|
        0 <= g < after.group_results@.len() && after.group_results@[g] is Some && 0 <= j < plan.groups@[g].members@.len()
            implies #[trigger] member_done(plan, after, g, j) by {
        assert(member_done(plan, before, g, j));
        lemma_done_kept(v, plan, before, after, g, j);
    }
    assert forall|i: int, j: int| 0 <= i < after.frames@.len() && 0 <= j < after.frames@[i].next - 1 implies #[trigger] frame_member_done(
        plan,
        after,
        i,
        j,
    ) by {
        assert(frame_member_done(plan, before, i, j));
        lemma_done_kept(v, plan, before, after, before.frames@[i].group as int, j);
    }
    assert forall|i: int| 0 <= i < after.frames@.len() && (#[trigger] after.frames@[i]).next > 0 implies frame_member_done(
        plan,
        after,
        i,
        after.frames@[i].next - 1,
    ) || member_running(plan, after, i, after.frames@[i].next - 1) by {
        let f = before.frames@[i];
        let j = f.next - 1;
        assert(before.frames@[i] == after.frames@[i]);
        if frame_member_done(plan, before, i, j) {
            lemma_done_kept(v, plan, before, after, f.group as int, j);
        } else {
            assert(member_running(plan, before, i, j));
            match plan.groups@[f.group as int].members@[j] {
                GroupMemberRef::Group { id } => {},
                GroupMemberRef::Suite { id } => {
                    lemma_first_where_found(plan.suites@, |s: crate::planning::PlannedSuite| s.id@ == id@);
                },
            }
        }
    }
    match plan.selection {
        ValidationSelection::Suite { id } => {
            lemma_first_where_found(plan.suites@, |s: crate::planning::PlannedSuite| s.id@ == id@);
        },
        _ => {},
    }
}

#[verifier::rlimit(80)]
proof fn lemma_group_step_settled(v: ValidatedConfig, plan: ValidationPlan, before: Execution, after: Execution)
    requires
        before.wf(v, plan),
        after.wf(v, plan),
        before.direct is None,
        before.suite_run is None,
        before.frames@.len() > 0,
        crate::execution::run::group_transition(plan, before, after),
        walks_settled(plan, before),
    ensures
        walks_settled(plan, after),
{
    let n = before.frames@.len() as int;
    let frame = before.frames@[n - 1];
    let rest = before.frames@.drop_last();
    let group = plan.groups@[frame.group as int];
    assert(frame == before.frames@.last());
    assert(frame.group < plan.groups@.len());
    assert forall|i: int| 0 <= i < rest.len() implies #[trigger] rest[i] == before.frames@[i] by {}
    // The innermost walk has settled every member it passed: nothing runs above it.
    if frame.next > 0 {
        let j = frame.next - 1;
        assert(frame_member_done(plan, before, n - 1, j) || member_running(plan, before, n - 1, j));
        assert(!member_running(plan, before, n - 1, j));
    }
    assert forall|j: int| 0 <= j < frame.next implies #[trigger] member_done(plan, before, frame.group as int, j) by {
        if j < frame.next - 1 {
            assert(frame_member_done(plan, before, n - 1, j));
        } else {
            assert(frame_member_done(plan, before, n - 1, j));
        }
    }
    // Frames below the innermost one are started, and their last member runs or is settled.
    assert(n >= 2 ==> before.frames@[n - 2].started);
    if !frame.started {
        assert(frame.next == 0);
        match before.group_results@[frame.group as int] {
            Some(_) => {
                assert(after.frames@ == rest);
                assert(results_kept(before, after));
                assert forall|j: int| 0 <= j < group.members@.len() implies #[trigger] member_done(plan, after, frame.group as int, j) by {
                    assert(member_done(plan, before, frame.group as int, j));
                }
                lemma_pop_settled(v, plan, before, after);
            },
            None => {
                let pushed = crate::execution::run::GroupFrame { started: true, ..frame };
                assert(after.frames@ == rest.push(pushed));
                assert(after.frames@.drop_last() =~= rest);
                lemma_replace_top_settled(v, plan, before, after);
            },
        }
    } else if frame.next < group.members@.len() {
        lemma_advance_settled(v, plan, before, after);
    } else {
        assert(after.frames@ == rest);
        assert(results_kept(before, after));
        assert forall|j: int| 0 <= j < group.members@.len() implies #[trigger] member_done(plan, after, frame.group as int, j) by {
            assert(member_done(plan, before, frame.group as int, j));
            lemma_done_kept(v, plan, before, after, frame.group as int, j);
        }
        lemma_pop_settled(v, plan, before, after);
    }
}

/// The innermost frame leaves with its group's result stored; nothing else moves.
proof fn lemma_pop_settled(v: ValidatedConfig, plan: ValidationPlan, before: Execution, after: Execution)
    requires
        before.wf(v, plan),
        after.wf(v, plan),
        before.suite_run is None,
        after.suite_run is None,
        before.frames@.len() > 0,
        after.frames@ == before.frames@.drop_last(),
        walks_settled(plan, before),
        results_kept(before, after),
        after.group_results@[before.frames@.last().group as int] is Some,
        forall|k: int|
            0 <= k < after.group_results@.len() && after.group_results@[k] is Some && before.group_results@[k] is None
                ==> k == before.frames@.last().group,
        forall|j: int|
            0 <= j < plan.groups@[before.frames@.last().group as int].members@.len() ==> #[trigger] member_done(
                plan,
                after,
                before.frames@.last().group as int,
                j,
            ),
    ensures
        walks_settled(plan, after),
{
    let n = before.frames@.len() as int;
    let top = before.frames@.last();
    assert forall|i: int| 0 <= i < after.frames@.len() implies #[trigger] after.frames@[i] == before.frames@[i] by {}
    assert forall|g: int, j: int|
        0 <= g < after.group_results@.len() && after.group_results@[g] is Some && 0 <= j < plan.groups@[g].members@.len()
            implies #[trigger] member_done(plan, after, g, j) by {
        if g != top.group {
            assert(before.group_results@[g] is Some);
            assert(member_done(plan, before, g, j));
            lemma_done_kept(v, plan, before, after, g, j);
        }
    }
    assert forall|i: int| 0 <= i < after.frames@.len() implies (#[trigger] after.frames@[i]).started || (i + 1
        == after.frames@.len() && after.frames@[i].next == 0) by {
        assert(before.frames@[i].started || (i + 1 == n && before.frames@[i].next == 0));
    }
    assert forall|i: int, j: int| 0 <= i < after.frames@.len() && 0 <= j < after.frames@[i].next - 1 implies #[trigger] frame_member_done(
        plan,
        after,
        i,
        j,
    ) by {
        assert(frame_member_done(plan, before, i, j));
        lemma_done_kept(v, plan, before, after, before.frames@[i].group as int, j);
    }
    assert forall|i: int| 0 <= i < after.frames@.len() && (#[trigger] after.frames@[i]).next > 0 implies frame_member_done(
        plan,
        after,
        i,
        after.frames@[i].next - 1,
    ) || member_running(plan, after, i, after.frames@[i].next - 1) by {
        let f = before.frames@[i];
        let j = f.next - 1;
        assert(before.frames@[i].next > 0);
        if frame_member_done(plan, before, i, j) {
            lemma_done_kept(v, plan, before, after, f.group as int, j);
        } else {
            assert(member_running(plan, before, i, j));
            match plan.groups@[f.group as int].members@[j] {
                GroupMemberRef::Group { id } => {
                    lemma_first_where_found(plan.groups@, |g: crate::planning::PlannedGroup| g.id@ == id@);
                    if i + 1 == n - 1 {
                        assert(before.frames@[i + 1] == top);
                    }
                },
                GroupMemberRef::Suite { id } => {},
            }
        }
    }
    match plan.selection {
        ValidationSelection::Group { id } => {
            lemma_first_where_found(plan.groups@, |g: crate::planning::PlannedGroup| g.id@ == id@);
            if n == 1 {
                assert(before.frames@[0] == top);
            } else {
                assert(after.frames@[0] == before.frames@[0]);
            }
        },
        ValidationSelection::Suite { id } => {
            lemma_first_where_found(plan.suites@, |s: crate::planning::PlannedSuite| s.id@ == id@);
        },
        _ => {},
    }
}

/// The innermost frame is announced; nothing else moves.
proof fn lemma_replace_top_settled(v: ValidatedConfig, plan: ValidationPlan, before: Execution, after: Execution)
    requires
        before.wf(v, plan),
        after.wf(v, plan),
        before.frames@.len() > 0,
        after.frames@.len() == before.frames@.len(),
        after.frames@.drop_last() == before.frames@.drop_last(),
        after.frames@.last().group == before.frames@.last().group,
        after.frames@.last().started,
        after.frames@.last().next == 0,
        before.frames@.last().next == 0,
        after.suite_run == before.suite_run,
        after.group_results == before.group_results,
        after.suite_results == before.suite_results,
        walks_settled(plan, before),
    ensures
        walks_settled(plan, after),
{
    let n = before.frames@.len() as int;
    assert forall|i: int| 0 <= i < n - 1 implies #[trigger] after.frames@[i] == before.frames@[i] by {
        assert(after.frames@.drop_last()[i] == after.frames@[i]);
        assert(before.frames@.drop_last()[i] == before.frames@[i]);
    }
    assert(after.frames@[n - 1] == after.frames@.last());
    assert forall|g: int, j: int|
        0 <= g < after.group_results@.len() && after.group_results@[g] is Some && 0 <= j < plan.groups@[g].members@.len()
            implies #[trigger] member_done(plan, after, g, j) by {
        assert(member_done(plan, before, g, j));
    }
    assert forall|i: int| 0 <= i < after.frames@.len() implies (#[trigger] after.frames@[i]).started || (i + 1
        == after.frames@.len() && after.frames@[i].next == 0) by {
        if i < n - 1 {
            assert(before.frames@[i].started);
        }
    }
    assert forall|i: int, j: int| 0 <= i < after.frames@.len() && 0 <= j < after.frames@[i].next - 1 implies #[trigger] frame_member_done(
        plan,
        after,
        i,
        j,
    ) by {
        assert(frame_member_done(plan, before, i, j));
    }
    assert forall|i: int| 0 <= i < after.frames@.len() && (#[trigger] after.frames@[i]).next > 0 implies frame_member_done(
        plan,
        after,
        i,
        after.frames@[i].next - 1,
    ) || member_running(plan, after, i, after.frames@[i].next - 1) by {
        let j = before.frames@[i].next - 1;
        assert(before.frames@[i].next > 0);
        assert(frame_member_done(plan, before, i, j) || member_running(plan, before, i, j));
        if i + 1 == n - 1 {
            assert(before.frames@[i + 1].group == after.frames@[i + 1].group);
        }
    }
    match plan.selection {
        ValidationSelection::Group { id } => {
            if n == 1 {
                assert(before.frames@[0] == before.frames@.last());
            }
        },
        _ => {},
    }
}

/// The innermost walk passes its next member, entering it where it is a
/// group not yet run or a suite.
#[verifier::rlimit(80)]
proof fn lemma_advance_settled(v: ValidatedConfig, plan: ValidationPlan, before: Execution, after: Execution)
    requires
        before.wf(v, plan),
        after.wf(v, plan),
        before.direct is None,
        before.suite_run is None,
        before.frames@.len() > 0,
        before.frames@.last().started,
        before.frames@.last().next < plan.groups@[before.frames@.last().group as int].members@.len(),
        crate::execution::run::group_transition(plan, before, after),
        walks_settled(plan, before),
        forall|j: int|
            0 <= j < before.frames@.last().next ==> #[trigger] member_done(plan, before, before.frames@.last().group as int, j),
    ensures
        walks_settled(plan, after),
{
    let n = before.frames@.len() as int;
    let frame = before.frames@.last();
    let rest = before.frames@.drop_last();
    let group = plan.groups@[frame.group as int];
    let advanced = crate::execution::run::GroupFrame { next: (frame.next + 1) as usize, ..frame };
    let m = frame.next as int;
    assert(after.group_results == before.group_results);
    assert(after.suite_results == before.suite_results);
    assert(after.frames@.len() >= n);
    assert(after.frames@.subrange(0, n as int) == rest.push(advanced)) by {
        match group.members@[m] {
            GroupMemberRef::Group { id } => {
                match first_where(plan.groups@, |g: crate::planning::PlannedGroup| g.id@ == id@) {
                    Some(h) => if before.group_results@[h] is None {
                        assert(after.frames@.subrange(0, n as int) =~= after.frames@.drop_last());
                    } else {
                        assert(after.frames@.subrange(0, n as int) =~= after.frames@);
                    },
                    None => {
                        assert(after.frames@.subrange(0, n as int) =~= after.frames@);
                    },
                }
            },
            GroupMemberRef::Suite { .. } => {
                assert(after.frames@.subrange(0, n as int) =~= after.frames@);
            },
        }
    }
    assert forall|i: int| 0 <= i < n - 1 implies #[trigger] after.frames@[i] == before.frames@[i] by {
        assert(after.frames@.subrange(0, n as int)[i] == after.frames@[i]);
        assert(rest[i] == before.frames@[i]);
    }
    assert(after.frames@[n - 1] == advanced) by {
        assert(after.frames@.subrange(0, n as int)[n - 1] == after.frames@[n - 1]);
    }
    // The member just passed runs above the walk or is settled.
    assert(frame_member_done(plan, after, n - 1, m) || member_running(plan, after, n - 1, m)) by {
        match group.members@[m] {
            GroupMemberRef::Group { id } => {
                match first_where(plan.groups@, |g: crate::planning::PlannedGroup| g.id@ == id@) {
                    Some(h) => if before.group_results@[h] is None {
                        assert(after.frames@.len() == n + 1);
                        assert(after.frames@[n as int] == after.frames@.last());
                    },
                    None => {},
                }
            },
            GroupMemberRef::Suite { .. } => {},
        }
    }
    assert forall|g: int, j: int|
        0 <= g < after.group_results@.len() && after.group_results@[g] is Some && 0 <= j < plan.groups@[g].members@.len()
            implies #[trigger] member_done(plan, after, g, j) by {
        assert(member_done(plan, before, g, j));
    }
    assert forall|i: int| 0 <= i < after.frames@.len() implies (#[trigger] after.frames@[i]).started || (i + 1
        == after.frames@.len() && after.frames@[i].next == 0) by {
        if i < n - 1 {
            assert(before.frames@[i].started);
        } else if i == n {
            assert(after.frames@.len() == n + 1);
            assert(after.frames@[n as int] == after.frames@.last());
        }
    }
    assert forall|i: int, j: int| 0 <= i < after.frames@.len() && 0 <= j < after.frames@[i].next - 1 implies #[trigger] frame_member_done(
        plan,
        after,
        i,
        j,
    ) by {
        if i < n - 1 {
            assert(frame_member_done(plan, before, i, j));
        } else if i == n - 1 {
            assert(member_done(plan, before, frame.group as int, j));
        } else {
            assert(after.frames@[n as int] == after.frames@.last());
        }
    }
    assert forall|i: int| 0 <= i < after.frames@.len() && (#[trigger] after.frames@[i]).next > 0 implies frame_member_done(
        plan,
        after,
        i,
        after.frames@[i].next - 1,
    ) || member_running(plan, after, i, after.frames@[i].next - 1) by {
        if i < n - 1 {
            let j = before.frames@[i].next - 1;
            assert(after.frames@[i] == before.frames@[i]);
            assert(before.frames@[i].next > 0);
            assert(frame_member_done(plan, before, i, j) || member_running(plan, before, i, j));
            if i + 1 == n - 1 {
                assert(after.frames@[i + 1].group == before.frames@[i + 1].group);
            } else {
                assert(after.frames@[i + 1] == before.frames@[i + 1]);
            }
            if frame_member_done(plan, before, i, j) {
                assert(frame_member_done(plan, after, i, j));
            } else {
                assert(member_running(plan, after, i, j));
            }
        } else if i == n - 1 {
            assert(after.frames@[i] == advanced);
            assert(group.members@.len() == group.members.len());
            assert(advanced.next - 1 == m);
        } else if i == n {
            assert(after.frames@[n as int] == after.frames@.last());
        }
    }
    match plan.selection {
        ValidationSelection::Group { id } => {
            if n == 1 {
                assert(before.frames@[0] == frame);
            }
        },
        ValidationSelection::Suite { id } => {},
        _ => {},
    }
}

/// A finished run holds the result of the selected group or suite, and
/// every group with a result holds those of all the planned groups and
/// suites that its members name: no planned node that the selection
/// reaches is left without a result.
pub proof fn lemma_finished_run_settled(plan: ValidationPlan, e: Execution)
    requires
        walks_settled(plan, e),
        e.finished(),
    ensures
        selection_settled(plan, e),
        forall|g: int, j: int|
            0 <= g < e.group_results@.len() && e.group_results@[g] is Some && 0 <= j < plan.groups@[g].members@.len()
                ==> #[trigger] member_done(plan, e, g, j),
{
}

/// Member `j` of planned group `a` names planned group `b`.
pub open spec fn names_group(plan: ValidationPlan, a: int, j: int, b: int) -> bool {
    &&& 0 <= j < plan.groups@[a].members@.len()
    &&& match plan.groups@[a].members@[j] {
        GroupMemberRef::Group { id } => first_where(plan.groups@, |g: crate::planning::PlannedGroup| g.id@ == id@)
            == Some(b),
        GroupMemberRef::Suite { .. } => false,
    }
}

/// Member `j` of planned group `a` names planned suite `k`.
pub open spec fn names_suite(plan: ValidationPlan, a: int, j: int, k: int) -> bool {
    &&& 0 <= j < plan.groups@[a].members@.len()
    &&& match plan.groups@[a].members@[j] {
        GroupMemberRef::Suite { id } => first_where(plan.suites@, |s: crate::planning::PlannedSuite| s.id@ == id@)
            == Some(k),
        GroupMemberRef::Group { .. } => false,
    }
}

/// `chain` walks down from planned group to planned group, each one named
/// by a member of the one before.
pub open spec fn group_chain(plan: ValidationPlan, chain: Seq<int>) -> bool {
    &&& chain.len() > 0
    &&& forall|k: int| 0 <= k < chain.len() ==> 0 <= #[trigger] chain[k] < plan.groups@.len()
    &&& forall|k: int| #![trigger chain[k]] 0 <= k < chain.len() - 1 ==> linked(plan, chain[k], chain[k + 1])
}

/// Some member of planned group `a` names planned group `b`.
pub open spec fn linked(plan: ValidationPlan, a: int, b: int) -> bool {
    exists|j: int| #[trigger] names_group(plan, a, j, b)
}

/// Once a group has its result, so has every planned group below it, and
/// every planned suite that one of them names.
pub proof fn lemma_results_reach_down(v: ValidatedConfig, plan: ValidationPlan, e: Execution, chain: Seq<int>)
    requires
        e.wf(v, plan),
        walks_settled(plan, e),
        group_chain(plan, chain),
        e.group_results@[chain[0]] is Some,
    ensures
        e.group_results@[chain.last()] is Some,
        forall|j: int, k: int| #[trigger] names_suite(plan, chain.last(), j, k) ==> e.suite_results@[k] is Some,
    decreases chain.len(),
{
    if chain.len() > 1 {
        let head = chain.drop_last();
        assert forall|k: int| 0 <= k < head.len() implies 0 <= #[trigger] head[k] < plan.groups@.len() by {
            assert(head[k] == chain[k]);
        }
        assert forall|k: int| #![trigger head[k]] 0 <= k < head.len() - 1 implies linked(plan, head[k], head[k + 1]) by {
            assert(head[k] == chain[k] && head[k + 1] == chain[k + 1]);
            assert(linked(plan, chain[k], chain[k + 1]));
        }
        lemma_results_reach_down(v, plan, e, head);
        let a = chain[chain.len() - 2];
        assert(head.last() == a);
        assert(linked(plan, a, chain[chain.len() - 1]));
        let j = choose|j: int| #[trigger] names_group(plan, a, j, chain[chain.len() - 1]);
        assert(member_done(plan, e, a, j));
    }
    assert forall|j: int, k: int| #[trigger] names_suite(plan, chain.last(), j, k) implies e.suite_results@[k] is Some by {
        assert(member_done(plan, e, chain.last(), j));
    }
}

/// Planned execution `k` runs a declared check.
pub open spec fn declared_execution(v: ValidatedConfig, plan: ValidationPlan, k: int) -> bool {
    keys_of(v.checked.config.checks@).contains(plan.check_executions@[k].check_id@)
}

/// Every planned execution before `n` that runs a declared check has its result.
pub open spec fn declared_results(v: ValidatedConfig, plan: ValidationPlan, e: Execution, n: int) -> bool {
    forall|k: int| #![trigger e.results@[k]] 0 <= k < n && declared_execution(v, plan, k) ==> e.results@[k] is Some
}

/// A direct run has a result for every declared check it passed, and the
/// command it waits for is that of its next check; once a direct run of a
/// check selection is over, every declared check of the plan has its result.
pub open spec fn direct_settled(v: ValidatedConfig, plan: ValidationPlan, e: Execution) -> bool {
    &&& e.direct matches Some(run) ==> {
        &&& declared_results(v, plan, e, run.next as int)
        &&& run.pending matches Some(pc) ==> pc.execution == Some(run.next)
    }
    &&& (plan.selection is Check && e.direct is None) ==> declared_results(v, plan, e, plan.check_executions@.len() as int)
}

/// Every step keeps what a direct run has settled.
#[verifier::rlimit(40)]
pub proof fn lemma_direct_stays_settled(
    v: ValidatedConfig,
    plan: ValidationPlan,
    tools: Seq<(String, Status)>,
    cancelled: bool,
    output: Option<ProcessOutput>,
    before: Execution,
    after: Execution,
    r: ExecutionStep,
)
    requires
        before.wf(v, plan),
        after.wf(v, plan),
        execution_step(v, plan, tools, cancelled, output, before, after, r),
        direct_settled(v, plan, before),
    ensures
        direct_settled(v, plan, after),
{
    // Stored results stay stored: a step records at most one, and clears none.
    assert forall|k: int| 0 <= k < before.results@.len() && before.results@[k] is Some implies #[trigger] after.results@[k] is Some by {}
    let n = plan.check_executions@.len() as int;
    if before.direct is None {
        assert(after.direct == before.direct);
        if plan.selection is Check {
            assert forall|k: int| #![trigger after.results@[k]] 0 <= k < n && declared_execution(v, plan, k) implies after.results@[k] is Some by {
                assert(before.results@[k] is Some);
            }
        }
    } else {
        let run = before.direct->0;
        assert forall|k: int| #![trigger after.results@[k]] 0 <= k < run.next && declared_execution(v, plan, k) implies after.results@[k] is Some by {
            assert(before.results@[k] is Some);
        }
        match after.direct {
            Some(next) => {
                assert forall|k: int| #![trigger after.results@[k]] 0 <= k < next.next && declared_execution(v, plan, k) implies after.results@[k] is Some by {
                    if k < run.next {
                        assert(before.results@[k] is Some);
                    }
                }
            },
            None => {
                assert forall|k: int| #![trigger after.results@[k]] 0 <= k < n && declared_execution(v, plan, k) implies after.results@[k] is Some by {
                    assert(before.results@[k] is Some);
                }
            },
        }
    }
}

/// A finished run of a check selection has the result of every planned
/// execution that runs a declared check.
pub proof fn lemma_finished_direct_settled(v: ValidatedConfig, plan: ValidationPlan, e: Execution)
    requires
        direct_settled(v, plan, e),
        e.finished(),
        plan.selection is Check,
    ensures
        declared_results(v, plan, e, plan.check_executions@.len() as int),
{
}

proof fn lemma_planned_index(
    v: ValidatedConfig,
    plan: ValidationPlan,
    groups: Seq<Seq<char>>,
    suites: Seq<Seq<char>>,
    levels: Seq<usize>,
    x: Seq<char>,
)
    requires
        crate::planning::plan_describes(plan, v, groups, suites, levels),
        groups.no_duplicates(),
        groups.contains(x),
    ensures
        first_where(plan.groups@, |g: crate::planning::PlannedGroup| g.id@ == x) matches Some(h) && 0 <= h < plan.groups@.len() && groups[h] == x,
{
    let k = choose|k: int| 0 <= k < groups.len() && groups[k] == x;
    assert(crate::planning::planned_group_of(plan.groups@[k], v.checked, groups[k], levels));
    lemma_first_where_found(plan.groups@, |g: crate::planning::PlannedGroup| g.id@ == x);
    match first_where(plan.groups@, |g: crate::planning::PlannedGroup| g.id@ == x) {
        Some(h) => {
            assert(first_where(plan.groups@, |g: crate::planning::PlannedGroup| g.id@ == x) == Some(h));
            assert(0 <= h < plan.groups@.len());
            assert(plan.groups@[h].id@ == x);
            assert(crate::planning::planned_group_of(plan.groups@[h], v.checked, groups[h], levels));
        },
        None => {
            assert(plan.groups@[k].id@ == x);
        },
    }
}

#[verifier::rlimit(40)]
proof fn lemma_edge_named(
    v: ValidatedConfig,
    plan: ValidationPlan,
    groups: Seq<Seq<char>>,
    suites: Seq<Seq<char>>,
    levels: Seq<usize>,
    a: Seq<char>,
    b: Seq<char>,
    ha: int,
    hb: int,
)
    requires
        v.wf(),
        crate::planning::plan_describes(plan, v, groups, suites, levels),
        groups.no_duplicates(),
        groups.contains(a),
        groups.contains(b),
        crate::dag::text_edge(v.checked.group_graph@, a, b),
        first_where(plan.groups@, |g: crate::planning::PlannedGroup| g.id@ == a) == Some(ha),
        first_where(plan.groups@, |g: crate::planning::PlannedGroup| g.id@ == b) == Some(hb),
    ensures
        exists|j: int| #[trigger] names_group(plan, ha, j, hb),
{
    let c = v.checked;
    lemma_planned_index(v, plan, groups, suites, levels, a);
    lemma_planned_index(v, plan, groups, suites, levels, b);
    assert(crate::planning::planned_group_of(plan.groups@[ha], c, groups[ha], levels));
    crate::dag::lemma_edge_children(c.group_graph@, a, b);
    let (i, j0) = choose|i: int, j: int|
        0 <= i < c.group_graph@.len() && 0 <= j < c.group_graph@[i].1@.len() && c.group_graph@[i].0@ == a
            && #[trigger] c.group_graph@[i].1@[j]@ == b;
    assert(keys_of(c.group_graph@)[i] == a);
    crate::planning::lemma_graph_nodes(c, a);
    let q = choose|q: int| 0 <= q < keys_of(c.config.groups@).len() && keys_of(c.config.groups@)[q] == a;
    assert(c.config.groups@[q].id@ == a);
    crate::config::validation::lemma_named(c.config.groups@, q);
    crate::config::validation::lemma_group_children(c, q);
    let members = c.config.groups@[q].members@;
    crate::config::validation::lemma_member_groups(members, b);
    let j = choose|j: int| 0 <= j < members.len() && (#[trigger] members[j] matches GroupMemberRef::Group { id } && id@ == b);
    assert(crate::config::validation::group_named(c.config, a) == c.config.groups@[q]);
    let planned = plan.groups@[ha].members@;
    assert(crate::planning::member_views(planned) == crate::planning::member_views(members));
    assert(crate::planning::member_views(planned).len() == planned.len());
    assert(crate::planning::member_views(members).len() == members.len());
    assert(crate::planning::member_views(planned)[j] == crate::planning::member_view(planned[j]));
    assert(crate::planning::member_views(members)[j] == crate::planning::member_view(members[j]));
    assert(crate::planning::member_view(planned[j]) == (true, b));
    match planned[j] {
        GroupMemberRef::Group { id } => {
            assert(id@ == b);
            assert((|g: crate::planning::PlannedGroup| g.id@ == id@) =~= (|g: crate::planning::PlannedGroup| g.id@ == b));
            assert(first_where(plan.groups@, |g: crate::planning::PlannedGroup| g.id@ == id@) == Some(hb));
            assert(names_group(plan, ha, j, hb));
        },
        GroupMemberRef::Suite { id } => {
            assert(false);
        },
    }
}

proof fn lemma_path_settled(
    v: ValidatedConfig,
    plan: ValidationPlan,
    e: Execution,
    groups: Seq<Seq<char>>,
    suites: Seq<Seq<char>>,
    levels: Seq<usize>,
    p: Seq<Seq<char>>,
    n: int,
)
    requires
        v.wf(),
        e.wf(v, plan),
        walks_settled(plan, e),
        crate::planning::plan_describes(plan, v, groups, suites, levels),
        groups.no_duplicates(),
        crate::dag::text_path(v.checked.group_graph@, p),
        1 <= n <= p.len(),
        forall|i: int| 0 <= i < p.len() ==> groups.contains(#[trigger] p[i]),
        e.group_results@[first_where(plan.groups@, |g: crate::planning::PlannedGroup| g.id@ == p[0])->0] is Some,
    ensures
        e.group_results@[first_where(plan.groups@, |g: crate::planning::PlannedGroup| g.id@ == p[n - 1])->0] is Some,
    decreases n,
{
    if n > 1 {
        lemma_path_settled(v, plan, e, groups, suites, levels, p, n - 1);
        let a = p[n - 2];
        let b = p[n - 1];
        assert((|g: crate::planning::PlannedGroup| g.id@ == p[n - 1 - 1]) =~= (|g: crate::planning::PlannedGroup| g.id@ == a));
        assert((|g: crate::planning::PlannedGroup| g.id@ == p[n - 1]) =~= (|g: crate::planning::PlannedGroup| g.id@ == b));
        assert(crate::dag::text_edge(v.checked.group_graph@, p[n - 2], p[n - 1]));
        assert(groups.contains(a) && groups.contains(b));
        lemma_planned_index(v, plan, groups, suites, levels, a);
        lemma_planned_index(v, plan, groups, suites, levels, b);
        let ha = first_where(plan.groups@, |g: crate::planning::PlannedGroup| g.id@ == a)->0;
        let hb = first_where(plan.groups@, |g: crate::planning::PlannedGroup| g.id@ == b)->0;
        lemma_edge_named(v, plan, groups, suites, levels, a, b, ha, hb);
        let j = choose|j: int| #[trigger] names_group(plan, ha, j, hb);
        assert(member_done(plan, e, ha, j));
    }
}

/// A finished run of a group plan holds the result of every planned
/// group and every planned suite: the selected group, every group it
/// reaches, and every suite that one of them lists.
#[verifier::rlimit(40)]
pub proof fn lemma_finished_group_plan_complete(v: ValidatedConfig, plan: ValidationPlan, e: Execution, root: Seq<char>)
    requires
        v.wf(),
        e.wf(v, plan),
        walks_settled(plan, e),
        e.finished(),
        plan.selection matches ValidationSelection::Group { id } && id@ == root,
        crate::planning::group_plan(plan, v, root),
    ensures
        forall|k: int| 0 <= k < plan.groups@.len() ==> e.group_results@[k] is Some,
        forall|k: int| 0 <= k < plan.suites@.len() ==> e.suite_results@[k] is Some,
{
    let (levels, groups, suites) = choose|levels: Seq<usize>, groups: Seq<Seq<char>>, suites: Seq<Seq<char>>|
        #![trigger crate::planning::plan_describes(plan, v, groups, suites, levels)]
        {
            &&& crate::planning::levels_of(v.checked, levels)
            &&& groups.len() >= 1
            &&& groups[0] == root
            &&& groups.no_duplicates()
            &&& forall|x: Seq<char>| groups.contains(x) <==> crate::dag::reaches(v.checked.group_graph@, root, x)
            &&& suites.no_duplicates()
            &&& forall|s: Seq<char>| suites.contains(s) <==> crate::planning::suites_reached(v.checked, root, s)
            &&& crate::planning::plan_describes(plan, v, groups, suites, levels)
        };
    lemma_finished_run_settled(plan, e);
    assert(groups.contains(groups[0]));
    lemma_planned_index(v, plan, groups, suites, levels, root);
    match plan.selection {
        ValidationSelection::Group { id } => {
            assert((|g: crate::planning::PlannedGroup| g.id@ == id@) =~= (|g: crate::planning::PlannedGroup| g.id@ == root));
        },
        _ => {},
    }
    assert(e.group_results@[first_where(plan.groups@, |g: crate::planning::PlannedGroup| g.id@ == root)->0] is Some);
    assert forall|k: int| 0 <= k < plan.groups@.len() implies e.group_results@[k] is Some by {
        let x = groups[k];
        assert(groups.contains(x));
        let p = choose|p: Seq<Seq<char>>| #![trigger crate::dag::text_path(v.checked.group_graph@, p)]
            p.len() >= 1 && p[0] == root && p[p.len() - 1] == x && crate::dag::text_path(v.checked.group_graph@, p);
        assert forall|i: int| 0 <= i < p.len() implies groups.contains(#[trigger] p[i]) by {
            let prefix = p.take(i + 1);
            assert(crate::dag::text_path(v.checked.group_graph@, prefix)) by {
                assert forall|a: int, b: int| 0 <= a && b == a + 1 && b < prefix.len() implies #[trigger] crate::dag::text_edge(
                    v.checked.group_graph@,
                    prefix[a],
                    prefix[b],
                ) by {
                    assert(crate::dag::text_edge(v.checked.group_graph@, p[a], p[b]));
                }
            }
            assert(prefix[0] == root && prefix[prefix.len() - 1] == p[i]);
            assert(crate::dag::reaches(v.checked.group_graph@, root, p[i]));
        }
        assert((|g: crate::planning::PlannedGroup| g.id@ == p[0]) =~= (|g: crate::planning::PlannedGroup| g.id@ == root));
        lemma_path_settled(v, plan, e, groups, suites, levels, p, p.len() as int);
        assert((|g: crate::planning::PlannedGroup| g.id@ == p[p.len() as int - 1]) =~= (|g: crate::planning::PlannedGroup| g.id@ == x));
        lemma_planned_index(v, plan, groups, suites, levels, x);
        let h = first_where(plan.groups@, |g: crate::planning::PlannedGroup| g.id@ == x)->0;
        assert(groups[h] == groups[k]);
    }
    assert forall|k: int| 0 <= k < plan.suites@.len() implies e.suite_results@[k] is Some by {
        let t = suites[k];
        assert(suites.contains(t));
        let w = choose|w: Seq<char>|
            crate::dag::reaches(v.checked.group_graph@, root, w) && #[trigger] crate::planning::has_suite_member(
                crate::config::validation::group_named(v.checked.config, w),
                t,
            );
        assert(groups.contains(w));
        lemma_planned_index(v, plan, groups, suites, levels, w);
        let hw = first_where(plan.groups@, |g: crate::planning::PlannedGroup| g.id@ == w)->0;
        assert(e.group_results@[hw] is Some);
        assert(crate::planning::planned_group_of(plan.groups@[hw], v.checked, groups[hw], levels));
        let members = crate::config::validation::group_named(v.checked.config, w).members@;
        let j = choose|j: int| 0 <= j < members.len() && (#[trigger] members[j] matches GroupMemberRef::Suite { id } && id@ == t);
        let planned = plan.groups@[hw].members@;
        assert(crate::planning::member_views(planned) == crate::planning::member_views(members));
        assert(crate::planning::member_views(planned).len() == planned.len());
        assert(crate::planning::member_views(members).len() == members.len());
        assert(crate::planning::member_views(planned)[j] == crate::planning::member_view(planned[j]));
        assert(crate::planning::member_views(members)[j] == crate::planning::member_view(members[j]));
        assert(crate::planning::member_view(planned[j]) == (false, t));
        assert(member_done(plan, e, hw, j));
        match planned[j] {
            GroupMemberRef::Suite { id } => {
                assert(id@ == t);
                assert((|s: crate::planning::PlannedSuite| s.id@ == id@) =~= (|s: crate::planning::PlannedSuite| s.id@ == t));
                lemma_planned_suite_index(v, plan, groups, suites, levels, t);
                let hs = first_where(plan.suites@, |s: crate::planning::PlannedSuite| s.id@ == t)->0;
                assert(suites[hs] == suites[k]);
            },
            GroupMemberRef::Group { .. } => {
                assert(false);
            },
        }
    }
}

proof fn lemma_planned_suite_index(
    v: ValidatedConfig,
    plan: ValidationPlan,
    groups: Seq<Seq<char>>,
    suites: Seq<Seq<char>>,
    levels: Seq<usize>,
    t: Seq<char>,
)
    requires
        crate::planning::plan_describes(plan, v, groups, suites, levels),
        suites.no_duplicates(),
        suites.contains(t),
    ensures
        first_where(plan.suites@, |s: crate::planning::PlannedSuite| s.id@ == t) matches Some(h) && 0 <= h
            < plan.suites@.len() && suites[h] == t,
{
    let k = choose|k: int| 0 <= k < suites.len() && suites[k] == t;
    assert(crate::planning::planned_suite_of(plan.suites@[k], v, suites[k]));
    lemma_first_where_found(plan.suites@, |s: crate::planning::PlannedSuite| s.id@ == t);
    match first_where(plan.suites@, |s: crate::planning::PlannedSuite| s.id@ == t) {
        Some(h) => {
            assert(crate::planning::planned_suite_of(plan.suites@[h], v, suites[h]));
        },
        None => {
            assert(plan.suites@[k].id@ == t);
        },
    }
}

/// The stored values of a sequence in which every value is stored are all of them, in order.
pub proof fn lemma_present_all<T>(values: Seq<Option<T>>)
    requires
        forall|k: int| 0 <= k < values.len() ==> #[trigger] values[k] is Some,
    ensures
        crate::execution::outcome::present(values).len() == values.len(),
        forall|k: int| 0 <= k < values.len() ==> Some(#[trigger] crate::execution::outcome::present(values)[k]) == values[k],
    decreases values.len(),
{
    if values.len() > 0 {
        let head = values.drop_last();
        assert forall|k: int| 0 <= k < head.len() implies #[trigger] head[k] is Some by {
            assert(head[k] == values[k]);
        }
        lemma_present_all(head);
        assert(values.last() is Some);
        assert forall|k: int| 0 <= k < values.len() implies Some(#[trigger] crate::execution::outcome::present(values)[k])
            == values[k] by {
            if k < head.len() {
                assert(head[k] == values[k]);
                assert(Some(crate::execution::outcome::present(head)[k]) == head[k]);
            }
        }
    }
}

/// The report of a finished run of a group plan covers the plan: one group
/// result per planned group and one suite result per planned suite, in plan
/// order.
pub proof fn lemma_report_covers_group_plan(
    v: ValidatedConfig,
    plan: ValidationPlan,
    e: Execution,
    root: Seq<char>,
    report: crate::contracts::report::ValidationReport,
)
    requires
        v.wf(),
        e.wf(v, plan),
        walks_settled(plan, e),
        e.finished(),
        plan.selection matches ValidationSelection::Group { id } && id@ == root,
        crate::planning::group_plan(plan, v, root),
        report.groups@ == crate::execution::outcome::present(e.group_results@),
        report.suites@ == crate::execution::outcome::present(e.suite_results@),
    ensures
        report.groups@.len() == plan.groups@.len(),
        forall|k: int| 0 <= k < plan.groups@.len() ==> Some(#[trigger] report.groups@[k]) == e.group_results@[k],
        report.suites@.len() == plan.suites@.len(),
        forall|k: int| 0 <= k < plan.suites@.len() ==> Some(#[trigger] report.suites@[k]) == e.suite_results@[k],
{
    lemma_finished_group_plan_complete(v, plan, e, root);
    lemma_present_all(e.group_results@);
    lemma_present_all(e.suite_results@);
}

/// A finished run of a check plan holds the result of its one planned
/// execution.
pub proof fn lemma_finished_check_plan_complete(v: ValidatedConfig, plan: ValidationPlan, e: Execution, id: Seq<char>)
    requires
        direct_settled(v, plan, e),
        e.finished(),
        crate::planning::check_plan(plan, id),
        keys_of(v.checked.config.checks@).contains(id),
    ensures
        e.results@[0] is Some,
{
    lemma_finished_direct_settled(v, plan, e);
    assert(crate::planning::execution_consistent(plan.check_executions@[0]));
    assert(declared_execution(v, plan, 0));
}

} // verus!
