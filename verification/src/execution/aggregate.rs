//! Aggregation of concrete check results into suite and group results.
//!
//! Results are stored by position of the planned check execution they belong
//! to; a suite or group aggregates the results of the executions it covers
//! that have one.

use vstd::prelude::*;
use crate::contracts::report::{CheckExecutionResult, GroupResult, Status, SuiteResult, Summary, summarizes};
use crate::planning::{key_view, key_views, member_views, CheckExecutionKey, PlannedCheckExecution, PlannedGroup, PlannedSuite};
use crate::text::{owned, views};

verus! {

/// Planned execution `i` has key `key`.
pub open spec fn key_at(executions: Seq<PlannedCheckExecution>, i: int, key: (Option<Seq<char>>, Seq<char>)) -> bool {
    0 <= i < executions.len() && key_view(executions[i].key) == key
}

/// Planned execution `i` is the first with key `key`.
pub open spec fn first_key(executions: Seq<PlannedCheckExecution>, key: (Option<Seq<char>>, Seq<char>), i: int) -> bool {
    &&& key_at(executions, i, key)
    &&& forall|k: int| 0 <= k < i ==> !#[trigger] key_at(executions, k, key)
}

/// The result stored for the execution keyed `key`, if any.
pub open spec fn stored_result(
    executions: Seq<PlannedCheckExecution>,
    results: Seq<Option<CheckExecutionResult>>,
    key: (Option<Seq<char>>, Seq<char>),
) -> Option<CheckExecutionResult> {
    if exists|i: int| #[trigger] key_at(executions, i, key) {
        results[choose|i: int| first_key(executions, key, i)]
    } else {
        None
    }
}

/// The stored results of `keys`, in order, skipping keys without one.
pub open spec fn concrete_results(
    executions: Seq<PlannedCheckExecution>,
    results: Seq<Option<CheckExecutionResult>>,
    keys: Seq<(Option<Seq<char>>, Seq<char>)>,
) -> Seq<CheckExecutionResult>
    decreases keys.len(),
{
    if keys.len() == 0 {
        Seq::empty()
    } else {
        concrete_results(executions, results, keys.drop_last()) + match stored_result(executions, results, keys.last()) {
            Some(result) => seq![result],
            None => Seq::empty(),
        }
    }
}

/// The results behind references.
pub open spec fn derefs(results: Seq<&CheckExecutionResult>) -> Seq<CheckExecutionResult> {
    Seq::new(results.len(), |i: int| *results[i])
}

/// The summed durations of results.
pub open spec fn total_duration(results: Seq<CheckExecutionResult>) -> int
    decreases results.len(),
{
    if results.len() == 0 {
        0
    } else {
        total_duration(results.drop_last()) + results.last().duration_ms
    }
}

/// The statuses of results.
pub open spec fn statuses_of(results: Seq<CheckExecutionResult>) -> Seq<Status> {
    Seq::new(results.len(), |i: int| results[i].status)
}

/// A summed duration capped at the largest representable value.
pub open spec fn capped(total: int) -> u64 {
    if total > u64::MAX {
        u64::MAX
    } else {
        total as u64
    }
}

/// The first planned execution with key `key`, if any.
pub open spec fn execution_of(executions: Seq<PlannedCheckExecution>, key: (Option<Seq<char>>, Seq<char>)) -> Option<int> {
    if exists|i: int| first_key(executions, key, i) {
        Some(choose|i: int| first_key(executions, key, i))
    } else {
        None
    }
}

/// `r` is the result of `suite` over the stored results of its executions.
pub open spec fn suite_result_of(
    r: SuiteResult,
    suite: PlannedSuite,
    keys: Seq<CheckExecutionKey>,
    executions: Seq<PlannedCheckExecution>,
    results: Seq<Option<CheckExecutionResult>>,
) -> bool {
    &&& r.id@ == suite.id@
    &&& r.label@ == suite.label@
    &&& r.description@ == suite.description@
    &&& r.working_directory@ == suite.relative_working_directory@
    &&& r.check_duration_ms == capped(total_duration(concrete_results(executions, results, key_views(keys))))
    &&& summarizes(r.summary, statuses_of(concrete_results(executions, results, key_views(keys))))
    &&& views(r.check_ids@) == Seq::new(suite.checks@.len(), |j: int| suite.checks@[j].check_id@)
}

/// `r` is the result of `group` over the stored results of its descendants.
pub open spec fn group_result_of(
    r: GroupResult,
    group: PlannedGroup,
    keys: Seq<CheckExecutionKey>,
    executions: Seq<PlannedCheckExecution>,
    results: Seq<Option<CheckExecutionResult>>,
) -> bool {
    &&& r.id@ == group.id@
    &&& r.label@ == group.label@
    &&& r.description@ == group.description@
    &&& r.level == group.level
    &&& r.check_duration_ms == capped(total_duration(concrete_results(executions, results, key_views(keys))))
    &&& summarizes(r.summary, statuses_of(concrete_results(executions, results, key_views(keys))))
    &&& member_views(r.members@) == member_views(group.members@)
}

/// Finds the first planned execution keyed like `key`.
pub fn find_execution(executions: &Vec<PlannedCheckExecution>, key: &CheckExecutionKey) -> (r: Option<usize>)
    ensures
        match r {
            Some(i) => first_key(executions@, key_view(*key), i as int),
            None => !exists|i: int| #[trigger] key_at(executions@, i, key_view(*key)),
        },
        execution_of(executions@, key_view(*key)) == match r {
            Some(i) => Some(i as int),
            None => None::<int>,
        },
{
    let mut i: usize = 0;
    while i < executions.len()
        invariant
            i <= executions@.len(),
            forall|k: int| 0 <= k < i ==> !#[trigger] key_at(executions@, k, key_view(*key)),
        decreases executions@.len() - i,
    {
        let same = match (&executions[i].key, key) {
            (
                CheckExecutionKey::Suite { suite_id: a, check_id: b },
                CheckExecutionKey::Suite { suite_id: c, check_id: d },
            ) => crate::text::text_eq(a.as_str(), c.as_str()) && crate::text::text_eq(b.as_str(), d.as_str()),
            (CheckExecutionKey::Direct { check_id: b }, CheckExecutionKey::Direct { check_id: d }) => crate::text::text_eq(
                b.as_str(),
                d.as_str(),
            ),
            _ => false,
        };
        if same {
            proof {
                assert(first_key(executions@, key_view(*key), i as int));
                let j = choose|j: int| first_key(executions@, key_view(*key), j);
                lemma_first_key_unique(executions@, key_view(*key), i as int, j);
            }
            return Some(i);
        }
        i = i + 1;
    }
    None
}

proof fn lemma_first_key_unique(executions: Seq<PlannedCheckExecution>, key: (Option<Seq<char>>, Seq<char>), i: int, j: int)
    requires
        first_key(executions, key, i),
        first_key(executions, key, j),
    ensures
        i == j,
{
    if i < j {
        assert(key_at(executions, i, key));
    } else if j < i {
        assert(key_at(executions, j, key));
    }
}

/// Collects the stored results of `keys`, in order.
pub fn collect_results<'a>(
    executions: &Vec<PlannedCheckExecution>,
    results: &'a Vec<Option<CheckExecutionResult>>,
    keys: &Vec<CheckExecutionKey>,
) -> (r: Vec<&'a CheckExecutionResult>)
    requires
        results@.len() == executions@.len(),
    ensures
        derefs(r@) == concrete_results(executions@, results@, key_views(keys@)),
{
    let mut out: Vec<&'a CheckExecutionResult> = Vec::new();
    let mut k: usize = 0;
    while k < keys.len()
        invariant
            results@.len() == executions@.len(),
            k <= keys@.len(),
            derefs(out@) == concrete_results(executions@, results@, key_views(keys@).take(k as int)),
        decreases keys@.len() - k,
    {
        let ghost kv = key_view(keys@[k as int]);
        assert(key_views(keys@).take(k + 1).drop_last() =~= key_views(keys@).take(k as int));
        assert(key_views(keys@).take(k + 1).last() == kv);
        match find_execution(executions, &keys[k]) {
            Some(i) => {
                proof {
                    let c = choose|c: int| first_key(executions@, kv, c);
                    lemma_first_key_unique(executions@, kv, c, i as int);
                }
                let ghost before = out@;
                match &results[i] {
                    Some(result) => {
                        out.push(result);
                        assert(derefs(out@) =~= derefs(before).push(*result));
                    },
                    None => {},
                }
            },
            None => {},
        }
        k = k + 1;
    }
    assert(key_views(keys@).take(keys@.len() as int) =~= key_views(keys@));
    out
}

/// Sums result durations, saturating at the largest representable value.
pub fn duration_of(results: &Vec<&CheckExecutionResult>) -> (r: u64)
    ensures
        r == capped(total_duration(derefs(results@))),
{
    let mut total: u64 = 0;
    let mut saturated = false;
    let mut k: usize = 0;
    while k < results.len()
        invariant
            k <= results@.len(),
            !saturated ==> total == total_duration(derefs(results@).take(k as int)),
            saturated ==> total == u64::MAX && total_duration(derefs(results@).take(k as int)) > u64::MAX,
        decreases results@.len() - k,
    {
        assert(derefs(results@).take(k + 1).drop_last() =~= derefs(results@).take(k as int));
        proof {
            lemma_total_nonnegative(derefs(results@).take(k as int));
        }
        let d = results[k].duration_ms;
        if !saturated && total <= u64::MAX - d {
            total = total + d;
        } else {
            total = u64::MAX;
            saturated = true;
        }
        k = k + 1;
    }
    assert(derefs(results@).take(results@.len() as int) =~= derefs(results@));
    total
}

proof fn lemma_total_nonnegative(results: Seq<CheckExecutionResult>)
    ensures
        total_duration(results) >= 0,
    decreases results.len(),
{
    if results.len() > 0 {
        lemma_total_nonnegative(results.drop_last());
    }
}

fn statuses(results: &Vec<&CheckExecutionResult>) -> (r: Vec<Status>)
    ensures
        r@ == statuses_of(derefs(results@)),
{
    let mut out: Vec<Status> = Vec::new();
    let mut k: usize = 0;
    while k < results.len()
        invariant
            k <= results@.len(),
            out@ == statuses_of(derefs(results@).take(k as int)),
        decreases results@.len() - k,
    {
        out.push(results[k].status);
        assert(out@ =~= statuses_of(derefs(results@).take(k + 1)));
        k = k + 1;
    }
    assert(derefs(results@).take(results@.len() as int) =~= derefs(results@));
    out
}

/// Aggregates a suite from the stored results of its invocations.
pub fn suite_result(
    suite: &PlannedSuite,
    keys: &Vec<CheckExecutionKey>,
    executions: &Vec<PlannedCheckExecution>,
    results: &Vec<Option<CheckExecutionResult>>,
) -> (r: SuiteResult)
    requires
        results@.len() == executions@.len(),
    ensures
        r.id@ == suite.id@,
        r.label@ == suite.label@,
        r.description@ == suite.description@,
        r.working_directory@ == suite.relative_working_directory@,
        r.check_duration_ms == capped(total_duration(concrete_results(executions@, results@, key_views(keys@)))),
        summarizes(r.summary, statuses_of(concrete_results(executions@, results@, key_views(keys@)))),
        views(r.check_ids@) == Seq::new(suite.checks@.len(), |j: int| suite.checks@[j].check_id@),
        suite_result_of(r, *suite, keys@, executions@, results@),
{
    let concrete = collect_results(executions, results, keys);
    let all = statuses(&concrete);
    let mut check_ids: Vec<String> = Vec::new();
    let mut j: usize = 0;
    while j < suite.checks.len()
        invariant
            j <= suite.checks@.len(),
            views(check_ids@) == Seq::new(j as nat, |m: int| suite.checks@[m].check_id@),
        decreases suite.checks@.len() - j,
    {
        let ghost before = check_ids@;
        let item = owned(suite.checks[j].check_id.as_str());
        check_ids.push(item);
        assert(check_ids@ == before.push(item));
        assert(views(check_ids@) =~= views(before).push(item@));
        assert(views(check_ids@) =~= Seq::new((j + 1) as nat, |m: int| suite.checks@[m].check_id@));
        j = j + 1;
    }
    SuiteResult {
        id: owned(suite.id.as_str()),
        label: owned(suite.label.as_str()),
        description: owned(suite.description.as_str()),
        working_directory: owned(suite.relative_working_directory.as_str()),
        check_duration_ms: duration_of(&concrete),
        summary: Summary::from_statuses(all.as_slice()),
        check_ids,
    }
}

/// Aggregates a group from the stored results of the invocations it reaches.
pub fn group_result(
    group: &PlannedGroup,
    keys: &Vec<CheckExecutionKey>,
    executions: &Vec<PlannedCheckExecution>,
    results: &Vec<Option<CheckExecutionResult>>,
) -> (r: GroupResult)
    requires
        results@.len() == executions@.len(),
    ensures
        r.id@ == group.id@,
        r.label@ == group.label@,
        r.description@ == group.description@,
        r.level == group.level,
        r.check_duration_ms == capped(total_duration(concrete_results(executions@, results@, key_views(keys@)))),
        summarizes(r.summary, statuses_of(concrete_results(executions@, results@, key_views(keys@)))),
        member_views(r.members@) == member_views(group.members@),
        group_result_of(r, *group, keys@, executions@, results@),
{
    let concrete = collect_results(executions, results, keys);
    let all = statuses(&concrete);
    GroupResult {
        id: owned(group.id.as_str()),
        label: owned(group.label.as_str()),
        description: owned(group.description.as_str()),
        level: group.level,
        check_duration_ms: duration_of(&concrete),
        summary: Summary::from_statuses(all.as_slice()),
        members: crate::planning::copy_members(&group.members),
    }
}

} // verus!
