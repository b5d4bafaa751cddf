//! Why a run of a plan of a valid configuration comes to an end.

use vstd::prelude::*;
use crate::config::validation::ValidatedConfig;
use crate::contracts::config::GroupMemberRef;
use crate::contracts::report::Status;
use crate::execution::ProcessOutput;
use crate::execution::run::{execution_step, Execution, ExecutionStep, GroupFrame};
use crate::execution::completion::{group_chain, linked, names_group};
use crate::planning::ValidationPlan;
use crate::reporting::result::{first_where, lemma_first_where_found};
use crate::text::keys_of;

verus! {

/// No chain of member links leads from a planned group back to itself.
pub open spec fn plan_acyclic(plan: ValidationPlan) -> bool {
    forall|chain: Seq<int>| #[trigger] group_chain(plan, chain) && chain.len() >= 2 ==> chain[0] != chain[chain.len() - 1]
}

/// A member link between planned groups of a group plan is an edge of the
/// configuration's nesting graph.
#[verifier::rlimit(40)]
proof fn lemma_link_is_edge(
    v: ValidatedConfig,
    plan: ValidationPlan,
    root: Seq<char>,
    groups: Seq<Seq<char>>,
    suites: Seq<Seq<char>>,
    levels: Seq<usize>,
    a: int,
    j: int,
    b: int,
)
    requires
        v.wf(),
        groups.len() >= 1,
        groups[0] == root,
        keys_of(v.checked.config.groups@).contains(root),
        forall|x: Seq<char>| groups.contains(x) <==> crate::dag::reaches(v.checked.group_graph@, root, x),
        crate::planning::plan_describes(plan, v, groups, suites, levels),
        0 <= a < plan.groups@.len(),
        0 <= b < plan.groups@.len(),
        names_group(plan, a, j, b),
    ensures
        crate::dag::text_edge(v.checked.group_graph@, plan.groups@[a].id@, plan.groups@[b].id@),
{
    let c = v.checked;
    let x = groups[a];
    assert(crate::planning::planned_group_of(plan.groups@[a], c, groups[a], levels));
    assert(groups.contains(x));
    assert(groups.contains(root));
    crate::planning::lemma_graph_nodes(c, root);
    crate::planning::lemma_reached_declared(c, root, x);
    crate::planning::lemma_graph_nodes(c, x);
    let q = choose|q: int| 0 <= q < keys_of(c.config.groups@).len() && keys_of(c.config.groups@)[q] == x;
    assert(c.config.groups@[q].id@ == x);
    crate::config::validation::lemma_named(c.config.groups@, q);
    assert(crate::config::validation::group_named(c.config, x) == c.config.groups@[q]);
    crate::config::validation::lemma_group_children(c, q);
    let members = c.config.groups@[q].members@;
    let planned = plan.groups@[a].members@;
    assert(crate::planning::member_views(planned) == crate::planning::member_views(members));
    assert(crate::planning::member_views(planned).len() == planned.len());
    assert(crate::planning::member_views(members).len() == members.len());
    assert(crate::planning::member_views(planned)[j] == crate::planning::member_view(planned[j]));
    assert(crate::planning::member_views(members)[j] == crate::planning::member_view(members[j]));
    match planned[j] {
        GroupMemberRef::Group { id } => {
            lemma_first_where_found(plan.groups@, |g: crate::planning::PlannedGroup| g.id@ == id@);
            assert(plan.groups@[b].id@ == id@);
            assert(members[j] matches GroupMemberRef::Group { id: i2 } && i2@ == id@);
            crate::config::validation::lemma_member_groups(members, id@);
            let children = crate::dag::children_of(c.group_graph@, x);
            assert(children.contains(id@));
            let w = choose|w: int| 0 <= w < children.len() && children[w] == id@;
            crate::dag::lemma_children_edge(c.group_graph@, x, w);
        },
        GroupMemberRef::Suite { .. } => {},
    }
}

/// The plan of a group of a valid configuration has no cycle of member links.
pub proof fn lemma_group_plan_acyclic(v: ValidatedConfig, plan: ValidationPlan, root: Seq<char>)
    requires
        v.wf(),
        keys_of(v.checked.config.groups@).contains(root),
        crate::planning::group_plan(plan, v, root),
    ensures
        plan_acyclic(plan),
{
    let (levels, groups, suites) = choose|levels: Seq<usize>, groups: Seq<Seq<char>>, suites: Seq<Seq<char>>|
        #![trigger crate::planning::plan_describes(plan, v, groups, suites, levels)]
        {
            &&& crate::planning::levels_of(v.checked, levels)
            &&& groups.len() >= 1
            &&& groups[0] == root
            &&& groups.no_duplicates()
            &&& forall|x: Seq<char>| groups.contains(x) <==> crate::dag::reaches(v.checked.group_graph@, root, x)
            &&& suites.no_duplicates()
            &&& forall|s: Seq<char>| suites.contains(s) <==> crate::planning::suites_reached(v.checked, root, s)
            &&& crate::planning::plan_describes(plan, v, groups, suites, levels)
        };
    assert forall|chain: Seq<int>| #[trigger] group_chain(plan, chain) && chain.len() >= 2 implies chain[0] != chain[chain.len() - 1] by {
        let g = v.checked.group_graph@;
        let p = Seq::new(chain.len(), |i: int| plan.groups@[chain[i]].id@);
        assert forall|k: int, l: int| 0 <= k && l == k + 1 && l < p.len() implies #[trigger] crate::dag::text_edge(g, p[k], p[l]) by {
            assert(0 <= chain[k] < plan.groups@.len());
            assert(0 <= chain[l] < plan.groups@.len());
            assert(linked(plan, chain[k], chain[k + 1]));
            let j = choose|j: int| #[trigger] names_group(plan, chain[k], j, chain[k + 1]);
            lemma_link_is_edge(v, plan, root, groups, suites, levels, chain[k], j, chain[l]);
        }
        if chain[0] == chain[chain.len() - 1] {
            assert(crate::dag::text_cycle(g, p));
            assert(crate::dag::text_acyclic(g));
        }
    }
}


/// Each walk below the innermost one has passed a member that names the
/// group the frame above it walks.
pub open spec fn frames_chain(plan: ValidationPlan, e: Execution) -> bool {
    forall|i: int|
        0 <= i < e.frames@.len() - 1 ==> (#[trigger] e.frames@[i]).next > 0 && names_group(
            plan,
            e.frames@[i].group as int,
            e.frames@[i].next - 1,
            e.frames@[i + 1].group as int,
        )
}

/// With no cycle of member links, no two walks under way walk the same group.
pub proof fn lemma_frames_distinct(v: ValidatedConfig, plan: ValidationPlan, e: Execution, i: int, j: int)
    requires
        e.wf(v, plan),
        frames_chain(plan, e),
        plan_acyclic(plan),
        0 <= i < j < e.frames@.len(),
    ensures
        e.frames@[i].group != e.frames@[j].group,
{
    let chain = Seq::new((j - i + 1) as nat, |t: int| e.frames@[i + t].group as int);
    assert forall|k: int| 0 <= k < chain.len() implies 0 <= #[trigger] chain[k] < plan.groups@.len() by {
        assert(e.frames@[i + k].group < plan.groups@.len());
    }
    assert forall|k: int| #![trigger chain[k]] 0 <= k < chain.len() - 1 implies linked(plan, chain[k], chain[k + 1]) by {
        let f = e.frames@[i + k];
        assert(f.next > 0 && names_group(plan, f.group as int, f.next - 1, e.frames@[i + k + 1].group as int));
        assert(chain[k + 1] == e.frames@[i + k + 1].group as int);
        assert(names_group(plan, chain[k], f.next - 1, chain[k + 1]));
    }
    assert(group_chain(plan, chain));
}

/// Every step keeps the walks under way linked by the members they passed.
#[verifier::rlimit(60)]
pub proof fn lemma_chain_kept(
    v: ValidatedConfig,
    plan: ValidationPlan,
    tools: Seq<(String, Status)>,
    cancelled: bool,
    output: Option<ProcessOutput>,
    before: Execution,
    after: Execution,
    r: ExecutionStep,
)
    requires
        before.wf(v, plan),
        execution_step(v, plan, tools, cancelled, output, before, after, r),
        frames_chain(plan, before),
    ensures
        frames_chain(plan, after),
{
    if before.direct is None && before.suite_run is None && before.frames@.len() > 0 {
        let n = before.frames@.len() as int;
        let frame = before.frames@[n - 1];
        let rest = before.frames@.drop_last();
        let group = plan.groups@[frame.group as int];
        assert(frame == before.frames@.last());
        assert forall|i: int| 0 <= i < rest.len() implies #[trigger] rest[i] == before.frames@[i] by {}
        if !frame.started {
            if before.group_results@[frame.group as int] is Some {
                assert(after.frames@ == rest);
            } else {
                let pushed = GroupFrame { started: true, ..frame };
                assert(after.frames@ == rest.push(pushed));
                assert forall|i: int| 0 <= i < after.frames@.len() - 1 implies (#[trigger] after.frames@[i]).next > 0
                    && names_group(plan, after.frames@[i].group as int, after.frames@[i].next - 1, after.frames@[i + 1].group as int) by {
                    assert(after.frames@[i] == before.frames@[i]);
                    if i + 1 == n - 1 {
                        assert(after.frames@[i + 1].group == frame.group);
                    } else {
                        assert(after.frames@[i + 1] == before.frames@[i + 1]);
                    }
                }
            }
        } else if frame.next < group.members@.len() {
            let advanced = GroupFrame { next: (frame.next + 1) as usize, ..frame };
            assert(group.members@.len() == group.members.len());
            let m = frame.next as int;
            let base = rest.push(advanced);
            assert(after.frames@.len() >= n);
            assert(after.frames@.subrange(0, n) == base) by {
                match group.members@[m] {
                    GroupMemberRef::Group { id } => {
                        match first_where(plan.groups@, |g: crate::planning::PlannedGroup| g.id@ == id@) {
                            Some(h) => if before.group_results@[h] is None {
                                assert(after.frames@.subrange(0, n) =~= after.frames@.drop_last());
                            } else {
                                assert(after.frames@.subrange(0, n) =~= after.frames@);
                            },
                            None => {
                                assert(after.frames@.subrange(0, n) =~= after.frames@);
                            },
                        }
                    },
                    GroupMemberRef::Suite { .. } => {
                        assert(after.frames@.subrange(0, n) =~= after.frames@);
                    },
                }
            }
            assert forall|i: int| 0 <= i < n implies #[trigger] after.frames@[i] == base[i] by {
                assert(after.frames@.subrange(0, n)[i] == after.frames@[i]);
            }
            assert forall|i: int| 0 <= i < after.frames@.len() - 1 implies (#[trigger] after.frames@[i]).next > 0
                && names_group(plan, after.frames@[i].group as int, after.frames@[i].next - 1, after.frames@[i + 1].group as int) by {
                if i < n - 1 {
                    assert(after.frames@[i] == before.frames@[i]);
                    if i + 1 == n - 1 {
                        assert(after.frames@[i + 1] == advanced);
                    } else {
                        assert(after.frames@[i + 1] == before.frames@[i + 1]);
                    }
                } else {
                    assert(i == n - 1);
                    assert(after.frames@[i] == advanced);
                    assert(after.frames@.len() == n + 1);
                    assert(after.frames@[n] == after.frames@.last());
                    match group.members@[m] {
                        GroupMemberRef::Group { id } => {
                            let h = first_where(plan.groups@, |g: crate::planning::PlannedGroup| g.id@ == id@)->0;
                            assert(after.frames@.last().group == h);
                            assert(names_group(plan, frame.group as int, m, h));
                        },
                        GroupMemberRef::Suite { .. } => {},
                    }
                }
            }
        } else {
            assert(after.frames@ == rest);
        }
    }
}


/// How many positions below `n` satisfy `p`.
pub open spec fn count_below(n: nat, p: spec_fn(int) -> bool) -> nat
    decreases n,
{
    if n == 0 {
        0
    } else {
        count_below((n - 1) as nat, p) + if p(n - 1) {
            1nat
        } else {
            0nat
        }
    }
}

proof fn lemma_count_le(n: nat, p: spec_fn(int) -> bool, q: spec_fn(int) -> bool)
    requires
        forall|i: int| 0 <= i < n && #[trigger] q(i) ==> p(i),
    ensures
        count_below(n, q) <= count_below(n, p),
    decreases n,
{
    if n > 0 {
        lemma_count_le((n - 1) as nat, p, q);
    }
}

proof fn lemma_count_same(n: nat, p: spec_fn(int) -> bool, q: spec_fn(int) -> bool)
    requires
        forall|i: int| 0 <= i < n ==> #[trigger] q(i) == p(i),
    ensures
        count_below(n, q) == count_below(n, p),
{
    lemma_count_le(n, p, q);
    lemma_count_le(n, q, p);
}

proof fn lemma_count_less(n: nat, p: spec_fn(int) -> bool, q: spec_fn(int) -> bool, k: int)
    requires
        forall|i: int| 0 <= i < n && #[trigger] q(i) ==> p(i),
        0 <= k < n,
        p(k),
        !q(k),
    ensures
        count_below(n, q) < count_below(n, p),
    decreases n,
{
    if k == n - 1 {
        lemma_count_le((n - 1) as nat, p, q);
    } else {
        lemma_count_less((n - 1) as nat, p, q, k);
    }
}

/// Group `g` has no result yet.
pub open spec fn unsettled_group(e: Execution) -> spec_fn(int) -> bool {
    |g: int| e.group_results@[g] is None
}

/// Some announced walk under way walks group `g`.
pub open spec fn walked(e: Execution, g: int) -> bool {
    exists|i: int| 0 <= i < e.frames@.len() && (#[trigger] e.frames@[i]).group == g && e.frames@[i].started
}

/// Group `g` has no result and no announced walk.
pub open spec fn idle_group(e: Execution) -> spec_fn(int) -> bool {
    |g: int| e.group_results@[g] is None && !walked(e, g)
}

/// Suite `k` has no result yet.
pub open spec fn unsettled_suite(e: Execution) -> spec_fn(int) -> bool {
    |k: int| e.suite_results@[k] is None
}

/// The work a walk has left: one step per member it has not passed and one
/// to finish; an unannounced walk, one step.
pub open spec fn frame_work(plan: ValidationPlan, f: GroupFrame) -> nat {
    if f.started {
        (2 * (plan.groups@[f.group as int].members@.len() - f.next) + 1) as nat
    } else {
        1
    }
}

/// The work the walks under way have left.
pub open spec fn stack_work(plan: ValidationPlan, frames: Seq<GroupFrame>) -> nat
    decreases frames.len(),
{
    if frames.len() == 0 {
        0
    } else {
        stack_work(plan, frames.drop_last()) + frame_work(plan, frames.last())
    }
}

/// The work the suite run under way has left.
pub open spec fn run_work(plan: ValidationPlan, e: Execution) -> nat {
    match e.suite_run {
        None => 0,
        Some(run) => {
            let c = plan.suites@[run.suite as int].checks@.len();
            if !run.started {
                if e.suite_results@[run.suite as int] is Some {
                    1
                } else {
                    (2 * c + 3) as nat
                }
            } else {
                (2 * (c - run.next) + if run.pending is None {
                    1int
                } else {
                    0int
                }) as nat
            }
        },
    }
}

/// The work the direct run under way has left.
pub open spec fn direct_work(plan: ValidationPlan, e: Execution) -> nat {
    match e.direct {
        None => 0,
        Some(run) => (2 * (plan.check_executions@.len() - run.next) + if run.pending is None {
            1int
        } else {
            0int
        }) as nat,
    }
}

/// What a run has left, most significant first: groups without a result,
/// groups neither settled nor announced, suites without a result, the work
/// of the walks, of the suite run and of the direct run.
pub open spec fn run_measure(plan: ValidationPlan, e: Execution) -> Seq<nat> {
    seq![
        count_below(e.group_results@.len(), unsettled_group(e)),
        count_below(e.group_results@.len(), idle_group(e)),
        count_below(e.suite_results@.len(), unsettled_suite(e)),
        stack_work(plan, e.frames@),
        run_work(plan, e),
        direct_work(plan, e),
    ]
}

/// `a` comes before `b` in lexicographic order.
pub open spec fn lex_less(a: Seq<nat>, b: Seq<nat>) -> bool {
    &&& a.len() == b.len()
    &&& exists|k: int| 0 <= k < a.len() && #[trigger] a[k] < b[k] && forall|i: int| 0 <= i < k ==> a[i] == b[i]
}


proof fn lemma_lex_at(a: Seq<nat>, b: Seq<nat>, k: int)
    requires
        a.len() == b.len(),
        0 <= k < a.len(),
        a[k] < b[k],
        forall|i: int| 0 <= i < k ==> a[i] == b[i],
    ensures
        lex_less(a, b),
{
}

/// Equal walks and results leave the group and suite counts unchanged.
proof fn lemma_counts_same(before: Execution, after: Execution)
    requires
        after.frames@ == before.frames@,
        after.group_results@ == before.group_results@,
        after.suite_results@ == before.suite_results@,
    ensures
        count_below(after.group_results@.len(), unsettled_group(after)) == count_below(
            before.group_results@.len(),
            unsettled_group(before),
        ),
        count_below(after.group_results@.len(), idle_group(after)) == count_below(
            before.group_results@.len(),
            idle_group(before),
        ),
        count_below(after.suite_results@.len(), unsettled_suite(after)) == count_below(
            before.suite_results@.len(),
            unsettled_suite(before),
        ),
{
    assert(unsettled_group(after) =~= unsettled_group(before));
    assert forall|g: int| walked(after, g) == walked(before, g) by {
        if walked(before, g) {
            let i = choose|i: int| 0 <= i < before.frames@.len() && (#[trigger] before.frames@[i]).group == g && before.frames@[i].started;
            assert(after.frames@[i] == before.frames@[i]);
        }
        if walked(after, g) {
            let i = choose|i: int| 0 <= i < after.frames@.len() && (#[trigger] after.frames@[i]).group == g && after.frames@[i].started;
            assert(after.frames@[i] == before.frames@[i]);
        }
    }
    assert(idle_group(after) =~= idle_group(before));
    assert(unsettled_suite(after) =~= unsettled_suite(before));
}

#[verifier::rlimit(60)]
proof fn lemma_direct_decreases(
    v: ValidatedConfig,
    plan: ValidationPlan,
    tools: Seq<(String, Status)>,
    cancelled: bool,
    output: Option<ProcessOutput>,
    before: Execution,
    after: Execution,
    r: ExecutionStep,
)
    requires
        before.wf(v, plan),
        after.wf(v, plan),
        execution_step(v, plan, tools, cancelled, output, before, after, r),
        before.direct is Some,
    ensures
        lex_less(run_measure(plan, after), run_measure(plan, before)),
{
    lemma_counts_same(before, after);
    assert(after.frames@ == before.frames@);
    assert(after.suite_run == before.suite_run);
    let a = run_measure(plan, after);
    let b = run_measure(plan, before);
    assert(a[5] < b[5]);
    lemma_lex_at(a, b, 5);
}

#[verifier::rlimit(60)]
proof fn lemma_suite_decreases(
    v: ValidatedConfig,
    plan: ValidationPlan,
    tools: Seq<(String, Status)>,
    cancelled: bool,
    output: Option<ProcessOutput>,
    before: Execution,
    after: Execution,
    r: ExecutionStep,
)
    requires
        before.wf(v, plan),
        after.wf(v, plan),
        execution_step(v, plan, tools, cancelled, output, before, after, r),
        before.direct is None,
        before.suite_run is Some,
    ensures
        lex_less(run_measure(plan, after), run_measure(plan, before)),
{
    let run = before.suite_run->0;
    let a = run_measure(plan, after);
    let b = run_measure(plan, before);
    assert(after.frames@ == before.frames@);
    assert(after.group_results@ == before.group_results@);
    if after.suite_results@ == before.suite_results@ {
        lemma_counts_same(before, after);
        assert(a[4] < b[4]);
        lemma_lex_at(a, b, 4);
    } else {
        // The run stored its suite's result: the suite had none before.
        let k = run.suite as int;
        assert(after.suite_results@[k] is Some);
        assert(forall|i: int| 0 <= i < before.suite_results@.len() && i != k ==> after.suite_results@[i] == before.suite_results@[i]);
        let same = Execution { suite_results: before.suite_results, ..after };
        lemma_counts_same(before, same);
        assert(unsettled_group(after) =~= unsettled_group(same));
        assert(idle_group(after) =~= idle_group(same));
        if before.suite_results@[k] is None {
            assert forall|i: int| 0 <= i < after.suite_results@.len() && #[trigger] unsettled_suite(after)(i) implies unsettled_suite(before)(i) by {}
            lemma_count_less(before.suite_results@.len(), unsettled_suite(before), unsettled_suite(after), k);
            lemma_lex_at(a, b, 2);
        } else {
            assert forall|i: int| 0 <= i < before.suite_results@.len() implies #[trigger] unsettled_suite(before)(i)
                == unsettled_suite(after)(i) by {}
            lemma_count_same(before.suite_results@.len(), unsettled_suite(after), unsettled_suite(before));
            assert(a[4] < b[4]);
            lemma_lex_at(a, b, 4);
        }
    }
}


proof fn lemma_stack_push(plan: ValidationPlan, frames: Seq<GroupFrame>, f: GroupFrame)
    ensures
        stack_work(plan, frames.push(f)) == stack_work(plan, frames) + frame_work(plan, f),
{
    assert(frames.push(f).drop_last() =~= frames);
}

/// Walks that agree below position `n1`, with no announced walk of `h`
/// above it, agree on whether `h` is walked.
proof fn lemma_walked_tails(before: Execution, after: Execution, n1: int, h: int)
    requires
        0 <= n1 <= before.frames@.len(),
        n1 <= after.frames@.len(),
        forall|i: int| 0 <= i < n1 ==> #[trigger] after.frames@[i] == before.frames@[i],
        forall|i: int| n1 <= i < before.frames@.len() ==> !((#[trigger] before.frames@[i]).started && before.frames@[i].group == h),
        forall|i: int| n1 <= i < after.frames@.len() ==> !((#[trigger] after.frames@[i]).started && after.frames@[i].group == h),
    ensures
        walked(after, h) == walked(before, h),
{
    if walked(before, h) {
        let i = choose|i: int| 0 <= i < before.frames@.len() && (#[trigger] before.frames@[i]).group == h && before.frames@[i].started;
        assert(i < n1);
        assert(after.frames@[i] == before.frames@[i]);
    }
    if walked(after, h) {
        let i = choose|i: int| 0 <= i < after.frames@.len() && (#[trigger] after.frames@[i]).group == h && after.frames@[i].started;
        assert(i < n1);
        assert(after.frames@[i] == before.frames@[i]);
    }
}

#[verifier::rlimit(80)]
proof fn lemma_group_decreases(v: ValidatedConfig, plan: ValidationPlan, before: Execution, after: Execution)
    requires
        before.wf(v, plan),
        after.wf(v, plan),
        before.direct is None,
        before.suite_run is None,
        before.frames@.len() > 0,
        crate::execution::run::group_transition(plan, before, after),
        crate::execution::completion::walks_settled(plan, before),
        frames_chain(plan, before),
        plan_acyclic(plan),
    ensures
        lex_less(run_measure(plan, after), run_measure(plan, before)),
{
    let n = before.frames@.len() as int;
    let frame = before.frames@[n - 1];
    let rest = before.frames@.drop_last();
    let group = plan.groups@[frame.group as int];
    let g = frame.group as int;
    let len = before.group_results@.len();
    let a = run_measure(plan, after);
    let b = run_measure(plan, before);
    assert(frame == before.frames@.last());
    assert(before.frames@ == rest.push(frame));
    lemma_stack_push(plan, rest, frame);
    assert forall|i: int| 0 <= i < rest.len() implies #[trigger] rest[i] == before.frames@[i] by {}
    assert(g < plan.groups@.len() && frame.next <= group.members@.len());
    assert(group.members@.len() == group.members.len());
    if !frame.started {
        if before.group_results@[g] is Some {
            assert(after.frames@ == rest);
            assert forall|h: int| 0 <= h < len implies #[trigger] idle_group(after)(h) == idle_group(before)(h) by {
                lemma_walked_tails(before, after, n - 1, h);
            }
            assert forall|h: int| 0 <= h < len implies #[trigger] unsettled_group(after)(h) == unsettled_group(before)(h) by {}
            lemma_count_same(len, unsettled_group(before), unsettled_group(after));
            lemma_count_same(len, idle_group(before), idle_group(after));
            assert(unsettled_suite(after) =~= unsettled_suite(before));
            assert(a[3] < b[3]);
            lemma_lex_at(a, b, 3);
        } else {
            let pushed = GroupFrame { started: true, ..frame };
            assert(after.frames@ == rest.push(pushed));
            assert(after.frames@[n - 1] == pushed);
            assert forall|i: int| 0 <= i < n - 1 implies !((#[trigger] before.frames@[i]).started && before.frames@[i].group == g) by {
                lemma_frames_distinct(v, plan, before, i, n - 1);
            }
            assert(!walked(before, g));
            assert(walked(after, g));
            assert forall|h: int| 0 <= h < len && h != g implies #[trigger] idle_group(after)(h) == idle_group(before)(h) by {
                lemma_walked_tails(before, after, n - 1, h);
            }
            assert forall|h: int| 0 <= h < len && #[trigger] idle_group(after)(h) implies idle_group(before)(h) by {
                if h != g {
                    assert(idle_group(after)(h) == idle_group(before)(h));
                }
            }
            assert forall|h: int| 0 <= h < len implies #[trigger] unsettled_group(after)(h) == unsettled_group(before)(h) by {}
            lemma_count_same(len, unsettled_group(before), unsettled_group(after));
            lemma_count_less(len, idle_group(before), idle_group(after), g);
            lemma_lex_at(a, b, 1);
        }
    } else if frame.next < group.members@.len() {
        let advanced = GroupFrame { next: (frame.next + 1) as usize, ..frame };
        let m = frame.next as int;
        let base = rest.push(advanced);
        lemma_stack_push(plan, rest, advanced);
        assert(frame_work(plan, advanced) + 2 == frame_work(plan, frame));
        assert(after.frames@.len() >= n);
        let child_pushed = after.frames@.len() == n + 1;
        assert(after.frames@.subrange(0, n) == base && (after.frames@.len() == n || (after.frames@.len() == n + 1
            && !after.frames@.last().started))) by {
            match group.members@[m] {
                GroupMemberRef::Group { id } => {
                    match first_where(plan.groups@, |g: crate::planning::PlannedGroup| g.id@ == id@) {
                        Some(h) => if before.group_results@[h] is None {
                            assert(after.frames@.subrange(0, n) =~= after.frames@.drop_last());
                        } else {
                            assert(after.frames@.subrange(0, n) =~= after.frames@);
                        },
                        None => {
                            assert(after.frames@.subrange(0, n) =~= after.frames@);
                        },
                    }
                },
                GroupMemberRef::Suite { .. } => {
                    assert(after.frames@.subrange(0, n) =~= after.frames@);
                },
            }
        }
        assert forall|i: int| 0 <= i < n implies #[trigger] after.frames@[i] == base[i] by {
            assert(after.frames@.subrange(0, n)[i] == after.frames@[i]);
        }
        if after.frames@.len() == n {
            assert(after.frames@ =~= base);
            assert(stack_work(plan, after.frames@) + 2 == stack_work(plan, before.frames@));
        } else {
            assert(after.frames@ =~= base.push(after.frames@.last()));
            lemma_stack_push(plan, base, after.frames@.last());
            assert(frame_work(plan, after.frames@.last()) == 1);
            assert(stack_work(plan, after.frames@) + 1 == stack_work(plan, before.frames@));
        }
        assert forall|h: int| 0 <= h < len implies #[trigger] idle_group(after)(h) == idle_group(before)(h) by {
            if h == g {
                assert(before.frames@[n - 1].started && before.frames@[n - 1].group == g);
                assert(after.frames@[n - 1] == advanced);
                assert(walked(before, g));
                assert(walked(after, g));
            } else {
                assert forall|i: int| n - 1 <= i < after.frames@.len() implies !((#[trigger] after.frames@[i]).started
                    && after.frames@[i].group == h) by {
                    if i == n - 1 {
                        assert(after.frames@[i] == advanced);
                    } else {
                        assert(after.frames@[i] == after.frames@.last());
                    }
                }
                assert forall|i: int| 0 <= i < n - 1 implies #[trigger] after.frames@[i] == before.frames@[i] by {
                    assert(after.frames@[i] == base[i]);
                }
                lemma_walked_tails(before, after, n - 1, h);
            }
        }
        assert forall|h: int| 0 <= h < len implies #[trigger] unsettled_group(after)(h) == unsettled_group(before)(h) by {}
        lemma_count_same(len, unsettled_group(before), unsettled_group(after));
        lemma_count_same(len, idle_group(before), idle_group(after));
        assert(unsettled_suite(after) =~= unsettled_suite(before));
        assert(a[3] < b[3]);
        lemma_lex_at(a, b, 3);
    } else {
        assert(after.frames@ == rest);
        assert forall|h: int| 0 <= h < len && h != g implies #[trigger] idle_group(after)(h) == idle_group(before)(h) by {
            lemma_walked_tails(before, after, n - 1, h);
        }
        if before.group_results@[g] is None {
            assert forall|h: int| 0 <= h < len && #[trigger] unsettled_group(after)(h) implies unsettled_group(before)(h) by {}
            lemma_count_less(len, unsettled_group(before), unsettled_group(after), g);
            lemma_lex_at(a, b, 0);
        } else {
            assert forall|h: int| 0 <= h < len implies #[trigger] unsettled_group(after)(h) == unsettled_group(before)(h) by {}
            assert forall|h: int| 0 <= h < len implies #[trigger] idle_group(after)(h) == idle_group(before)(h) by {
                if h == g {
                    assert(!idle_group(after)(h));
                }
            }
            lemma_count_same(len, unsettled_group(before), unsettled_group(after));
            lemma_count_same(len, idle_group(before), idle_group(after));
            assert(unsettled_suite(after) =~= unsettled_suite(before));
            assert(a[3] < b[3]);
            lemma_lex_at(a, b, 3);
        }
    }
}


/// A plan without groups has no cycle of member links.
pub proof fn lemma_groupless_plan_acyclic(plan: ValidationPlan)
    requires
        plan.groups@.len() == 0,
    ensures
        plan_acyclic(plan),
{
    assert forall|chain: Seq<int>| !#[trigger] group_chain(plan, chain) by {
        if group_chain(plan, chain) {
            let c0 = chain[0];
            assert(0 <= c0 < plan.groups@.len());
        }
    }
}

/// Every step that does not finish a run takes it strictly lower in
/// `run_measure`, in lexicographic order on tuples of natural numbers,
/// which has no infinite descent; so a run of a plan without cycles of
/// member links finishes. Each step also keeps the walks under way linked.
pub proof fn lemma_step_decreases(
    v: ValidatedConfig,
    plan: ValidationPlan,
    tools: Seq<(String, Status)>,
    cancelled: bool,
    output: Option<ProcessOutput>,
    before: Execution,
    after: Execution,
    r: ExecutionStep,
)
    requires
        before.wf(v, plan),
        after.wf(v, plan),
        execution_step(v, plan, tools, cancelled, output, before, after, r),
        crate::execution::completion::walks_settled(plan, before),
        frames_chain(plan, before),
        plan_acyclic(plan),
        !(r is Finished),
    ensures
        lex_less(run_measure(plan, after), run_measure(plan, before)),
        frames_chain(plan, after),
{
    lemma_chain_kept(v, plan, tools, cancelled, output, before, after, r);
    if before.direct is Some {
        lemma_direct_decreases(v, plan, tools, cancelled, output, before, after, r);
    } else if before.suite_run is Some {
        lemma_suite_decreases(v, plan, tools, cancelled, output, before, after, r);
    } else {
        lemma_group_decreases(v, plan, before, after);
    }
}

} // verus!
