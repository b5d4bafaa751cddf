//! Immutable planning for group, suite, and direct-check selections.
//!
//! A plan is derived from a validated configuration alone: which groups and
//! suites a selection reaches, with which levels, arguments and directories,
//! and which concrete check invocations it contains.

use vstd::prelude::*;
use crate::config::parameters::{expand, expansion};
use crate::config::validation::{
    check_named, clone_strings, group_named, lemma_group_children, lemma_invocation_declared, lemma_member_declared,
    lemma_member_groups, member_groups, suite_named, CheckedConfig, ValidatedConfig,
};
use crate::contracts::config::{Config, GroupConfig, GroupMemberRef, ParameterValue, SuiteCheckConfig};
use crate::contracts::report::ValidationSelection;
use crate::dag::{
    children_of, lemma_children_edge, lemma_closed_set_contains_reachable, lemma_distinct_within,
    lemma_edge_children, lemma_reaches_step, lemma_sorted_no_duplicates, reaches, text_edge, text_path,
};
use crate::text::{
    concat2, entry_of, extend_strings, insert_sorted, joined, keys_of, lemma_joined_take, owned, strictly_sorted, views, Keyed,
};

verus! {

/// Stable identity for a direct or suite-contextual check execution.
#[derive(Clone, Debug)]
pub enum CheckExecutionKey {
    /// A reusable check invoked inside a suite.
    Suite {
        /// Identifier of the suite that owns the invocation.
        suite_id: String,
        /// Identifier of the invoked check.
        check_id: String,
    },
    /// A check invoked directly at the workspace root.
    Direct {
        /// Identifier of the invoked check.
        check_id: String,
    },
}

/// The owning suite, if any, and the check of an execution key.
pub open spec fn key_view(key: CheckExecutionKey) -> (Option<Seq<char>>, Seq<char>) {
    match key {
        CheckExecutionKey::Suite { suite_id, check_id } => (Some(suite_id@), check_id@),
        CheckExecutionKey::Direct { check_id } => (None, check_id@),
    }
}

/// The views of a sequence of execution keys.
pub open spec fn key_views(keys: Seq<CheckExecutionKey>) -> Seq<(Option<Seq<char>>, Seq<char>)> {
    Seq::new(keys.len(), |i: int| key_view(keys[i]))
}

/// Typed node carried by active execution paths.
#[derive(Clone, Debug)]
pub enum ExecutionNodeRef {
    /// A group on the active execution path.
    Group {
        /// Stable group identifier.
        id: String,
    },
    /// A suite on the active execution path.
    Suite {
        /// Stable suite identifier.
        id: String,
    },
}

/// The identifier of a node, independently of its kind.
pub open spec fn node_id(node: ExecutionNodeRef) -> Seq<char> {
    match node {
        ExecutionNodeRef::Group { id } => id@,
        ExecutionNodeRef::Suite { id } => id@,
    }
}

impl ExecutionNodeRef {
    /// Returns the referenced group or suite ID.
    pub fn id(&self) -> (r: &str)
        ensures
            r@ == node_id(*self),
    {
        match self {
            ExecutionNodeRef::Group { id } => id.as_str(),
            ExecutionNodeRef::Suite { id } => id.as_str(),
        }
    }
}

/// Whether a member is a group, and the identifier it references.
pub open spec fn member_view(member: GroupMemberRef) -> (bool, Seq<char>) {
    match member {
        GroupMemberRef::Group { id } => (true, id@),
        GroupMemberRef::Suite { id } => (false, id@),
    }
}

/// The views of a sequence of members.
pub open spec fn member_views(members: Seq<GroupMemberRef>) -> Seq<(bool, Seq<char>)> {
    Seq::new(members.len(), |i: int| member_view(members[i]))
}

/// Whether a value is a single argument, and its arguments.
pub open spec fn value_view(value: ParameterValue) -> (bool, Seq<Seq<char>>) {
    match value {
        ParameterValue::Single(text) => (true, seq![text@]),
        ParameterValue::Multiple(values) => (false, views(values@)),
    }
}

/// The views of parameter bindings.
pub open spec fn binding_views(bindings: Seq<(String, ParameterValue)>) -> Seq<(Seq<char>, (bool, Seq<Seq<char>>))> {
    Seq::new(bindings.len(), |i: int| (bindings[i].0@, value_view(bindings[i].1)))
}

/// Group metadata and ordered members prepared for execution.
#[derive(Clone, Debug)]
pub struct PlannedGroup {
    pub id: String,
    pub label: String,
    pub description: String,
    pub members: Vec<GroupMemberRef>,
    pub level: usize,
}

impl PlannedGroup {
    /// Returns the stable group identifier.
    pub fn id(&self) -> (r: &str)
        ensures
            r@ == self.id@,
    {
        self.id.as_str()
    }

    /// Returns the human-readable group name.
    pub fn label(&self) -> (r: &str)
        ensures
            r@ == self.label@,
    {
        self.label.as_str()
    }

    /// Returns the human-readable group description.
    pub fn description(&self) -> (r: &str)
        ensures
            r@ == self.description@,
    {
        self.description.as_str()
    }

    /// Returns ordered group and suite references.
    pub fn members(&self) -> (r: &[GroupMemberRef])
        ensures
            r@ == self.members@,
    {
        self.members.as_slice()
    }

    /// Returns the derived hierarchy level, starting at one for leaf groups.
    pub fn level(&self) -> (r: usize)
        ensures
            r == self.level,
    {
        self.level
    }
}

/// Executable suite metadata with a resolved working directory.
#[derive(Clone, Debug)]
pub struct PlannedSuite {
    pub id: String,
    pub label: String,
    pub description: String,
    pub checks: Vec<PlannedSuiteCheck>,
    pub working_directory: String,
    pub relative_working_directory: String,
}

impl PlannedSuite {
    /// Returns the stable suite identifier.
    pub fn id(&self) -> (r: &str)
        ensures
            r@ == self.id@,
    {
        self.id.as_str()
    }

    /// Returns the human-readable suite name.
    pub fn label(&self) -> (r: &str)
        ensures
            r@ == self.label@,
    {
        self.label.as_str()
    }

    /// Returns the human-readable suite description.
    pub fn description(&self) -> (r: &str)
        ensures
            r@ == self.description@,
    {
        self.description.as_str()
    }

    /// Returns the ordered contextual check invocations.
    pub fn checks(&self) -> (r: &[PlannedSuiteCheck])
        ensures
            r@ == self.checks@,
    {
        self.checks.as_slice()
    }

    /// Returns the canonical directory used to execute suite checks.
    pub fn working_directory(&self) -> (r: &str)
        ensures
            r@ == self.working_directory@,
    {
        self.working_directory.as_str()
    }

    /// Returns the portable workspace-relative execution directory.
    pub fn relative_working_directory(&self) -> (r: &str)
        ensures
            r@ == self.relative_working_directory@,
    {
        self.relative_working_directory.as_str()
    }
}

/// Resolved arguments, bindings, and dependencies for one reusable check.
#[derive(Clone, Debug)]
pub struct PlannedSuiteCheck {
    pub check_id: String,
    pub arguments: Vec<String>,
    pub parameters: Vec<(String, ParameterValue)>,
    pub depends_on: Vec<String>,
}

impl PlannedSuiteCheck {
    /// Returns the stable reusable check identifier.
    pub fn check_id(&self) -> (r: &str)
        ensures
            r@ == self.check_id@,
    {
        self.check_id.as_str()
    }

    /// Returns the fully expanded argument vector, excluding the executable.
    pub fn arguments(&self) -> (r: &[String])
        ensures
            r@ == self.arguments@,
    {
        self.arguments.as_slice()
    }

    /// Returns the parameter bindings used to expand the invocation, by name.
    pub fn parameters(&self) -> (r: &[(String, ParameterValue)])
        ensures
            r@ == self.parameters@,
    {
        self.parameters.as_slice()
    }

    /// Returns earlier checks required by this invocation.
    pub fn dependencies(&self) -> (r: &[String])
        ensures
            r@ == self.depends_on@,
    {
        self.depends_on.as_slice()
    }
}

/// One contextual check invocation in a validation plan.
#[derive(Clone, Debug)]
pub struct PlannedCheckExecution {
    pub key: CheckExecutionKey,
    pub check_id: String,
    pub suite_id: Option<String>,
}

impl PlannedCheckExecution {
    /// Returns the stable contextual identity of this invocation.
    pub fn key(&self) -> (r: &CheckExecutionKey)
        ensures
            *r == self.key,
    {
        &self.key
    }

    /// Returns the reusable check identifier.
    pub fn check_id(&self) -> (r: &str)
        ensures
            r@ == self.check_id@,
    {
        self.check_id.as_str()
    }

    /// Returns the owning suite identifier, or `None` for direct checks.
    pub fn suite_id(&self) -> (r: Option<&str>)
        ensures
            match self.suite_id {
                Some(id) => r matches Some(s) && s@ == id@,
                None => r is None,
            },
    {
        match &self.suite_id {
            Some(id) => Some(id.as_str()),
            None => None,
        }
    }
}

/// Immutable closure selected for one validation run.
#[derive(Clone, Debug)]
pub struct ValidationPlan {
    pub selection: ValidationSelection,
    pub groups: Vec<PlannedGroup>,
    pub suites: Vec<PlannedSuite>,
    pub check_executions: Vec<PlannedCheckExecution>,
    /// For each planned group, the concrete invocations of the suites it reaches.
    pub descendant_check_executions: Vec<Vec<CheckExecutionKey>>,
    /// For each planned suite, its concrete invocations.
    pub suite_check_executions: Vec<Vec<CheckExecutionKey>>,
}

impl ValidationPlan {
    /// The per-suite and per-group execution lists follow the planned suites and groups.
    pub open spec fn wf(&self) -> bool {
        &&& self.suite_check_executions@.len() == self.suites@.len()
        &&& self.descendant_check_executions@.len() == self.groups@.len()
    }

    /// Returns the selection represented by this immutable plan.
    pub fn selection(&self) -> (r: &ValidationSelection)
        ensures
            *r == self.selection,
    {
        &self.selection
    }

    /// Returns reached groups in deterministic planning order.
    pub fn groups(&self) -> (r: &[PlannedGroup])
        ensures
            r@ == self.groups@,
    {
        self.groups.as_slice()
    }

    /// Returns reached suites in deterministic planning order.
    pub fn suites(&self) -> (r: &[PlannedSuite])
        ensures
            r@ == self.suites@,
    {
        self.suites.as_slice()
    }

    /// Returns every concrete check invocation in deterministic order.
    pub fn check_executions(&self) -> (r: &[PlannedCheckExecution])
        ensures
            r@ == self.check_executions@,
    {
        self.check_executions.as_slice()
    }
}

/// Failure to construct a valid execution plan from validated configuration.
#[derive(Clone, Debug)]
pub enum PlanningError {
    /// Neither a group nor a suite matches the requested target.
    TargetNotFound {
        /// Requested target identifier.
        id: String,
    },
    /// The requested group is not declared.
    GroupNotFound {
        /// Requested group identifier.
        id: String,
    },
    /// The requested suite is not declared.
    SuiteNotFound {
        /// Requested suite identifier.
        id: String,
    },
    /// The requested direct check is not declared.
    CheckNotFound {
        /// Requested check identifier.
        id: String,
    },
    /// Validated group relationships could not be converted into levels.
    InconsistentGraph,
}

/// The human-readable rendering of a planning error.
pub open spec fn planning_message(error: PlanningError) -> Seq<char> {
    match error {
        PlanningError::TargetNotFound { id } => "group or suite "@ + id@ + " does not exist"@,
        PlanningError::GroupNotFound { id } => "group "@ + id@ + " does not exist"@,
        PlanningError::SuiteNotFound { id } => "suite "@ + id@ + " does not exist"@,
        PlanningError::CheckNotFound { id } => "check "@ + id@ + " does not exist"@,
        PlanningError::InconsistentGraph => "group levels could not be derived"@,
    }
}

impl PlanningError {
    /// Renders the error for people.
    pub fn message(&self) -> (r: String)
        ensures
            r@ == planning_message(*self),
    {
        match self {
            PlanningError::TargetNotFound { id } => {
                let mut m = concat2("group or suite ", id.as_str());
                m.append(" does not exist");
                m
            },
            PlanningError::GroupNotFound { id } => {
                let mut m = concat2("group ", id.as_str());
                m.append(" does not exist");
                m
            },
            PlanningError::SuiteNotFound { id } => {
                let mut m = concat2("suite ", id.as_str());
                m.append(" does not exist");
                m
            },
            PlanningError::CheckNotFound { id } => {
                let mut m = concat2("check ", id.as_str());
                m.append(" does not exist");
                m
            },
            PlanningError::InconsistentGraph => owned("group levels could not be derived"),
        }
    }
}

// ---------------------------------------------------------------------------
// Reachability.
// ---------------------------------------------------------------------------

/// The views of a traversal stack.
pub open spec fn stack_views(stack: Seq<(bool, String)>) -> Seq<(bool, Seq<char>)> {
    Seq::new(stack.len(), |i: int| (stack[i].0, stack[i].1@))
}

/// `group` lists the suite `s` among its members.
pub open spec fn has_suite_member(group: GroupConfig, s: Seq<char>) -> bool {
    exists|j: int| 0 <= j < group.members@.len() && (#[trigger] group.members@[j] matches GroupMemberRef::Suite { id } && id@ == s)
}

/// Some group reachable from `root` lists the suite `s` as a member.
pub open spec fn suites_reached(c: CheckedConfig, root: Seq<char>, s: Seq<char>) -> bool {
    exists|g: Seq<char>| reaches(c.group_graph@, root, g) && #[trigger] has_suite_member(group_named(c.config, g), s)
}

/// The suites that some group of `groups` lists as members.
pub open spec fn suites_of_groups(c: CheckedConfig, groups: Seq<Seq<char>>, s: Seq<char>) -> bool {
    exists|g: Seq<char>| groups.contains(g) && #[trigger] has_suite_member(group_named(c.config, g), s)
}

/// The members of a group as pending nodes, last member first: the walk
/// takes nodes from the end, so the first member is next.
pub open spec fn member_nodes(members: Seq<GroupMemberRef>) -> Seq<(bool, Seq<char>)> {
    Seq::new(members.len(), |k: int| member_view(members[members.len() - 1 - k]))
}

/// The groups and the suites that a depth-first walk meets for the first
/// time, taking nodes from the end of `stack`: a group not seen before is
/// listed and its members are walked in declaration order; a suite not seen
/// before is listed. `bound` limits how many groups are ever listed; a walk
/// from a declared group with the number of declared groups as bound never
/// reaches it.
pub open spec fn reach_walk(
    c: CheckedConfig,
    stack: Seq<(bool, Seq<char>)>,
    groups: Seq<Seq<char>>,
    suites: Seq<Seq<char>>,
    bound: nat,
) -> (Seq<Seq<char>>, Seq<Seq<char>>)
    decreases bound - groups.len(), stack.len(),
{
    if stack.len() == 0 {
        (Seq::empty(), Seq::empty())
    } else {
        let (is_group, id) = stack.last();
        let rest = stack.drop_last();
        if is_group {
            if groups.contains(id) || groups.len() >= bound {
                reach_walk(c, rest, groups, suites, bound)
            } else {
                let next = reach_walk(c, rest + member_nodes(group_named(c.config, id).members@), groups.push(id), suites, bound);
                (seq![id] + next.0, next.1)
            }
        } else if suites.contains(id) {
            reach_walk(c, rest, groups, suites, bound)
        } else {
            let next = reach_walk(c, rest, groups, suites.push(id), bound);
            (next.0, seq![id] + next.1)
        }
    }
}

/// The groups reachable from `root` in depth-first preorder, and the suites
/// in the order that walk first meets them.
pub open spec fn reach_order(c: CheckedConfig, root: Seq<char>) -> (Seq<Seq<char>>, Seq<Seq<char>>) {
    reach_walk(c, seq![(true, root)], Seq::empty(), Seq::empty(), c.config.groups@.len())
}

fn push_members(stack: &mut Vec<(bool, String)>, members: &Vec<GroupMemberRef>)
    ensures
        stack_views(final(stack)@) == stack_views(old(stack)@) + Seq::new(
            members@.len(),
            |k: int| member_view(members@[members@.len() - 1 - k]),
        ),
        stack_views(final(stack)@) == stack_views(old(stack)@) + member_nodes(members@),
{
    let ghost start = stack_views(stack@);
    let ghost added = Seq::new(members@.len(), |k: int| member_view(members@[members@.len() - 1 - k]));
    let mut k: usize = 0;
    while k < members.len()
        invariant
            k <= members@.len(),
            added == Seq::new(members@.len(), |k: int| member_view(members@[members@.len() - 1 - k])),
            stack_views(stack@) == start + added.take(k as int),
        decreases members@.len() - k,
    {
        let member = &members[members.len() - 1 - k];
        let entry = match member {
            GroupMemberRef::Group { id } => (true, owned(id.as_str())),
            GroupMemberRef::Suite { id } => (false, owned(id.as_str())),
        };
        let ghost before = stack@;
        stack.push(entry);
        assert(stack@ == before.push(entry));
        assert(stack_views(stack@) =~= stack_views(before).push((entry.0, entry.1@)));
        assert(added.take(k + 1) =~= added.take(k as int).push(added[k as int]));
        k = k + 1;
    }
    assert(added.take(members@.len() as int) =~= added);
}

/// Members of the group named `x` are on the stack or already reached.
pub open spec fn closed_over(
    c: CheckedConfig,
    x: Seq<char>,
    seen_groups: Seq<Seq<char>>,
    seen_suites: Seq<Seq<char>>,
    stack: Seq<(bool, Seq<char>)>,
) -> bool {
    let members = group_named(c.config, x).members@;
    forall|j: int|
        0 <= j < members.len() ==> match #[trigger] members[j] {
            GroupMemberRef::Group { id } => seen_groups.contains(id@) || stack.contains((true, id@)),
            GroupMemberRef::Suite { id } => seen_suites.contains(id@) || stack.contains((false, id@)),
        }
}

proof fn lemma_suites_monotone(c: CheckedConfig, small: Seq<Seq<char>>, large: Seq<Seq<char>>, s: Seq<char>)
    requires
        suites_of_groups(c, small, s),
        forall|y: Seq<char>| small.contains(y) ==> large.contains(y),
    ensures
        suites_of_groups(c, large, s),
{
    let w = choose|w: Seq<char>| small.contains(w) && #[trigger] has_suite_member(group_named(c.config, w), s);
    assert(large.contains(w));
}

/// The members of the group at position `p` are edges of the nesting graph,
/// and name declared nodes.
proof fn lemma_member_edge(c: CheckedConfig, root: Seq<char>, p: int, j: int)
    requires
        c.wf(),
        0 <= p < c.config.groups@.len(),
        0 <= j < c.config.groups@[p].members@.len(),
        reaches(c.group_graph@, root, c.config.groups@[p].id@),
    ensures
        match c.config.groups@[p].members@[j] {
            GroupMemberRef::Group { id } => reaches(c.group_graph@, root, id@) && keys_of(c.config.groups@).contains(id@),
            GroupMemberRef::Suite { id } => has_suite_member(c.config.groups@[p], id@),
        },
{
    let members = c.config.groups@[p].members@;
    let x = c.config.groups@[p].id@;
    lemma_member_declared(c, p, j);
    match members[j] {
        GroupMemberRef::Group { id } => {
            lemma_group_children(c, p);
            lemma_member_groups(members, id@);
            assert(member_groups(members).contains(id@));
            let w = choose|w: int| 0 <= w < children_of(c.group_graph@, x).len() && children_of(c.group_graph@, x)[w] == id@;
            lemma_children_edge(c.group_graph@, x, w);
            lemma_reaches_step(c.group_graph@, root, x, id@);
        },
        GroupMemberRef::Suite { id } => {
            assert(members[j] matches GroupMemberRef::Suite { id: m } && m@ == id@);
        },
    }
}

proof fn lemma_group_order_step(
    c: CheckedConfig,
    root: Seq<char>,
    old_seen: Seq<String>,
    seen: Seq<String>,
    old_order: Seq<Seq<char>>,
    order: Seq<Seq<char>>,
    suites: Seq<Seq<char>>,
    old_stack: Seq<(bool, Seq<char>)>,
    popped: Seq<(bool, Seq<char>)>,
    stack: Seq<(bool, Seq<char>)>,
    x: Seq<char>,
    p: int,
)
    requires
        c.wf(),
        keys_of(c.config.groups@).contains(root),
        forall|y: Seq<char>| keys_of(old_seen).contains(y) <==> old_order.contains(y),
        forall|y: Seq<char>| keys_of(seen).contains(y) <==> (keys_of(old_seen).contains(y) || y == x),
        !keys_of(old_seen).contains(x),
        old_order.no_duplicates(),
        order == old_order.push(x),
        old_order.len() == 0 ==> old_stack == seq![(true, root)],
        old_order.len() >= 1 ==> old_order[0] == root,
        forall|y: Seq<char>| #[trigger] old_order.contains(y) ==> reaches(c.group_graph@, root, y) && keys_of(c.config.groups@).contains(y),
        old_stack.len() > 0,
        popped == old_stack.drop_last(),
        old_stack[old_stack.len() - 1] == (true, x),
        reaches(c.group_graph@, root, x),
        0 <= p < c.config.groups@.len(),
        c.config.groups@[p].id@ == x,
        entry_of(c.config.groups@, x) == p,
        stack == popped + Seq::new(
            c.config.groups@[p].members@.len(),
            |k: int| member_view(c.config.groups@[p].members@[c.config.groups@[p].members@.len() - 1 - k]),
        ),
        forall|i: int|
            0 <= i < old_stack.len() && (#[trigger] old_stack[i]).0 ==> reaches(c.group_graph@, root, old_stack[i].1) && keys_of(
                c.config.groups@,
            ).contains(old_stack[i].1),
        forall|i: int| 0 <= i < old_stack.len() && !(#[trigger] old_stack[i]).0 ==> suites_of_groups(c, old_order, old_stack[i].1),
        forall|s: Seq<char>| #[trigger] suites.contains(s) ==> suites_of_groups(c, old_order, s),
        forall|y: Seq<char>| #[trigger] old_order.contains(y) ==> closed_over(c, y, old_order, suites, old_stack),
    ensures
        forall|y: Seq<char>| keys_of(seen).contains(y) <==> order.contains(y),
        order.no_duplicates(),
        order.len() >= 1 && order[0] == root,
        forall|y: Seq<char>| #[trigger] order.contains(y) ==> reaches(c.group_graph@, root, y) && keys_of(c.config.groups@).contains(y),
        forall|i: int|
            0 <= i < stack.len() && (#[trigger] stack[i]).0 ==> reaches(c.group_graph@, root, stack[i].1) && keys_of(
                c.config.groups@,
            ).contains(stack[i].1),
        forall|i: int| 0 <= i < stack.len() && !(#[trigger] stack[i]).0 ==> suites_of_groups(c, order, stack[i].1),
        forall|s: Seq<char>| #[trigger] suites.contains(s) ==> suites_of_groups(c, order, s),
        forall|y: Seq<char>| #[trigger] order.contains(y) ==> closed_over(c, y, order, suites, stack),
{
    let group = c.config.groups@[p];
    let members = group.members@;
    let m = members.len();
    assert(group_named(c.config, x) == group);
    assert forall|y: Seq<char>| old_order.contains(y) implies order.contains(y) by {
        let w = choose|w: int| 0 <= w < old_order.len() && old_order[w] == y;
        assert(order[w] == y);
    }
    assert(order[order.len() - 1] == x);
    assert forall|y: Seq<char>| keys_of(seen).contains(y) <==> order.contains(y) by {
        if order.contains(y) {
            let w = choose|w: int| 0 <= w < order.len() && order[w] == y;
            if w < old_order.len() {
                assert(old_order[w] == y);
                assert(old_order.contains(y));
                assert(keys_of(old_seen).contains(y));
            } else {
                assert(y == x);
            }
        }
        if keys_of(seen).contains(y) {
            if y == x {
            } else {
                assert(keys_of(old_seen).contains(y));
                assert(old_order.contains(y));
            }
        }
    }
    assert(!old_order.contains(x));
    assert forall|i: int, j: int| 0 <= i < order.len() && 0 <= j < order.len() && i != j implies order[i] != order[j] by {
        if i < old_order.len() && j < old_order.len() {
        } else if i < old_order.len() {
            assert(old_order.contains(order[i]));
        } else if j < old_order.len() {
            assert(old_order.contains(order[j]));
        }
    }
    if old_order.len() == 0 {
        assert(x == root);
    } else {
        assert(order[0] == old_order[0]);
    }
    assert forall|y: Seq<char>| #[trigger] order.contains(y) implies reaches(c.group_graph@, root, y) && keys_of(c.config.groups@).contains(y) by {
        if y != x {
            let w = choose|w: int| 0 <= w < order.len() && order[w] == y;
            assert(w < old_order.len());
            assert(old_order[w] == y);
            assert(old_order.contains(y));
        } else {
            let last = old_stack.len() - 1;
            assert(old_stack[last].0);
            assert(old_stack[last].1 == x);
        }
    }
    assert forall|s: Seq<char>| suites_of_groups(c, old_order, s) implies suites_of_groups(c, order, s) by {
        lemma_suites_monotone(c, old_order, order, s);
    }
    assert forall|i: int| 0 <= i < stack.len() && (#[trigger] stack[i]).0 implies reaches(c.group_graph@, root, stack[i].1) && keys_of(
        c.config.groups@,
    ).contains(stack[i].1) by {
        if i < popped.len() {
            assert(stack[i] == old_stack[i]);
        } else {
            let j = m - 1 - (i - popped.len());
            assert(stack[i] == member_view(members[j]));
            lemma_member_edge(c, root, p, j);
        }
    }
    assert forall|i: int| 0 <= i < stack.len() && !(#[trigger] stack[i]).0 implies suites_of_groups(c, order, stack[i].1) by {
        if i < popped.len() {
            assert(stack[i] == old_stack[i]);
        } else {
            let j = m - 1 - (i - popped.len());
            assert(stack[i] == member_view(members[j]));
            lemma_member_edge(c, root, p, j);
            assert(has_suite_member(group_named(c.config, x), stack[i].1));
        }
    }
    assert forall|y: Seq<char>| #[trigger] order.contains(y) implies closed_over(c, y, order, suites, stack) by {
        let ms = group_named(c.config, y).members@;
        assert forall|j: int| 0 <= j < ms.len() implies match #[trigger] ms[j] {
            GroupMemberRef::Group { id } => order.contains(id@) || stack.contains((true, id@)),
            GroupMemberRef::Suite { id } => suites.contains(id@) || stack.contains((false, id@)),
        } by {
            if y == x {
                let i = popped.len() + (m - 1 - j);
                assert(stack[i] == member_view(members[j]));
            } else {
                assert(old_order.contains(y));
                assert(closed_over(c, y, old_order, suites, old_stack));
                match ms[j] {
                    GroupMemberRef::Group { id } => {
                        if !old_order.contains(id@) {
                            let w = choose|w: int| 0 <= w < old_stack.len() && old_stack[w] == (true, id@);
                            if w < popped.len() {
                                assert(stack[w] == (true, id@));
                            }
                        }
                    },
                    GroupMemberRef::Suite { id } => {
                        if !suites.contains(id@) {
                            let w = choose|w: int| 0 <= w < old_stack.len() && old_stack[w] == (false, id@);
                            assert(stack[w] == (false, id@));
                        }
                    },
                }
            }
        }
    }
}

proof fn lemma_suite_order_step(
    c: CheckedConfig,
    order: Seq<Seq<char>>,
    old_suites: Seq<Seq<char>>,
    suites: Seq<Seq<char>>,
    old_stack: Seq<(bool, Seq<char>)>,
    popped: Seq<(bool, Seq<char>)>,
    s: Seq<char>,
)
    requires
        old_stack.len() > 0,
        popped == old_stack.drop_last(),
        old_stack[old_stack.len() - 1] == (false, s),
        suites == old_suites || suites == old_suites.push(s),
        suites.contains(s),
        forall|i: int| 0 <= i < old_stack.len() && !(#[trigger] old_stack[i]).0 ==> suites_of_groups(c, order, old_stack[i].1),
        forall|t: Seq<char>| #[trigger] old_suites.contains(t) ==> suites_of_groups(c, order, t),
        forall|y: Seq<char>| #[trigger] order.contains(y) ==> closed_over(c, y, order, old_suites, old_stack),
    ensures
        forall|t: Seq<char>| #[trigger] suites.contains(t) ==> suites_of_groups(c, order, t),
        forall|y: Seq<char>| #[trigger] order.contains(y) ==> closed_over(c, y, order, suites, popped),
{
    assert forall|t: Seq<char>| old_suites.contains(t) implies suites.contains(t) by {
        let w = choose|w: int| 0 <= w < old_suites.len() && old_suites[w] == t;
        assert(suites[w] == t);
    }
    assert forall|t: Seq<char>| #[trigger] suites.contains(t) implies suites_of_groups(c, order, t) by {
        if !old_suites.contains(t) {
            let w = choose|w: int| 0 <= w < suites.len() && suites[w] == t;
            assert(t == s);
            assert(!old_stack[old_stack.len() - 1].0);
        }
    }
    assert forall|y: Seq<char>| #[trigger] order.contains(y) implies closed_over(c, y, order, suites, popped) by {
        assert(closed_over(c, y, order, old_suites, old_stack));
        let ms = group_named(c.config, y).members@;
        assert forall|j: int| 0 <= j < ms.len() implies match #[trigger] ms[j] {
            GroupMemberRef::Group { id } => order.contains(id@) || popped.contains((true, id@)),
            GroupMemberRef::Suite { id } => suites.contains(id@) || popped.contains((false, id@)),
        } by {
            match ms[j] {
                GroupMemberRef::Group { id } => {
                    if !order.contains(id@) {
                        let w = choose|w: int| 0 <= w < old_stack.len() && old_stack[w] == (true, id@);
                        assert(w < popped.len());
                        assert(popped[w] == (true, id@));
                    }
                },
                GroupMemberRef::Suite { id } => {
                    if !old_suites.contains(id@) {
                        let w = choose|w: int| 0 <= w < old_stack.len() && old_stack[w] == (false, id@);
                        if w < popped.len() {
                            assert(popped[w] == (false, id@));
                        }
                    }
                },
            }
        }
    }
}

proof fn lemma_reach_complete(c: CheckedConfig, root: Seq<char>, order: Seq<Seq<char>>, suites: Seq<Seq<char>>)
    requires
        c.wf(),
        order.len() >= 1,
        order[0] == root,
        forall|y: Seq<char>| #[trigger] order.contains(y) ==> reaches(c.group_graph@, root, y) && keys_of(c.config.groups@).contains(y),
        forall|t: Seq<char>| #[trigger] suites.contains(t) ==> suites_of_groups(c, order, t),
        forall|y: Seq<char>| #[trigger] order.contains(y) ==> closed_over(c, y, order, suites, Seq::empty()),
    ensures
        forall|x: Seq<char>| order.contains(x) <==> reaches(c.group_graph@, root, x),
        forall|s: Seq<char>| suites.contains(s) <==> suites_of_groups(c, order, s),
{
    let g = c.group_graph@;
    assert forall|y: Seq<char>, ch: Seq<char>| order.contains(y) && children_of(g, ch).len() >= 0 && children_of(g, y).contains(ch) implies order.contains(ch) by {
        let p = choose|p: int| 0 <= p < keys_of(c.config.groups@).len() && keys_of(c.config.groups@)[p] == y;
        assert(c.config.groups@[p].id@ == y);
        crate::config::validation::lemma_named(c.config.groups@, p);
        lemma_group_children(c, p);
        let members = c.config.groups@[p].members@;
        lemma_member_groups(members, ch);
        let j = choose|j: int| 0 <= j < members.len() && (#[trigger] members[j] matches GroupMemberRef::Group { id } && id@ == ch);
        assert(closed_over(c, y, order, suites, Seq::empty()));
        assert(group_named(c.config, y) == c.config.groups@[p]);
        assert(!Seq::<(bool, Seq<char>)>::empty().contains((true, ch)));
    }
    assert forall|x: Seq<char>| reaches(g, root, x) implies order.contains(x) by {
        let path = choose|path: Seq<Seq<char>>| #![trigger text_path(g, path)]
            path.len() >= 1 && path[0] == root && path[path.len() - 1] == x && text_path(g, path);
        assert(order.contains(order[0]));
        lemma_closed_set_contains_reachable(g, order, path);
    }
    assert forall|s: Seq<char>| suites_of_groups(c, order, s) implies suites.contains(s) by {
        let w = choose|w: Seq<char>| order.contains(w) && #[trigger] has_suite_member(group_named(c.config, w), s);
        let ms = group_named(c.config, w).members@;
        let j = choose|j: int| 0 <= j < ms.len() && (#[trigger] ms[j] matches GroupMemberRef::Suite { id } && id@ == s);
        assert(closed_over(c, w, order, suites, Seq::empty()));
        assert(!Seq::<(bool, Seq<char>)>::empty().contains((false, s)));
    }
}

/// The nesting graph of a valid document has exactly the declared groups as nodes.
pub proof fn lemma_graph_nodes(c: CheckedConfig, x: Seq<char>)
    requires
        c.wf(),
    ensures
        keys_of(c.group_graph@).contains(x) <==> keys_of(c.config.groups@).contains(x),
{
    let g = c.group_graph@;
    let ordered = crate::config::validation::in_key_order(c.groups@, c.config.groups@);
    if keys_of(g).contains(x) {
        let k = choose|k: int| 0 <= k < keys_of(g).len() && keys_of(g)[k] == x;
        assert(g[k].0@ == ordered[k].id@);
        let p = c.groups@[k].1 as int;
        assert(keys_of(c.config.groups@)[p] == x);
    }
    if keys_of(c.config.groups@).contains(x) {
        assert(keys_of(c.groups@).contains(x));
        let k = choose|k: int| 0 <= k < keys_of(c.groups@).len() && keys_of(c.groups@)[k] == x;
        assert(c.groups@[k].0@ == x);
        assert(g[k].0@ == ordered[k].id@);
        assert(keys_of(g)[k] == x);
    }
}

/// A suite listed by a group of a valid document is declared.
proof fn lemma_suite_member_declared(c: CheckedConfig, g: Seq<char>, s: Seq<char>)
    requires
        c.wf(),
        keys_of(c.config.groups@).contains(g),
        has_suite_member(group_named(c.config, g), s),
    ensures
        keys_of(c.config.suites@).contains(s),
{
    let p = choose|p: int| 0 <= p < keys_of(c.config.groups@).len() && keys_of(c.config.groups@)[p] == g;
    assert(c.config.groups@[p].id@ == g);
    crate::config::validation::lemma_named(c.config.groups@, p);
    let members = c.config.groups@[p].members@;
    let j = choose|j: int| 0 <= j < members.len() && (#[trigger] members[j] matches GroupMemberRef::Suite { id } && id@ == s);
    lemma_member_declared(c, p, j);
}

/// The groups reachable from `root` through group members, and the suites
/// those groups list, each once.
///
/// Groups come in depth-first preorder (members in declaration order, a group
/// when first met); suites in the order that walk first meets them.
#[verifier::spinoff_prover]
#[verifier::rlimit(30)]
pub fn reach_from(c: &CheckedConfig, root: &str) -> (r: (Vec<String>, Vec<String>))
    requires
        c.wf(),
        keys_of(c.config.groups@).contains(root@),
    ensures
        r.0@.len() >= 1,
        r.0@[0]@ == root@,
        views(r.0@).no_duplicates(),
        forall|x: Seq<char>| views(r.0@).contains(x) <==> reaches(c.group_graph@, root@, x),
        views(r.1@).no_duplicates(),
        forall|s: Seq<char>| views(r.1@).contains(s) <==> suites_of_groups(*c, views(r.0@), s),
        forall|s: Seq<char>| views(r.1@).contains(s) <==> suites_reached(*c, root@, s),
        (views(r.0@), views(r.1@)) == reach_order(*c, root@),
{
    let ghost g = c.group_graph@;
    let ghost cfg = c.config;
    let mut seen_groups: Vec<String> = Vec::new();
    let mut group_order: Vec<String> = Vec::new();
    let mut seen_suites: Vec<String> = Vec::new();
    let mut suite_order: Vec<String> = Vec::new();
    let mut stack: Vec<(bool, String)> = Vec::new();
    stack.push((true, owned(root)));
    proof {
        assert(text_path(g, seq![root@]));
        assert(reaches(g, root@, root@));
        assert(stack_views(stack@)[0] == (true, root@));
    }
    let ghost bound = cfg.groups@.len();
    let ghost target = reach_order(*c, root@);
    proof {
        assert(stack_views(stack@) =~= seq![(true, root@)]);
        assert(views(group_order@) =~= Seq::<Seq<char>>::empty());
        assert(views(suite_order@) =~= Seq::<Seq<char>>::empty());
        assert(views(group_order@) + target.0 =~= target.0);
        assert(views(suite_order@) + target.1 =~= target.1);
    }
    while stack.len() > 0
        invariant
            bound == cfg.groups@.len(),
            target == reach_order(*c, root@),
            group_order@.len() == seen_groups@.len(),
            views(group_order@) + reach_walk(*c, stack_views(stack@), views(group_order@), views(suite_order@), bound).0
                == target.0,
            views(suite_order@) + reach_walk(*c, stack_views(stack@), views(group_order@), views(suite_order@), bound).1
                == target.1,
            c.wf(),
            g == c.group_graph@,
            cfg == c.config,
            keys_of(cfg.groups@).contains(root@),
            strictly_sorted(keys_of(seen_groups@)),
            strictly_sorted(keys_of(seen_suites@)),
            forall|x: Seq<char>| keys_of(seen_groups@).contains(x) <==> views(group_order@).contains(x),
            forall|x: Seq<char>| keys_of(seen_suites@).contains(x) <==> views(suite_order@).contains(x),
            views(group_order@).no_duplicates(),
            views(suite_order@).no_duplicates(),
            group_order@.len() == 0 ==> stack_views(stack@) == seq![(true, root@)],
            group_order@.len() >= 1 ==> group_order@[0]@ == root@,
            forall|x: Seq<char>|
                #[trigger] views(group_order@).contains(x) ==> reaches(g, root@, x) && keys_of(cfg.groups@).contains(x),
            forall|i: int|
                0 <= i < stack@.len() && (#[trigger] stack@[i]).0 ==> reaches(g, root@, stack@[i].1@) && keys_of(
                    cfg.groups@,
                ).contains(stack@[i].1@),
            forall|i: int|
                0 <= i < stack@.len() && !(#[trigger] stack@[i]).0 ==> suites_of_groups(
                    *c,
                    views(group_order@),
                    stack@[i].1@,
                ),
            forall|s: Seq<char>| #[trigger] views(suite_order@).contains(s) ==> suites_of_groups(*c, views(group_order@), s),
            forall|x: Seq<char>|
                #[trigger] views(group_order@).contains(x) ==> closed_over(
                    *c,
                    x,
                    views(group_order@),
                    views(suite_order@),
                    stack_views(stack@),
                ),
        decreases cfg.groups@.len() - seen_groups@.len(), stack@.len(),
    {
        proof {
            lemma_sorted_no_duplicates(keys_of(seen_groups@));
            assert forall|x: Seq<char>| keys_of(seen_groups@).contains(x) implies keys_of(cfg.groups@).contains(x) by {
                assert(views(group_order@).contains(x));
            }
            lemma_distinct_within(keys_of(seen_groups@), keys_of(cfg.groups@));
        }
        let ghost old_stack = stack_views(stack@);
        let ghost old_order = views(group_order@);
        let ghost old_suites = views(suite_order@);
        let ghost old_seen = seen_groups@;
        let top = stack.pop().unwrap();
        let ghost popped = stack_views(stack@);
        proof {
            assert(popped =~= old_stack.drop_last());
            assert(old_stack[old_stack.len() - 1] == (top.0, top.1@));
        }
        let (is_group, id) = top;
        if is_group {
            let inserted = insert_sorted(&mut seen_groups, owned(id.as_str()));
            if !inserted {
                proof {
                    assert forall|x: Seq<char>| #[trigger] views(group_order@).contains(x) implies closed_over(
                        *c,
                        x,
                        views(group_order@),
                        views(suite_order@),
                        stack_views(stack@),
                    ) by {
                        assert(closed_over(*c, x, old_order, old_suites, old_stack));
                        let members = group_named(cfg, x).members@;
                        assert forall|j: int| 0 <= j < members.len() implies match #[trigger] members[j] {
                            GroupMemberRef::Group { id } => views(group_order@).contains(id@) || stack_views(stack@).contains((true, id@)),
                            GroupMemberRef::Suite { id } => views(suite_order@).contains(id@) || stack_views(stack@).contains((false, id@)),
                        } by {
                            match members[j] {
                                GroupMemberRef::Group { id: m } => {
                                    if !views(group_order@).contains(m@) {
                                        let w = choose|w: int| 0 <= w < old_stack.len() && old_stack[w] == (true, m@);
                                        if w < popped.len() {
                                            assert(popped[w] == (true, m@));
                                        }
                                    }
                                },
                                GroupMemberRef::Suite { id: m } => {
                                    if !views(suite_order@).contains(m@) {
                                        let w = choose|w: int| 0 <= w < old_stack.len() && old_stack[w] == (false, m@);
                                        assert(popped[w] == (false, m@));
                                    }
                                },
                            }
                        }
                    }
                    assert forall|i: int| 0 <= i < stack@.len() && (#[trigger] stack@[i]).0 implies reaches(g, root@, stack@[i].1@) && keys_of(
                        cfg.groups@,
                    ).contains(stack@[i].1@) by {
                        assert(stack_views(stack@)[i] == old_stack[i]);
                        assert(old_stack[i].0);
                    }
                    assert(old_order.contains(id@));
                    assert(old_stack.drop_last() == popped);
                    assert(reach_walk(*c, old_stack, old_order, old_suites, bound) == reach_walk(
                        *c,
                        popped,
                        old_order,
                        old_suites,
                        bound,
                    ));
                }
                continue;
            }
            let ghost x = id@;
            let item = owned(id.as_str());
            let ghost before = group_order@;
            group_order.push(item);
            assert(group_order@ == before.push(item));
            assert(views(group_order@) =~= old_order.push(x));
            let p = match c.group_position(id.as_str()) {
                Some(p) => p,
                None => {
                    proof {
                        assert(old_stack[old_stack.len() - 1].0);
                    }
                    0
                },
            };
            let members = &c.config.groups[p].members;
            push_members(&mut stack, members);
            proof {
                lemma_group_order_step(*c, root@, old_seen, seen_groups@, old_order, views(group_order@), old_suites, old_stack, popped, stack_views(stack@), x, p as int);
                assert forall|i: int| 0 <= i < stack@.len() && (#[trigger] stack@[i]).0 implies reaches(g, root@, stack@[i].1@) && keys_of(
                    cfg.groups@,
                ).contains(stack@[i].1@) by {
                    assert(stack_views(stack@)[i] == (stack@[i].0, stack@[i].1@));
                }
                assert forall|i: int| 0 <= i < stack@.len() && !(#[trigger] stack@[i]).0 implies suites_of_groups(
                    *c,
                    views(group_order@),
                    stack@[i].1@,
                ) by {
                    assert(stack_views(stack@)[i] == (stack@[i].0, stack@[i].1@));
                }
                lemma_sorted_no_duplicates(keys_of(seen_groups@));
                assert forall|y: Seq<char>| keys_of(seen_groups@).contains(y) implies keys_of(cfg.groups@).contains(y) by {
                    assert(views(group_order@).contains(y));
                }
                lemma_distinct_within(keys_of(seen_groups@), keys_of(cfg.groups@));
                assert(!old_order.contains(x));
                assert(old_order.len() < bound);
                assert(group_named(cfg, x) == cfg.groups@[p as int]);
                let after = reach_walk(*c, stack_views(stack@), views(group_order@), views(suite_order@), bound);
                assert(old_stack.drop_last() == popped);
                assert(reach_walk(*c, old_stack, old_order, old_suites, bound) == (seq![x] + after.0, after.1));
                assert(views(group_order@) + after.0 =~= old_order + (seq![x] + after.0));
            }
        } else {
            let inserted = insert_sorted(&mut seen_suites, owned(id.as_str()));
            if inserted {
                let item = owned(id.as_str());
                let ghost before = suite_order@;
                suite_order.push(item);
                assert(suite_order@ == before.push(item));
                assert(views(suite_order@) =~= old_suites.push(id@));
            } else {
                assert(views(suite_order@) == old_suites);
            }
            proof {
                assert forall|y: Seq<char>| keys_of(seen_suites@).contains(y) <==> views(suite_order@).contains(y) by {
                    if views(suite_order@).contains(y) && !old_suites.contains(y) {
                        let w = choose|w: int| 0 <= w < views(suite_order@).len() && views(suite_order@)[w] == y;
                        assert(w == old_suites.len());
                    }
                    if old_suites.contains(y) {
                        let w = choose|w: int| 0 <= w < old_suites.len() && old_suites[w] == y;
                        assert(views(suite_order@)[w] == y);
                    }
                    if y == id@ && inserted {
                        assert(views(suite_order@)[old_suites.len() as int] == y);
                    }
                }
                assert(views(suite_order@).contains(id@));
                assert forall|i: int, j: int| 0 <= i < views(suite_order@).len() && 0 <= j < views(suite_order@).len() && i != j implies views(suite_order@)[i] != views(suite_order@)[j] by {
                    if inserted {
                        if i == old_suites.len() {
                            assert(old_suites.contains(views(suite_order@)[j]));
                        } else if j == old_suites.len() {
                            assert(old_suites.contains(views(suite_order@)[i]));
                        }
                    }
                }
                lemma_suite_order_step(*c, old_order, old_suites, views(suite_order@), old_stack, popped, id@);
                assert(stack_views(stack@) == popped);
                assert(old_stack.drop_last() == popped);
                let after = reach_walk(*c, popped, old_order, views(suite_order@), bound);
                if inserted {
                    assert(reach_walk(*c, old_stack, old_order, old_suites, bound) == (after.0, seq![id@] + after.1));
                    assert(views(suite_order@) + after.1 =~= old_suites + (seq![id@] + after.1));
                } else {
                    assert(reach_walk(*c, old_stack, old_order, old_suites, bound) == after);
                }
                assert forall|i: int| 0 <= i < stack@.len() && (#[trigger] stack@[i]).0 implies reaches(g, root@, stack@[i].1@) && keys_of(
                    cfg.groups@,
                ).contains(stack@[i].1@) by {
                    assert(popped[i] == old_stack[i]);
                    assert(old_stack[i] == (stack@[i].0, stack@[i].1@));
                }
                assert forall|i: int| 0 <= i < stack@.len() && !(#[trigger] stack@[i]).0 implies suites_of_groups(
                    *c,
                    views(group_order@),
                    stack@[i].1@,
                ) by {
                    assert(popped[i] == old_stack[i]);
                    assert(old_stack[i] == (stack@[i].0, stack@[i].1@));
                }
            }
        }
    }
    proof {
        assert(stack_views(stack@) =~= Seq::<(bool, Seq<char>)>::empty());
        assert(views(group_order@) + Seq::<Seq<char>>::empty() =~= views(group_order@));
        assert(views(suite_order@) + Seq::<Seq<char>>::empty() =~= views(suite_order@));
        lemma_reach_complete(*c, root@, views(group_order@), views(suite_order@));
        let order = views(group_order@);
        assert forall|s: Seq<char>| suites_of_groups(*c, order, s) <==> suites_reached(*c, root@, s) by {
            if suites_of_groups(*c, order, s) {
                let w = choose|w: Seq<char>| order.contains(w) && #[trigger] has_suite_member(group_named(c.config, w), s);
                assert(reaches(c.group_graph@, root@, w));
            }
            if suites_reached(*c, root@, s) {
                let w = choose|w: Seq<char>| reaches(c.group_graph@, root@, w) && #[trigger] has_suite_member(group_named(c.config, w), s);
                assert(order.contains(w));
            }
        }
    }
    (group_order, suite_order)
}

// ---------------------------------------------------------------------------
// Group levels.
// ---------------------------------------------------------------------------

/// The highest level among `children`, 0 when there is none.
pub open spec fn child_levels_max(g: Seq<(String, Vec<String>)>, levels: Seq<usize>, children: Seq<Seq<char>>) -> int
    decreases children.len(),
{
    if children.len() == 0 {
        0
    } else {
        let rest = child_levels_max(g, levels, children.drop_last());
        let last = levels[entry_of(g, children.last())] as int;
        if last > rest {
            last
        } else {
            rest
        }
    }
}

/// `levels[k]` is the level of the group at position `k` of the nesting
/// graph: one more than the highest level among its member groups, so a group
/// without member groups has level one.
pub open spec fn levels_of(c: CheckedConfig, levels: Seq<usize>) -> bool {
    &&& levels.len() == c.group_graph@.len()
    &&& forall|k: int|
        0 <= k < levels.len() ==> #[trigger] levels[k] == 1 + child_levels_max(
            c.group_graph@,
            levels,
            views(c.group_graph@[k].1@),
        )
}

proof fn lemma_count_bound(s: Seq<u8>, v: u8, i: int)
    requires
        0 <= i < s.len(),
        s[i] != v,
    ensures
        crate::dag::count_of(s, v) < s.len(),
    decreases s.len(),
{
    lemma_count_at_most(s.drop_last(), v);
    if i < s.len() - 1 {
        lemma_count_bound(s.drop_last(), v, i);
    }
}

proof fn lemma_count_at_most(s: Seq<u8>, v: u8)
    ensures
        crate::dag::count_of(s, v) <= s.len(),
    decreases s.len(),
{
    if s.len() > 0 {
        lemma_count_at_most(s.drop_last(), v);
    }
}

/// Nodes reached from a declared group through a graph whose references are
/// present are declared groups.
pub proof fn lemma_reached_declared(c: CheckedConfig, a: Seq<char>, b: Seq<char>)
    requires
        c.wf(),
        keys_of(c.group_graph@).contains(a),
        reaches(c.group_graph@, a, b),
    ensures
        keys_of(c.group_graph@).contains(b),
{
    let g = c.group_graph@;
    let path = choose|path: Seq<Seq<char>>| #![trigger text_path(g, path)]
        path.len() >= 1 && path[0] == a && path[path.len() - 1] == b && text_path(g, path);
    if path.len() > 1 {
        let l = path.len() - 1;
        assert(text_edge(g, path[l - 1], path[l]));
        let (i, j) = choose|i: int, j: int|
            0 <= i < g.len() && 0 <= j < g[i].1@.len() && g[i].0@ == path[l - 1] && #[trigger] g[i].1@[j]@ == path[l];
        assert(keys_of(c.group_ids@).contains(g[i].1@[j]@));
        assert(keys_of(c.group_ids@) == views(c.group_ids@));
        assert(keys_of(g) =~= keys_of(c.group_ids@)) by {
            assert forall|k: int| 0 <= k < g.len() implies keys_of(g)[k] == keys_of(c.group_ids@)[k] by {
                assert(g[k].0@ == crate::config::validation::in_key_order(c.groups@, c.config.groups@)[k].id@);
            }
        }
    }
}

proof fn lemma_count_zero(s: Seq<u8>)
    requires
        forall|m: int| 0 <= m < s.len() ==> s[m] == 0,
    ensures
        crate::dag::count_of(s, 1) == 0,
    decreases s.len(),
{
    if s.len() > 0 {
        lemma_count_zero(s.drop_last());
    }
}

/// The position of a key in a graph with strictly sorted keys.
proof fn lemma_entry_is(g: Seq<(String, Vec<String>)>, k: int)
    requires
        strictly_sorted(keys_of(g)),
        0 <= k < g.len(),
    ensures
        entry_of(g, g[k].0@) == k,
{
    let x = g[k].0@;
    assert(keys_of(g)[k] == x);
    assert(g[k].key_view() == x);
    let e = entry_of(g, x);
    if e != k {
        crate::text::lemma_sorted_distinct(keys_of(g), e, k);
    }
}

proof fn lemma_entry_in_range(g: Seq<(String, Vec<String>)>, x: Seq<char>)
    requires
        keys_of(g).contains(x),
    ensures
        0 <= entry_of(g, x) < g.len(),
        g[entry_of(g, x)].0@ == x,
{
    let w = choose|w: int| 0 <= w < keys_of(g).len() && keys_of(g)[w] == x;
    assert(g[w].key_view() == x);
}

/// Every dependency listed in a valid document's nesting graph is declared.
pub open spec fn references_present_in(c: CheckedConfig, k: int, j: int) -> bool {
    keys_of(c.group_graph@).contains(c.group_graph@[k].1@[j]@)
}

proof fn lemma_graph_references(c: CheckedConfig, k: int, j: int)
    requires
        c.wf(),
        0 <= k < c.group_graph@.len(),
        0 <= j < c.group_graph@[k].1@.len(),
    ensures
        references_present_in(c, k, j),
{
    let g = c.group_graph@;
    assert(keys_of(c.group_ids@).contains(g[k].1@[j]@));
    assert(keys_of(g) =~= keys_of(c.group_ids@)) by {
        assert(keys_of(c.group_ids@) == views(c.group_ids@));
        assert forall|q: int| 0 <= q < g.len() implies keys_of(g)[q] == keys_of(c.group_ids@)[q] by {
            assert(g[q].0@ == crate::config::validation::in_key_order(c.groups@, c.config.groups@)[q].id@);
        }
    }
}

proof fn lemma_levels_unchanged(g: Seq<(String, Vec<String>)>, levels: Seq<usize>, at: int, v: usize, children: Seq<Seq<char>>)
    requires
        0 <= at < levels.len(),
        levels.len() == g.len(),
        forall|q: int| 0 <= q < children.len() ==> keys_of(g).contains(#[trigger] children[q]),
        forall|q: int| 0 <= q < children.len() ==> entry_of(g, #[trigger] children[q]) != at,
    ensures
        child_levels_max(g, levels.update(at, v), children) == child_levels_max(g, levels, children),
    decreases children.len(),
{
    if children.len() > 0 {
        let rest = children.drop_last();
        assert forall|q: int| 0 <= q < rest.len() implies entry_of(g, #[trigger] rest[q]) != at && keys_of(g).contains(rest[q]) by {
            assert(rest[q] == children[q]);
        }
        lemma_levels_unchanged(g, levels, at, v, rest);
        let last = children[children.len() - 1];
        assert(keys_of(g).contains(last));
        let e = entry_of(g, last);
        assert(0 <= e < g.len()) by {
            let w = choose|w: int| 0 <= w < keys_of(g).len() && keys_of(g)[w] == last;
            assert(g[w].key_view() == last);
        }
        assert(e != at);
        assert(levels.update(at, v)[e] == levels[e]);
    }
}

/// Derives group levels from typed members without recursive traversal.
///
/// Each group is settled after its member groups, following the
/// dependency-first order of its closure.
pub fn group_levels(c: &CheckedConfig) -> (levels: Vec<usize>)
    requires
        c.wf(),
    ensures
        levels_of(*c, levels@),
{
    let g = &c.group_graph;
    let n = g.len();
    let mut levels: Vec<usize> = Vec::new();
    let mut done: Vec<u8> = Vec::new();
    let mut k: usize = 0;
    while k < n
        invariant
            n == g@.len(),
            k <= n,
            levels@.len() == k,
            done@.len() == k,
            forall|m: int| 0 <= m < k ==> done@[m] == 0 && levels@[m] == 0,
        decreases n - k,
    {
        levels.push(0);
        done.push(0);
        k = k + 1;
    }
    proof {
        assert(crate::dag::count_of(done@, 1) == 0) by {
            lemma_count_zero(done@);
        }
    }
    let mut finished: usize = 0;
    let mut k: usize = 0;
    while k < n
        invariant
            c.wf(),
            g == &c.group_graph,
            n == g@.len(),
            k <= n,
            levels@.len() == n,
            done@.len() == n,
            finished as nat == crate::dag::count_of(done@, 1),
            forall|m: int| 0 <= m < n ==> (#[trigger] done@[m] == 0 || done@[m] == 1),
            forall|m: int| 0 <= m < k ==> #[trigger] done@[m] == 1,
            forall|m: int|
                0 <= m < n && #[trigger] done@[m] == 1 ==> levels@[m] <= finished && levels@[m] == 1 + child_levels_max(
                    g@,
                    levels@,
                    views(g@[m].1@),
                ) && forall|j: int|
                    0 <= j < g@[m].1@.len() ==> done@[entry_of(g@, #[trigger] g@[m].1@[j]@)] == 1,
        decreases n - k,
    {
        let order = crate::dag::dependency_order(g[k].0.as_str(), g);
        assert(crate::dag::acyclic_from(g@, g@[k as int].0@));
        let mut i: usize = 0;
        while i < order.len()
            invariant
                c.wf(),
                g == &c.group_graph,
                n == g@.len(),
                k < n,
                levels@.len() == n,
                done@.len() == n,
                i <= order@.len(),
                finished as nat == crate::dag::count_of(done@, 1),
                forall|m: int| 0 <= m < n ==> (#[trigger] done@[m] == 0 || done@[m] == 1),
                forall|m: int| 0 <= m < k ==> #[trigger] done@[m] == 1,
                forall|m: int|
                    0 <= m < n && #[trigger] done@[m] == 1 ==> levels@[m] <= finished && levels@[m] == 1 + child_levels_max(
                        g@,
                        levels@,
                        views(g@[m].1@),
                    ) && forall|j: int|
                        0 <= j < g@[m].1@.len() ==> done@[entry_of(g@, #[trigger] g@[m].1@[j]@)] == 1,
                forall|x: Seq<char>| views(order@).contains(x) <==> reaches(g@, g@[k as int].0@, x),
                order@.len() >= 1 && order@[order@.len() - 1]@ == g@[k as int].0@,
                forall|a: int, ch: Seq<char>|
                    0 <= a < order@.len() && children_of(g@, order@[a]@).contains(ch) ==> exists|b: int|
                        0 <= b < a && #[trigger] order@[b]@ == ch,
                forall|a: int| 0 <= a < i ==> 0 <= entry_of(g@, #[trigger] order@[a]@) < n && done@[entry_of(g@, order@[a]@)] == 1,
            decreases order@.len() - i,
        {
            let x = order[i].as_str();
            proof {
                assert(views(order@).contains(order@[i as int]@)) by {
                    assert(views(order@)[i as int] == order@[i as int]@);
                }
                assert(keys_of(g@)[k as int] == g@[k as int].0@);
                lemma_reached_declared(*c, g@[k as int].0@, x@);
            }
            let kx = match crate::text::find_key(g, x) {
                Some(e) => e,
                None => {
                    proof {
                        assert(false);
                    }
                    0
                },
            };
            proof {
                assert(keys_of(g@)[kx as int] == x@);
                lemma_entry_is(g@, kx as int);
            }
            if done[kx] == 0 {
                let children = &g[kx].1;
                let mut m: usize = 0;
                let mut j: usize = 0;
                proof {
                    lemma_count_bound(done@, 1, kx as int);
                }
                while j < children.len()
                    invariant
                        c.wf(),
                        g == &c.group_graph,
                        n == g@.len(),
                        kx < n,
                        *children == g@[kx as int].1,
                        x@ == g@[kx as int].0@,
                        entry_of(g@, x@) == kx,
                        levels@.len() == n,
                        done@.len() == n,
                        done@[kx as int] == 0,
                        finished < n,
                        j <= children@.len(),
                        m <= finished,
                        m as int == child_levels_max(g@, levels@, views(children@).take(j as int)),
                        forall|q: int| 0 <= q < j ==> done@[entry_of(g@, #[trigger] children@[q]@)] == 1,
                        forall|mm: int|
                            0 <= mm < n && #[trigger] done@[mm] == 1 ==> levels@[mm] <= finished,
                        i < order@.len(),
                        order@[i as int]@ == x@,
                        forall|a: int, ch: Seq<char>|
                            0 <= a < order@.len() && children_of(g@, order@[a]@).contains(ch) ==> exists|b: int|
                                0 <= b < a && #[trigger] order@[b]@ == ch,
                        forall|a: int| 0 <= a < i ==> 0 <= entry_of(g@, #[trigger] order@[a]@) < n && done@[entry_of(g@, order@[a]@)] == 1,
                    decreases children@.len() - j,
                {
                    let ch = children[j].as_str();
                    proof {
                        lemma_graph_references(*c, kx as int, j as int);
                        assert(references_present_in(*c, kx as int, j as int));
                        assert(keys_of(g@)[kx as int] == x@);
                        assert(children_of(g@, x@) == views(children@));
                        assert(children_of(g@, order@[i as int]@).contains(ch@)) by {
                            assert(views(children@)[j as int] == ch@);
                        }
                        let b = choose|b: int| 0 <= b < i && #[trigger] order@[b]@ == ch@;
                        assert(done@[entry_of(g@, order@[b]@)] == 1);
                    }
                    let kc = match crate::text::find_key(g, ch) {
                        Some(e) => e,
                        None => {
                            proof {
                                assert(false);
                            }
                            0
                        },
                    };
                    proof {
                        assert(keys_of(g@)[kc as int] == ch@);
                        lemma_entry_is(g@, kc as int);
                        assert(views(children@).take(j + 1).drop_last() =~= views(children@).take(j as int));
                        assert(views(children@).take(j + 1).last() == ch@);
                    }
                    let l = levels[kc];
                    if l > m {
                        m = l;
                    }
                    j = j + 1;
                }
                proof {
                    assert(views(children@).take(children@.len() as int) =~= views(children@));
                    assert forall|q: int| 0 <= q < views(children@).len() implies keys_of(g@).contains(#[trigger] views(children@)[q]) && entry_of(g@, views(children@)[q]) != kx by {
                        lemma_graph_references(*c, kx as int, q);
                        assert(done@[entry_of(g@, children@[q]@)] == 1);
                    }
                    lemma_levels_unchanged(g@, levels@, kx as int, (m + 1) as usize, views(children@));
                }
                let ghost old_levels = levels@;
                let ghost old_done = done@;
                levels.set(kx, m + 1);
                done.set(kx, 1);
                proof {
                    crate::dag::lemma_count_update(old_done, kx as int, 1, 1);
                    assert forall|mm: int|
                        0 <= mm < n && #[trigger] done@[mm] == 1 implies levels@[mm] <= finished + 1 && levels@[mm] == 1
                            + child_levels_max(g@, levels@, views(g@[mm].1@)) && forall|q: int|
                            0 <= q < g@[mm].1@.len() ==> done@[entry_of(g@, #[trigger] g@[mm].1@[q]@)] == 1 by {
                        if mm != kx {
                            assert(old_done[mm] == 1);
                            assert forall|q: int| 0 <= q < views(g@[mm].1@).len() implies keys_of(g@).contains(#[trigger] views(g@[mm].1@)[q]) && entry_of(g@, views(g@[mm].1@)[q]) != kx by {
                                assert(views(g@[mm].1@)[q] == g@[mm].1@[q]@);
                                assert(old_done[entry_of(g@, g@[mm].1@[q]@)] == 1);
                                lemma_graph_references(*c, mm, q);
                            }
                            assert forall|q: int| 0 <= q < g@[mm].1@.len() implies done@[entry_of(g@, #[trigger] g@[mm].1@[q]@)] == 1 by {
                                assert(old_done[entry_of(g@, g@[mm].1@[q]@)] == 1);
                                lemma_graph_references(*c, mm, q);
                                lemma_entry_in_range(g@, g@[mm].1@[q]@);
                            }
                            lemma_levels_unchanged(g@, old_levels, kx as int, (m + 1) as usize, views(g@[mm].1@));
                        } else {
                            assert forall|q: int| 0 <= q < g@[mm].1@.len() implies done@[entry_of(g@, #[trigger] g@[mm].1@[q]@)] == 1 by {
                                assert(old_done[entry_of(g@, children@[q]@)] == 1);
                                lemma_graph_references(*c, mm, q);
                                lemma_entry_in_range(g@, g@[mm].1@[q]@);
                            }
                            assert(levels@[mm] == m + 1);
                        }
                    }
                    assert forall|a: int| 0 <= a < i implies 0 <= entry_of(g@, #[trigger] order@[a]@) < n && done@[entry_of(g@, order@[a]@)] == 1 by {
                        assert(old_done[entry_of(g@, order@[a]@)] == 1);
                    }
                }
                finished = finished + 1;
            }
            proof {
                assert forall|a: int| 0 <= a < i + 1 implies 0 <= entry_of(g@, #[trigger] order@[a]@) < n && done@[entry_of(g@, order@[a]@)] == 1 by {
                    if a == i {
                        assert(order@[a]@ == x@);
                    }
                }
            }
            i = i + 1;
        }
        proof {
            let last = order@.len() - 1;
            assert(order@[last]@ == g@[k as int].0@);
            assert(keys_of(g@)[k as int] == g@[k as int].0@);
            lemma_entry_is(g@, k as int);
            assert(done@[entry_of(g@, order@[last]@)] == 1);
        }
        k = k + 1;
    }
    proof {
        assert forall|mm: int| 0 <= mm < levels@.len() implies #[trigger] levels@[mm] == 1 + child_levels_max(
            g@,
            levels@,
            views(g@[mm].1@),
        ) by {
            assert(done@[mm] == 1);
        }
    }
    levels
}

// ---------------------------------------------------------------------------
// Plans.
// ---------------------------------------------------------------------------

/// The execution keys of the invocations of suite `id`, in order.
pub open spec fn suite_key_views(id: Seq<char>, checks: Seq<SuiteCheckConfig>) -> Seq<(Option<Seq<char>>, Seq<char>)> {
    Seq::new(checks.len(), |j: int| (Some(id), checks[j].check_id@))
}

/// A planned invocation describes a declared invocation.
pub open spec fn planned_check_of(planned: PlannedSuiteCheck, invocation: SuiteCheckConfig, config: Config) -> bool {
    &&& planned.check_id@ == invocation.check_id@
    &&& views(planned.arguments@) == expansion(check_named(config, invocation.check_id@).args@, invocation.parameters@)
    &&& binding_views(planned.parameters@) == binding_views(invocation.parameters@)
    &&& views(planned.depends_on@) == views(invocation.depends_on@)
}

/// A planned suite describes the suite declared as `id`, in its resolved directory.
pub open spec fn planned_suite_of(planned: PlannedSuite, v: ValidatedConfig, id: Seq<char>) -> bool {
    let config = v.checked.config;
    let suite = suite_named(config, id);
    let directory = v.suite_directories@[entry_of(v.checked.suites@, id)];
    &&& planned.id@ == id
    &&& planned.label@ == suite.label@
    &&& planned.description@ == suite.description@
    &&& planned.checks@.len() == suite.checks@.len()
    &&& forall|j: int| 0 <= j < suite.checks@.len() ==> planned_check_of(#[trigger] planned.checks@[j], suite.checks@[j], config)
    &&& planned.working_directory@ == directory.absolute@
    &&& planned.relative_working_directory@ == directory.relative@
}

/// A planned group describes the group declared as `id`, with its level.
pub open spec fn planned_group_of(planned: PlannedGroup, c: CheckedConfig, id: Seq<char>, levels: Seq<usize>) -> bool {
    let group = group_named(c.config, id);
    &&& planned.id@ == id
    &&& planned.label@ == group.label@
    &&& planned.description@ == group.description@
    &&& member_views(planned.members@) == member_views(group.members@)
    &&& planned.level == levels[entry_of(c.group_graph@, id)]
}

/// An execution's key, check and suite agree.
pub open spec fn execution_consistent(e: PlannedCheckExecution) -> bool {
    &&& key_view(e.key).1 == e.check_id@
    &&& match (key_view(e.key).0, e.suite_id) {
        (Some(a), Some(b)) => a == b@,
        (None, None) => true,
        _ => false,
    }
}

/// The keys of the invocations of the suites `ids`, suite after suite.
pub open spec fn suites_key_views(config: Config, ids: Seq<Seq<char>>) -> Seq<(Option<Seq<char>>, Seq<char>)> {
    joined(Seq::new(ids.len(), |k: int| suite_key_views(ids[k], suite_named(config, ids[k]).checks@)))
}

/// `keys` are the invocations of the suites reached from group `root`, suite
/// after suite, each suite once.
pub open spec fn descendant_of(c: CheckedConfig, root: Seq<char>, keys: Seq<CheckExecutionKey>) -> bool {
    exists|s: Seq<Seq<char>>|
        #![trigger suites_key_views(c.config, s)]
        s.no_duplicates() && (forall|x: Seq<char>| s.contains(x) <==> suites_reached(c, root, x)) && key_views(keys)
            == suites_key_views(c.config, s)
}

/// `plan` lists the groups `group_ids` and the suites `suite_ids`, as declared.
pub open spec fn plan_describes(
    plan: ValidationPlan,
    v: ValidatedConfig,
    group_ids: Seq<Seq<char>>,
    suite_ids: Seq<Seq<char>>,
    levels: Seq<usize>,
) -> bool {
    let c = v.checked;
    &&& plan.groups@.len() == group_ids.len()
    &&& forall|k: int| 0 <= k < group_ids.len() ==> planned_group_of(#[trigger] plan.groups@[k], c, group_ids[k], levels)
    &&& plan.suites@.len() == suite_ids.len()
    &&& forall|k: int| 0 <= k < suite_ids.len() ==> planned_suite_of(#[trigger] plan.suites@[k], v, suite_ids[k])
    &&& forall|i: int| 0 <= i < plan.check_executions@.len() ==> execution_consistent(#[trigger] plan.check_executions@[i])
    &&& Seq::new(plan.check_executions@.len(), |i: int| key_view(plan.check_executions@[i].key)) == suites_key_views(
        c.config,
        suite_ids,
    )
    &&& plan.suite_check_executions@.len() == suite_ids.len()
    &&& forall|k: int|
        0 <= k < suite_ids.len() ==> key_views(#[trigger] plan.suite_check_executions@[k]@) == suite_key_views(
            suite_ids[k],
            suite_named(c.config, suite_ids[k]).checks@,
        )
    &&& plan.descendant_check_executions@.len() == group_ids.len()
    &&& forall|k: int| 0 <= k < group_ids.len() ==> descendant_of(c, group_ids[k], #[trigger] plan.descendant_check_executions@[k]@)
}

fn copy_value(value: &ParameterValue) -> (r: ParameterValue)
    ensures
        value_view(r) == value_view(*value),
{
    match value {
        ParameterValue::Single(text) => ParameterValue::Single(owned(text.as_str())),
        ParameterValue::Multiple(values) => ParameterValue::Multiple(clone_strings(values)),
    }
}

fn copy_bindings(bindings: &Vec<(String, ParameterValue)>) -> (r: Vec<(String, ParameterValue)>)
    ensures
        binding_views(r@) == binding_views(bindings@),
        keys_of(r@) == keys_of(bindings@),
{
    let mut r: Vec<(String, ParameterValue)> = Vec::new();
    let mut k: usize = 0;
    while k < bindings.len()
        invariant
            k <= bindings@.len(),
            r@.len() == k,
            forall|m: int| 0 <= m < k ==> (#[trigger] r@[m]).0@ == bindings@[m].0@ && value_view(r@[m].1) == value_view(bindings@[m].1),
        decreases bindings@.len() - k,
    {
        r.push((owned(bindings[k].0.as_str()), copy_value(&bindings[k].1)));
        k = k + 1;
    }
    assert(binding_views(r@) =~= binding_views(bindings@));
    assert(keys_of(r@) =~= keys_of(bindings@));
    r
}

pub fn copy_members(members: &Vec<GroupMemberRef>) -> (r: Vec<GroupMemberRef>)
    ensures
        member_views(r@) == member_views(members@),
{
    let mut r: Vec<GroupMemberRef> = Vec::new();
    let mut k: usize = 0;
    while k < members.len()
        invariant
            k <= members@.len(),
            r@.len() == k,
            forall|m: int| 0 <= m < k ==> member_view(#[trigger] r@[m]) == member_view(members@[m]),
        decreases members@.len() - k,
    {
        let member = match &members[k] {
            GroupMemberRef::Group { id } => GroupMemberRef::Group { id: owned(id.as_str()) },
            GroupMemberRef::Suite { id } => GroupMemberRef::Suite { id: owned(id.as_str()) },
        };
        r.push(member);
        k = k + 1;
    }
    assert(member_views(r@) =~= member_views(members@));
    r
}

fn plan_check(v: &ValidatedConfig, p: usize, j: usize) -> (r: PlannedSuiteCheck)
    requires
        v.wf(),
        p < v.checked.config.suites@.len(),
        j < v.checked.config.suites@[p as int].checks@.len(),
    ensures
        planned_check_of(r, v.checked.config.suites@[p as int].checks@[j as int], v.checked.config),
{
    let c = &v.checked;
    let invocation = &c.config.suites[p].checks[j];
    proof {
        lemma_invocation_declared(*c, p as int, j as int);
    }
    let q = match c.check_position(invocation.check_id.as_str()) {
        Some(q) => q,
        None => {
            proof {
                assert(false);
            }
            0
        },
    };
    let arguments = expand(c.config.checks[q].args.as_slice(), &invocation.parameters);
    PlannedSuiteCheck {
        check_id: owned(invocation.check_id.as_str()),
        arguments,
        parameters: copy_bindings(&invocation.parameters),
        depends_on: clone_strings(&invocation.depends_on),
    }
}

fn plan_suite(v: &ValidatedConfig, id: &str) -> (r: PlannedSuite)
    requires
        v.wf(),
        keys_of(v.checked.config.suites@).contains(id@),
    ensures
        planned_suite_of(r, *v, id@),
{
    let c = &v.checked;
    let p = match c.suite_position(id) {
        Some(p) => p,
        None => {
            proof {
                assert(false);
            }
            0
        },
    };
    let k = match crate::text::find_key(&c.suites, id) {
        Some(k) => k,
        None => {
            proof {
                assert(false);
            }
            0
        },
    };
    proof {
        assert(keys_of(c.suites@)[k as int] == id@);
        let e = entry_of(c.suites@, id@);
        assert(c.suites@[k as int].key_view() == id@);
        if e != k as int {
            crate::text::lemma_sorted_distinct(keys_of(c.suites@), e, k as int);
        }
    }
    let suite = &c.config.suites[p];
    let mut checks: Vec<PlannedSuiteCheck> = Vec::new();
    let mut j: usize = 0;
    while j < suite.checks.len()
        invariant
            v.wf(),
            c == &v.checked,
            p < c.config.suites@.len(),
            *suite == c.config.suites@[p as int],
            j <= suite.checks@.len(),
            checks@.len() == j,
            forall|m: int| 0 <= m < j ==> planned_check_of(#[trigger] checks@[m], suite.checks@[m], c.config),
        decreases suite.checks@.len() - j,
    {
        checks.push(plan_check(v, p, j));
        j = j + 1;
    }
    let directory = &v.suite_directories[k];
    PlannedSuite {
        id: owned(id),
        label: owned(suite.label.as_str()),
        description: owned(suite.description.as_str()),
        checks,
        working_directory: owned(directory.absolute.as_str()),
        relative_working_directory: owned(directory.relative.as_str()),
    }
}

fn plan_group(c: &CheckedConfig, id: &str, levels: &Vec<usize>) -> (r: PlannedGroup)
    requires
        c.wf(),
        keys_of(c.config.groups@).contains(id@),
        levels_of(*c, levels@),
    ensures
        planned_group_of(r, *c, id@, levels@),
{
    let p = match c.group_position(id) {
        Some(p) => p,
        None => {
            proof {
                assert(false);
            }
            0
        },
    };
    let k = match crate::text::find_key(&c.group_graph, id) {
        Some(k) => k,
        None => {
            proof {
                let q = crate::config::validation::lemma_indexed_position(c.groups@, c.config.groups@, p as int);
                assert(c.group_graph@[q].0@ == id@);
                assert(keys_of(c.group_graph@)[q] == id@);
                assert(false);
            }
            0
        },
    };
    proof {
        assert(keys_of(c.group_graph@)[k as int] == id@);
        lemma_entry_is(c.group_graph@, k as int);
    }
    let group = &c.config.groups[p];
    PlannedGroup {
        id: owned(id),
        label: owned(group.label.as_str()),
        description: owned(group.description.as_str()),
        members: copy_members(&group.members),
        level: levels[k],
    }
}

fn suite_keys(v: &ValidatedConfig, id: &str) -> (r: Vec<CheckExecutionKey>)
    requires
        v.wf(),
        keys_of(v.checked.config.suites@).contains(id@),
    ensures
        key_views(r@) == suite_key_views(id@, suite_named(v.checked.config, id@).checks@),
{
    let c = &v.checked;
    let p = match c.suite_position(id) {
        Some(p) => p,
        None => {
            proof {
                assert(false);
            }
            0
        },
    };
    let checks = &c.config.suites[p].checks;
    let mut r: Vec<CheckExecutionKey> = Vec::new();
    let mut j: usize = 0;
    while j < checks.len()
        invariant
            j <= checks@.len(),
            r@.len() == j,
            forall|m: int| 0 <= m < j ==> key_view(#[trigger] r@[m]) == (Some(id@), checks@[m].check_id@),
        decreases checks@.len() - j,
    {
        r.push(CheckExecutionKey::Suite { suite_id: owned(id), check_id: owned(checks[j].check_id.as_str()) });
        j = j + 1;
    }
    assert(key_views(r@) =~= suite_key_views(id@, checks@));
    r
}

/// The keys of planned executions.
pub open spec fn execution_keys(executions: Seq<PlannedCheckExecution>) -> Seq<(Option<Seq<char>>, Seq<char>)> {
    Seq::new(executions.len(), |i: int| key_view(executions[i].key))
}

fn push_executions(executions: &mut Vec<PlannedCheckExecution>, keys: &Vec<CheckExecutionKey>)
    requires
        forall|i: int| 0 <= i < old(executions)@.len() ==> execution_consistent(#[trigger] old(executions)@[i]),
    ensures
        forall|i: int| 0 <= i < final(executions)@.len() ==> execution_consistent(#[trigger] final(executions)@[i]),
        execution_keys(final(executions)@) == execution_keys(old(executions)@) + key_views(keys@),
{
    let ghost before = executions@;
    let mut m: usize = 0;
    while m < keys.len()
        invariant
            m <= keys@.len(),
            forall|i: int| 0 <= i < executions@.len() ==> execution_consistent(#[trigger] executions@[i]),
            execution_keys(executions@) == execution_keys(before) + key_views(keys@).take(m as int),
        decreases keys@.len() - m,
    {
        let ghost prev = executions@;
        let execution = match &keys[m] {
            CheckExecutionKey::Suite { suite_id, check_id } => PlannedCheckExecution {
                key: CheckExecutionKey::Suite { suite_id: owned(suite_id.as_str()), check_id: owned(check_id.as_str()) },
                check_id: owned(check_id.as_str()),
                suite_id: Some(owned(suite_id.as_str())),
            },
            CheckExecutionKey::Direct { check_id } => PlannedCheckExecution {
                key: CheckExecutionKey::Direct { check_id: owned(check_id.as_str()) },
                check_id: owned(check_id.as_str()),
                suite_id: None,
            },
        };
        executions.push(execution);
        assert(executions@ == prev.push(execution));
        assert(execution_keys(executions@) =~= execution_keys(prev).push(key_view(execution.key)));
        assert(key_views(keys@).take(m + 1) =~= key_views(keys@).take(m as int).push(key_view(keys@[m as int])));
        m = m + 1;
    }
    assert(key_views(keys@).take(keys@.len() as int) =~= key_views(keys@));
}

#[verifier::rlimit(40)]
fn build_plan(
    v: &ValidatedConfig,
    selection: ValidationSelection,
    group_order: &Vec<String>,
    suite_order: &Vec<String>,
    levels: &Vec<usize>,
) -> (r: ValidationPlan)
    requires
        v.wf(),
        levels_of(v.checked, levels@),
        forall|k: int| 0 <= k < group_order@.len() ==> keys_of(v.checked.config.groups@).contains(#[trigger] group_order@[k]@),
        forall|k: int| 0 <= k < suite_order@.len() ==> keys_of(v.checked.config.suites@).contains(#[trigger] suite_order@[k]@),
    ensures
        r.selection == selection,
        plan_describes(r, *v, views(group_order@), views(suite_order@), levels@),
{
    let c = &v.checked;
    let mut groups: Vec<PlannedGroup> = Vec::new();
    let mut descendants: Vec<Vec<CheckExecutionKey>> = Vec::new();
    let mut k: usize = 0;
    while k < group_order.len()
        invariant
            v.wf(),
            c == &v.checked,
            levels_of(*c, levels@),
            forall|m: int| 0 <= m < group_order@.len() ==> keys_of(c.config.groups@).contains(#[trigger] group_order@[m]@),
            forall|m: int| 0 <= m < suite_order@.len() ==> keys_of(c.config.suites@).contains(#[trigger] suite_order@[m]@),
            k <= group_order@.len(),
            groups@.len() == k,
            descendants@.len() == k,
            forall|m: int| 0 <= m < k ==> planned_group_of(#[trigger] groups@[m], *c, group_order@[m]@, levels@),
            forall|m: int| 0 <= m < k ==> descendant_of(*c, group_order@[m]@, #[trigger] descendants@[m]@),
        decreases group_order@.len() - k,
    {
        let id = group_order[k].as_str();
        assert(keys_of(c.config.groups@).contains(group_order@[k as int]@));
        groups.push(plan_group(c, id, levels));
        let reached = reach_from(c, id);
        let reached_suites = &reached.1;
        let mut keys: Vec<CheckExecutionKey> = Vec::new();
        let ghost parts = Seq::new(
            reached_suites@.len(),
            |q: int| suite_key_views(reached_suites@[q]@, suite_named(c.config, reached_suites@[q]@).checks@),
        );
        let mut q: usize = 0;
        while q < reached_suites.len()
            invariant
                v.wf(),
                c == &v.checked,
                q <= reached_suites@.len(),
                keys_of(c.config.groups@).contains(id@),
                forall|x: Seq<char>| views(reached_suites@).contains(x) <==> suites_reached(*c, id@, x),
                parts == Seq::new(
                    reached_suites@.len(),
                    |q: int| suite_key_views(reached_suites@[q]@, suite_named(c.config, reached_suites@[q]@).checks@),
                ),
                key_views(keys@) == joined(parts.take(q as int)),
            decreases reached_suites@.len() - q,
        {
            let s = reached_suites[q].as_str();
            proof {
                assert(views(reached_suites@)[q as int] == s@);
                assert(views(reached_suites@).contains(s@));
                let w = choose|w: Seq<char>| reaches(c.group_graph@, id@, w) && #[trigger] has_suite_member(group_named(c.config, w), s@);
                lemma_graph_nodes(*c, id@);
                lemma_reached_declared(*c, id@, w);
                lemma_graph_nodes(*c, w);
                lemma_suite_member_declared(*c, w, s@);
            }
            let part = suite_keys(v, s);
            let ghost before = keys@;
            let mut m: usize = 0;
            while m < part.len()
                invariant
                    m <= part@.len(),
                    key_views(keys@) == key_views(before) + key_views(part@).take(m as int),
                decreases part@.len() - m,
            {
                let ghost prev = keys@;
                let key = match &part[m] {
                    CheckExecutionKey::Suite { suite_id, check_id } => CheckExecutionKey::Suite {
                        suite_id: owned(suite_id.as_str()),
                        check_id: owned(check_id.as_str()),
                    },
                    CheckExecutionKey::Direct { check_id } => CheckExecutionKey::Direct { check_id: owned(check_id.as_str()) },
                };
                keys.push(key);
                assert(keys@ == prev.push(key));
                assert(key_views(keys@) =~= key_views(prev).push(key_view(key)));
                assert(key_views(part@).take(m + 1) =~= key_views(part@).take(m as int).push(key_view(part@[m as int])));
                m = m + 1;
            }
            proof {
                assert(key_views(part@).take(part@.len() as int) =~= key_views(part@));
                lemma_joined_take(parts, q as int);
            }
            q = q + 1;
        }
        proof {
            assert(parts.take(parts.len() as int) =~= parts);
            assert(key_views(keys@) == suites_key_views(c.config, views(reached_suites@))) by {
                assert(parts =~= Seq::new(
                    views(reached_suites@).len(),
                    |q: int| suite_key_views(views(reached_suites@)[q], suite_named(c.config, views(reached_suites@)[q]).checks@),
                ));
            }
            assert(descendant_of(*c, id@, keys@));
        }
        descendants.push(keys);
        k = k + 1;
    }
    let mut suites: Vec<PlannedSuite> = Vec::new();
    let mut executions: Vec<PlannedCheckExecution> = Vec::new();
    let mut per_suite: Vec<Vec<CheckExecutionKey>> = Vec::new();
    let ghost parts = Seq::new(
        suite_order@.len(),
        |q: int| suite_key_views(suite_order@[q]@, suite_named(c.config, suite_order@[q]@).checks@),
    );
    let mut k: usize = 0;
    while k < suite_order.len()
        invariant
            v.wf(),
            c == &v.checked,
            forall|m: int| 0 <= m < suite_order@.len() ==> keys_of(c.config.suites@).contains(#[trigger] suite_order@[m]@),
            k <= suite_order@.len(),
            suites@.len() == k,
            per_suite@.len() == k,
            parts == Seq::new(
                suite_order@.len(),
                |q: int| suite_key_views(suite_order@[q]@, suite_named(c.config, suite_order@[q]@).checks@),
            ),
            forall|m: int| 0 <= m < k ==> planned_suite_of(#[trigger] suites@[m], *v, suite_order@[m]@),
            forall|m: int| 0 <= m < k ==> key_views(#[trigger] per_suite@[m]@) == parts[m],
            forall|i: int| 0 <= i < executions@.len() ==> execution_consistent(#[trigger] executions@[i]),
            execution_keys(executions@) == joined(parts.take(k as int)),
        decreases suite_order@.len() - k,
    {
        let id = suite_order[k].as_str();
        suites.push(plan_suite(v, id));
        let keys = suite_keys(v, id);
        push_executions(&mut executions, &keys);
        proof {
            lemma_joined_take(parts, k as int);
        }
        per_suite.push(keys);
        k = k + 1;
    }
    proof {
        assert(parts.take(parts.len() as int) =~= parts);
        assert(parts =~= Seq::new(
            views(suite_order@).len(),
            |q: int| suite_key_views(views(suite_order@)[q], suite_named(c.config, views(suite_order@)[q]).checks@),
        ));
    }
    ValidationPlan {
        selection,
        groups,
        suites,
        check_executions: executions,
        descendant_check_executions: descendants,
        suite_check_executions: per_suite,
    }
}

/// `plan` covers group `root`: the groups it reaches, each once, root first,
/// and the suites they list, each once, with their levels.
pub open spec fn group_plan(plan: ValidationPlan, v: ValidatedConfig, root: Seq<char>) -> bool {
    exists|levels: Seq<usize>, groups: Seq<Seq<char>>, suites: Seq<Seq<char>>|
        #![trigger plan_describes(plan, v, groups, suites, levels)]
        {
            &&& levels_of(v.checked, levels)
            &&& groups.len() >= 1
            &&& groups[0] == root
            &&& groups.no_duplicates()
            &&& forall|x: Seq<char>| groups.contains(x) <==> reaches(v.checked.group_graph@, root, x)
            &&& suites.no_duplicates()
            &&& forall|s: Seq<char>| suites.contains(s) <==> suites_reached(v.checked, root, s)
            &&& plan_describes(plan, v, groups, suites, levels)
        }
}

/// `plan` covers group `root` in walk order: the groups that the
/// depth-first walk from `root` lists, in that order, and their suites in
/// the order that walk first meets them.
pub open spec fn group_plan_in_order(plan: ValidationPlan, v: ValidatedConfig, root: Seq<char>) -> bool {
    exists|levels: Seq<usize>|
        #![trigger plan_describes(plan, v, reach_order(v.checked, root).0, reach_order(v.checked, root).1, levels)]
        {
            &&& levels_of(v.checked, levels)
            &&& plan_describes(plan, v, reach_order(v.checked, root).0, reach_order(v.checked, root).1, levels)
        }
}

/// `plan` covers suite `id` alone.
pub open spec fn suite_plan(plan: ValidationPlan, v: ValidatedConfig, id: Seq<char>) -> bool {
    &&& plan.selection matches ValidationSelection::Suite { id: s } && s@ == id
    &&& plan_describes(plan, v, Seq::empty(), seq![id], Seq::empty())
}

/// Plans an explicitly selected group and its reachable members.
///
/// Groups are planned in depth-first preorder from `root`, members in
/// declaration order; suites in the order that walk first meets them.
pub fn group(validated: &ValidatedConfig, root: &str) -> (r: Result<ValidationPlan, PlanningError>)
    requires
        validated.wf(),
    ensures
        r matches Ok(plan) ==> plan.wf(),
        !keys_of(validated.checked.config.groups@).contains(root@) ==> (r matches Err(PlanningError::GroupNotFound { id })
            && id@ == root@),
        keys_of(validated.checked.config.groups@).contains(root@) ==> (r matches Ok(plan) && (plan.selection matches ValidationSelection::Group { id } && id@ == root@) && group_plan(plan, *validated, root@)),
        keys_of(validated.checked.config.groups@).contains(root@) ==> (r matches Ok(plan) && group_plan_in_order(plan, *validated, root@)),
{
    let c = &validated.checked;
    match c.group_position(root) {
        None => {
            return Err(PlanningError::GroupNotFound { id: owned(root) });
        },
        Some(p) => {
            assert(keys_of(c.config.groups@)[p as int] == root@);
        },
    }
    let levels = group_levels(c);
    let reached = reach_from(c, root);
    let ghost groups = views(reached.0@);
    let ghost suites = views(reached.1@);
    proof {
        assert forall|k: int| 0 <= k < reached.0@.len() implies keys_of(c.config.groups@).contains(#[trigger] reached.0@[k]@) by {
            assert(groups[k] == reached.0@[k]@);
            assert(groups.contains(reached.0@[k]@));
            lemma_graph_nodes(*c, root@);
            lemma_reached_declared(*c, root@, reached.0@[k]@);
            lemma_graph_nodes(*c, reached.0@[k]@);
        }
        assert forall|k: int| 0 <= k < reached.1@.len() implies keys_of(c.config.suites@).contains(#[trigger] reached.1@[k]@) by {
            assert(suites[k] == reached.1@[k]@);
            assert(suites.contains(reached.1@[k]@));
            let w = choose|w: Seq<char>| reaches(c.group_graph@, root@, w) && #[trigger] has_suite_member(group_named(c.config, w), reached.1@[k]@);
            lemma_graph_nodes(*c, root@);
            lemma_reached_declared(*c, root@, w);
            lemma_graph_nodes(*c, w);
            lemma_suite_member_declared(*c, w, reached.1@[k]@);
        }
    }
    let plan = build_plan(
        validated,
        ValidationSelection::Group { id: owned(root) },
        &reached.0,
        &reached.1,
        &levels,
    );
    proof {
        assert(plan_describes(plan, *validated, groups, suites, levels@));
        assert(groups == reach_order(*c, root@).0 && suites == reach_order(*c, root@).1);
    }
    Ok(plan)
}

/// Plans an explicitly selected executable suite without creating a group.
pub fn suite(validated: &ValidatedConfig, id: &str) -> (r: Result<ValidationPlan, PlanningError>)
    requires
        validated.wf(),
    ensures
        r matches Ok(plan) ==> plan.wf(),
        !keys_of(validated.checked.config.suites@).contains(id@) ==> (r matches Err(PlanningError::SuiteNotFound { id: e })
            && e@ == id@),
        keys_of(validated.checked.config.suites@).contains(id@) ==> (r matches Ok(plan) && suite_plan(plan, *validated, id@)),
{
    let c = &validated.checked;
    match c.suite_position(id) {
        None => {
            return Err(PlanningError::SuiteNotFound { id: owned(id) });
        },
        Some(p) => {
            assert(keys_of(c.config.suites@)[p as int] == id@);
        },
    }
    let no_groups: Vec<String> = Vec::new();
    let mut only: Vec<String> = Vec::new();
    only.push(owned(id));
    proof {
        assert(only@[0]@ == id@);
    }
    let levels = group_levels(c);
    let plan = build_plan(validated, ValidationSelection::Suite { id: owned(id) }, &no_groups, &only, &levels);
    proof {
        assert(views(no_groups@) =~= Seq::<Seq<char>>::empty());
        assert(views(only@) =~= seq![id@]);
        assert(plan_describes(plan, *validated, Seq::empty(), seq![id@], levels@));
        assert(plan_describes(plan, *validated, Seq::empty(), seq![id@], Seq::empty()));
    }
    Ok(plan)
}

/// `plan` covers check `id` alone, run directly at the workspace root.
pub open spec fn check_plan(plan: ValidationPlan, id: Seq<char>) -> bool {
    &&& plan.selection matches ValidationSelection::Check { id: s } && s@ == id
    &&& plan.groups@.len() == 0
    &&& plan.suites@.len() == 0
    &&& plan.check_executions@.len() == 1
    &&& key_view(plan.check_executions@[0].key) == (None::<Seq<char>>, id)
    &&& execution_consistent(plan.check_executions@[0])
    &&& plan.descendant_check_executions@.len() == 0
    &&& plan.suite_check_executions@.len() == 0
}

/// Plans a direct check whose placeholders are omitted at the workspace root.
pub fn check(validated: &ValidatedConfig, id: &str) -> (r: Result<ValidationPlan, PlanningError>)
    requires
        validated.wf(),
    ensures
        r matches Ok(plan) ==> plan.wf(),
        !keys_of(validated.checked.config.checks@).contains(id@) ==> (r matches Err(PlanningError::CheckNotFound { id: e })
            && e@ == id@),
        keys_of(validated.checked.config.checks@).contains(id@) ==> (r matches Ok(plan) && check_plan(plan, id@)),
{
    match validated.checked.check_position(id) {
        None => {
            return Err(PlanningError::CheckNotFound { id: owned(id) });
        },
        Some(p) => {
            assert(keys_of(validated.checked.config.checks@)[p as int] == id@);
        },
    }
    let mut check_executions: Vec<PlannedCheckExecution> = Vec::new();
    check_executions.push(
        PlannedCheckExecution {
            key: CheckExecutionKey::Direct { check_id: owned(id) },
            check_id: owned(id),
            suite_id: None,
        },
    );
    Ok(
        ValidationPlan {
            selection: ValidationSelection::Check { id: owned(id) },
            groups: Vec::new(),
            suites: Vec::new(),
            check_executions,
            descendant_check_executions: Vec::new(),
            suite_check_executions: Vec::new(),
        },
    )
}

/// Plans the default group or an explicitly requested group or suite.
///
/// A requested identifier names a group first, then a suite.
pub fn target(validated: &ValidatedConfig, requested: Option<&str>) -> (r: Result<ValidationPlan, PlanningError>)
    requires
        validated.wf(),
    ensures
        r matches Ok(plan) ==> plan.wf(),
        ({
            let config = validated.checked.config;
            let id = match requested {
                Some(id) => id@,
                None => config.default_group@,
            };
            if keys_of(config.groups@).contains(id) {
                r matches Ok(plan) && (plan.selection matches ValidationSelection::Group { id: g } && g@ == id)
                    && group_plan(plan, *validated, id) && group_plan_in_order(plan, *validated, id)
            } else if keys_of(config.suites@).contains(id) {
                r matches Ok(plan) && suite_plan(plan, *validated, id)
            } else {
                r matches Err(PlanningError::TargetNotFound { id: e }) && e@ == id
            }
        }),
{
    let id = match requested {
        Some(id) => id,
        None => validated.checked.config.default_group.as_str(),
    };
    match validated.checked.group_position(id) {
        Some(p) => {
            assert(keys_of(validated.checked.config.groups@)[p as int] == id@);
            group(validated, id)
        },
        None => match validated.checked.suite_position(id) {
            Some(p) => {
                assert(keys_of(validated.checked.config.suites@)[p as int] == id@);
                suite(validated, id)
            },
            None => Err(PlanningError::TargetNotFound { id: owned(id) }),
        },
    }
}

} // verus!
