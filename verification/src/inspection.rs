//! Read-only descriptions of a validated configuration.
//!
//! Each description is a list of output lines; printing them is left to
//! the caller.

use vstd::prelude::*;
use crate::config::parameters::{expand, expansion};
use crate::config::validation::{in_key_order, lemma_check_tools_declared, CheckedConfig, ValidatedConfig};
use crate::contracts::config::{CheckConfig, GroupConfig, GroupMemberRef, ParameterValue, SuiteConfig};
use crate::reporting::result::{first_where, lemma_first_where_extend, lemma_first_where_step};
use crate::planning::ValidationPlan;
use crate::text::{concat2, entry_of, insert_sorted, strictly_sorted, debug_quoted, debug_text, decimal, decimal_text, joined, keys_of, owned, views};

verus! {

/// A command line as inspection shows it: each word quoted as `Debug` quotes it.
pub open spec fn command_text(program: Seq<char>, args: Seq<Seq<char>>) -> Seq<char> {
    debug_quoted(program) + joined(Seq::new(args.len(), |i: int| " "@ + debug_quoted(args[i])))
}

/// Renders a command line with each word quoted.
pub fn command(program: &str, args: &Vec<String>) -> (r: String)
    ensures
        r@ == command_text(program@, views(args@)),
{
    let ghost parts = Seq::new(args@.len(), |i: int| " "@ + debug_quoted(args@[i]@));
    let mut r = debug_text(program);
    let mut i: usize = 0;
    while i < args.len()
        invariant
            i <= args@.len(),
            parts == Seq::new(args@.len(), |i: int| " "@ + debug_quoted(args@[i]@)),
            r@ == debug_quoted(program@) + joined(parts.take(i as int)),
        decreases args@.len() - i,
    {
        proof {
            crate::text::lemma_joined_take(parts, i as int);
        }
        r.append(" ");
        r.append(debug_text(args[i].as_str()).as_str());
        i = i + 1;
    }
    assert(parts.take(args@.len() as int) =~= parts);
    assert(views(args@).len() == args@.len());
    assert(parts =~= Seq::new(views(args@).len(), |i: int| " "@ + debug_quoted(views(args@)[i])));
    r
}

/// Deepest indentation drawn in full.
pub const MAX_VISIBLE_DEPTH: usize = 32;

/// `n` pairs of spaces.
pub open spec fn spaces(n: nat) -> Seq<char> {
    Seq::new(2 * n, |i: int| ' ')
}

/// The indentation of a hierarchy line at `depth`; past the deepest level
/// drawn, the hidden levels are counted instead.
pub open spec fn indent_text(depth: nat) -> Seq<char> {
    if depth <= MAX_VISIBLE_DEPTH {
        spaces(depth)
    } else {
        spaces(MAX_VISIBLE_DEPTH as nat) + "...(+"@ + decimal_text((depth - MAX_VISIBLE_DEPTH) as nat) + ") "@
    }
}

/// Returns the indentation of a hierarchy line at `depth`.
pub fn tree_indent(depth: usize) -> (r: String)
    ensures
        r@ == indent_text(depth as nat),
{
    let shown = if depth <= MAX_VISIBLE_DEPTH {
        depth
    } else {
        MAX_VISIBLE_DEPTH
    };
    let mut r = String::new();
    let mut i: usize = 0;
    while i < shown
        invariant
            shown <= MAX_VISIBLE_DEPTH,
            i <= shown,
            r@ == spaces(i as nat),
        decreases shown - i,
    {
        r.append("  ");
        proof {
            reveal_strlit("  ");
        }
        assert(r@ =~= spaces((i + 1) as nat));
        i = i + 1;
    }
    if depth > MAX_VISIBLE_DEPTH {
        r.append("...(+");
        r.append(decimal((depth - MAX_VISIBLE_DEPTH) as u64).as_str());
        r.append(") ");
    }
    r
}

/// The kind word of a node.
pub open spec fn kind_text(is_group: bool) -> Seq<char> {
    if is_group {
        "GROUP"@
    } else {
        "SUITE"@
    }
}

/// A group member names the node `(is_group, id)`.
pub open spec fn names(member: GroupMemberRef, is_group: bool, id: Seq<char>) -> bool {
    match member {
        GroupMemberRef::Group { id: m } => is_group && m@ == id,
        GroupMemberRef::Suite { id: m } => !is_group && m@ == id,
    }
}

/// Some member of `group` names the node.
pub open spec fn contains_node(group: GroupConfig, is_group: bool, id: Seq<char>) -> bool {
    exists|m: int| 0 <= m < group.members@.len() && names(#[trigger] group.members@[m], is_group, id)
}

/// The groups among `groups` that hold the node as a member, by identifier, in order.
pub open spec fn parent_ids(groups: Seq<GroupConfig>, is_group: bool, id: Seq<char>) -> Seq<Seq<char>>
    decreases groups.len(),
{
    if groups.len() == 0 {
        Seq::empty()
    } else {
        let rest = parent_ids(groups.drop_last(), is_group, id);
        if contains_node(groups.last(), is_group, id) {
            rest.push(groups.last().id@)
        } else {
            rest
        }
    }
}

/// The groups that hold the node as a member, in identifier order.
pub open spec fn parents_of(c: CheckedConfig, is_group: bool, id: Seq<char>) -> Seq<Seq<char>> {
    parent_ids(in_key_order(c.groups@, c.config.groups@), is_group, id)
}

fn has_member(group: &GroupConfig, is_group: bool, id: &str) -> (r: bool)
    ensures
        r == contains_node(*group, is_group, id@),
{
    let mut m: usize = 0;
    while m < group.members.len()
        invariant
            m <= group.members@.len(),
            forall|k: int| 0 <= k < m ==> !names(#[trigger] group.members@[k], is_group, id@),
        decreases group.members@.len() - m,
    {
        let found = match &group.members[m] {
            GroupMemberRef::Group { id: member } => is_group && crate::text::text_eq(member.as_str(), id),
            GroupMemberRef::Suite { id: member } => !is_group && crate::text::text_eq(member.as_str(), id),
        };
        if found {
            assert(names(group.members@[m as int], is_group, id@));
            return true;
        }
        m = m + 1;
    }
    false
}

/// Returns the groups that hold the node as a member, in identifier order.
pub fn parents(c: &CheckedConfig, is_group: bool, id: &str) -> (r: Vec<String>)
    requires
        c.wf(),
    ensures
        views(r@) == parents_of(*c, is_group, id@),
{
    let ghost ordered = in_key_order(c.groups@, c.config.groups@);
    let mut r: Vec<String> = Vec::new();
    let mut k: usize = 0;
    while k < c.groups.len()
        invariant
            c.wf(),
            ordered == in_key_order(c.groups@, c.config.groups@),
            k <= c.groups@.len(),
            views(r@) == parent_ids(ordered.take(k as int), is_group, id@),
        decreases c.groups@.len() - k,
    {
        assert(ordered.take(k + 1).drop_last() =~= ordered.take(k as int));
        let p = c.groups[k].1;
        assert(ordered[k as int] == c.config.groups@[p as int]);
        let group = &c.config.groups[p];
        if has_member(group, is_group, id) {
            let ghost before = views(r@);
            r.push(owned(group.id.as_str()));
            assert(views(r@) =~= before.push(group.id@));
        }
        k = k + 1;
    }
    assert(ordered.take(c.groups@.len() as int) =~= ordered);
    r
}

/// The text of a node: its kind word and identifier.
pub open spec fn node_text(is_group: bool, id: Seq<char>) -> Seq<char> {
    kind_text(is_group) + " "@ + id
}

/// Every membership chain from a root group down to the node, each written
/// from the root, ` -> ` between nodes; chains through earlier parents
/// first. `depth` bounds the number of steps up; a chain of distinct
/// groups takes at most one step per group.
pub open spec fn chains(c: CheckedConfig, is_group: bool, id: Seq<char>, depth: nat) -> Seq<Seq<char>>
    decreases depth, 1nat,
{
    let above = parents_of(c, is_group, id);
    if above.len() == 0 || depth == 0 {
        seq![node_text(is_group, id)]
    } else {
        joined(chain_parts(c, is_group, id, above, depth))
    }
}

/// The chains through each parent in `above`, each extended down to the node.
pub open spec fn chain_parts(
    c: CheckedConfig,
    is_group: bool,
    id: Seq<char>,
    above: Seq<Seq<char>>,
    depth: nat,
) -> Seq<Seq<Seq<char>>>
    decreases depth, 0nat,
{
    if depth == 0 {
        Seq::empty()
    } else {
        Seq::new(
            above.len(),
            |i: int|
                {
                    let upper = chains(c, true, above[i], (depth - 1) as nat);
                    Seq::new(upper.len(), |j: int| upper[j] + " -> "@ + node_text(is_group, id))
                },
        )
    }
}

/// The membership path lines of a node: each chain, indented.
pub open spec fn path_lines(c: CheckedConfig, is_group: bool, id: Seq<char>) -> Seq<Seq<char>> {
    let all = chains(c, is_group, id, c.config.groups@.len());
    Seq::new(all.len(), |i: int| "  "@ + all[i])
}

#[verifier::spinoff_prover]
#[verifier::rlimit(40)]
fn push_chains(
    c: &CheckedConfig,
    is_group: bool,
    id: &str,
    below: &str,
    depth: usize,
    out: &mut Vec<String>,
)
    requires
        c.wf(),
    ensures
        views(final(out)@) == views(old(out)@) + ({
            let all = chains(*c, is_group, id@, depth as nat);
            Seq::new(all.len(), |i: int| "  "@ + all[i] + below@)
        }),
    decreases depth,
{
    let above = parents(c, is_group, id);
    let ghost start = views(out@);
    let mut text = owned(if is_group {
        "GROUP"
    } else {
        "SUITE"
    });
    text.append(" ");
    text.append(id);
    assert(text@ == node_text(is_group, id@));
    if above.len() == 0 || depth == 0 {
        let mut line = concat2("  ", text.as_str());
        line.append(below);
        out.push(line);
        assert(views(out@) =~= start + ({
            let all = chains(*c, is_group, id@, depth as nat);
            Seq::new(all.len(), |i: int| "  "@ + all[i] + below@)
        }));
        return ;
    }
    let mut suffix = concat2(" -> ", text.as_str());
    suffix.append(below);
    let ghost av = views(above@);
    let ghost parts = chain_parts(*c, is_group, id@, av, depth as nat);
    let mut i: usize = 0;
    while i < above.len()
        invariant
            c.wf(),
            av == views(above@),
            av == parents_of(*c, is_group, id@),
            av.len() > 0,
            0 < depth,
            suffix@ == " -> "@ + node_text(is_group, id@) + below@,
            parts == chain_parts(*c, is_group, id@, av, depth as nat),
            i <= above@.len(),
            views(out@) == start + ({
                let done = joined(parts.take(i as int));
                Seq::new(done.len(), |j: int| "  "@ + done[j] + below@)
            }),
        decreases above@.len() - i,
    {
        let ghost before = views(out@);
        push_chains(c, true, above[i].as_str(), suffix.as_str(), depth - 1, out);
        proof {
            crate::text::lemma_joined_take(parts, i as int);
            let done = joined(parts.take(i as int));
            let upper = chains(*c, true, av[i as int], (depth - 1) as nat);
            let part = parts[i as int];
            assert(part.len() == upper.len());
            let next = joined(parts.take(i + 1));
            assert(next == done + part);
            assert(Seq::new(next.len(), |j: int| "  "@ + next[j] + below@) =~= Seq::new(
                done.len(),
                |j: int| "  "@ + done[j] + below@,
            ) + Seq::new(upper.len(), |j: int| "  "@ + upper[j] + suffix@)) by {
                assert forall|j: int| 0 <= j < upper.len() implies "  "@ + part[j] + below@ == "  "@ + upper[j]
                    + suffix@ by {
                    assert(part[j] == upper[j] + " -> "@ + node_text(is_group, id@));
                    assert("  "@ + (upper[j] + " -> "@ + node_text(is_group, id@)) + below@ =~= "  "@ + upper[j] + (
                    " -> "@ + node_text(is_group, id@) + below@));
                }
            }
        }
        i = i + 1;
    }
    assert(parts.take(above@.len() as int) =~= parts);
    assert(chains(*c, is_group, id@, depth as nat) == joined(parts));
}

/// Returns the membership path lines of a node.
pub fn membership_paths(c: &CheckedConfig, is_group: bool, id: &str) -> (r: Vec<String>)
    requires
        c.wf(),
    ensures
        views(r@) == path_lines(*c, is_group, id@),
{
    let mut r: Vec<String> = Vec::new();
    let depth = c.config.groups.len();
    push_chains(c, is_group, id, "", depth, &mut r);
    proof {
        reveal_strlit("");
        let all = chains(*c, is_group, id@, depth as nat);
        assert(Seq::new(all.len(), |i: int| "  "@ + all[i] + ""@) =~= path_lines(*c, is_group, id@)) by {
            assert forall|i: int| 0 <= i < all.len() implies "  "@ + all[i] + ""@ == "  "@ + all[i] by {
                assert("  "@ + all[i] + ""@ =~= "  "@ + all[i]);
            }
        }
    }
    r
}

/// The executable of the tool a check runs with.
pub open spec fn check_program(c: CheckedConfig, check: CheckConfig) -> Seq<char> {
    c.config.tools@[entry_of(c.config.tools@, check.tool_id@)].program@
}

/// The opening lines of a check description.
pub open spec fn check_head_lines(check: CheckConfig, program: Seq<char>) -> Seq<Seq<char>> {
    seq![
        "CHECK "@ + check.id@ + " - "@ + check.label@,
        check.description@,
        "Tool: "@ + check.tool_id@,
        "Argument template: "@ + command_text(program, views(check.args@)),
        "Direct command: "@ + command_text(program, expansion(check.args@, Seq::empty())),
        "Direct directory: ."@,
        "Timeout: "@ + decimal_text(check.timeout_seconds as nat) + " s"@,
        "Suites:"@,
    ]
}

/// The lines about how the suite at key position `k` runs a check: its
/// command there, then the suite's membership paths; nothing when the
/// suite does not run the check.
pub open spec fn suite_use_lines(v: ValidatedConfig, check: CheckConfig, program: Seq<char>, k: int) -> Seq<
    Seq<char>,
> {
    let suite = in_key_order(v.checked.suites@, v.checked.config.suites@)[k];
    match first_where(suite.checks@, |i: crate::contracts::config::SuiteCheckConfig| i.check_id@ == check.id@) {
        Some(m) => seq![
            "  "@ + suite.id@ + " @ "@ + v.suite_directories@[k].relative@ + ": "@ + command_text(
                program,
                expansion(check.args@, suite.checks@[m].parameters@),
            ),
        ] + path_lines(v.checked, false, suite.id@),
        None => Seq::empty(),
    }
}

/// The description of a check: what it runs, and how each suite runs it.
pub open spec fn check_description(v: ValidatedConfig, check: CheckConfig) -> Seq<Seq<char>> {
    let program = check_program(v.checked, check);
    check_head_lines(check, program) + joined(
        Seq::new(v.checked.suites@.len(), |k: int| suite_use_lines(v, check, program, k)),
    )
}

fn first_use(suite: &SuiteConfig, id: &str) -> (r: Option<usize>)
    ensures
        match r {
            Some(m) => m < suite.checks@.len() && first_where(
                suite.checks@,
                |i: crate::contracts::config::SuiteCheckConfig| i.check_id@ == id@,
            ) == Some(m as int),
            None => first_where(suite.checks@, |i: crate::contracts::config::SuiteCheckConfig| i.check_id@ == id@) is None,
        },
{
    let ghost matches = |i: crate::contracts::config::SuiteCheckConfig| i.check_id@ == id@;
    let mut m: usize = 0;
    assert(suite.checks@.take(0) =~= Seq::<crate::contracts::config::SuiteCheckConfig>::empty());
    while m < suite.checks.len()
        invariant
            m <= suite.checks@.len(),
            matches == (|i: crate::contracts::config::SuiteCheckConfig| i.check_id@ == id@),
            first_where(suite.checks@.take(m as int), matches) is None,
        decreases suite.checks@.len() - m,
    {
        proof {
            lemma_first_where_step(suite.checks@, matches, m as int);
        }
        if crate::text::text_eq(suite.checks[m].check_id.as_str(), id) {
            proof {
                lemma_first_where_extend(suite.checks@, matches, m + 1);
            }
            return Some(m);
        }
        m = m + 1;
    }
    assert(suite.checks@.take(suite.checks@.len() as int) =~= suite.checks@);
    None
}

/// Describes a check: its command at the workspace root and, for each
/// suite that runs it, its command there and the suite's membership paths.
///
/// Fails when no check has the identifier.
#[verifier::spinoff_prover]
#[verifier::rlimit(40)]
pub fn explain_check(v: &ValidatedConfig, id: &str) -> (r: Result<Vec<String>, String>)
    requires
        v.wf(),
    ensures
        match r {
            Ok(lines) => keys_of(v.checked.config.checks@).contains(id@) && views(lines@) == check_description(
                *v,
                v.checked.config.checks@[entry_of(v.checked.config.checks@, id@)],
            ),
            Err(message) => !keys_of(v.checked.config.checks@).contains(id@) && message@ == "check "@ + id@
                + " does not exist"@,
        },
{
    let c = &v.checked;
    let p = match c.check_position(id) {
        Some(p) => {
            proof {
                assert(keys_of(c.config.checks@)[p as int] == id@);
            }
            p
        },
        None => {
            let mut message = concat2("check ", id);
            message.append(" does not exist");
            return Err(message);
        },
    };
    proof {
        lemma_check_tools_declared(*c, p as int);
    }
    let check = &c.config.checks[p];
    let t = match c.tool_position(check.tool_id.as_str()) {
        Some(t) => t,
        None => {
            proof {
                assert(false);
            }
            return Err(String::new());
        },
    };
    let program = c.config.tools[t].program.as_str();
    assert(program@ == check_program(*c, *check));
    let no_parameters: Vec<(String, ParameterValue)> = Vec::new();
    let direct = expand(check.args.as_slice(), &no_parameters);
    assert(no_parameters@ =~= Seq::<(String, ParameterValue)>::empty());
    let mut lines: Vec<String> = Vec::new();
    let mut first = concat2("CHECK ", check.id.as_str());
    first.append(" - ");
    first.append(check.label.as_str());
    lines.push(first);
    lines.push(owned(check.description.as_str()));
    lines.push(concat2("Tool: ", check.tool_id.as_str()));
    lines.push(concat2("Argument template: ", command(program, &check.args).as_str()));
    lines.push(concat2("Direct command: ", command(program, &direct).as_str()));
    lines.push(owned("Direct directory: ."));
    let mut timeout = owned("Timeout: ");
    timeout.append(decimal(check.timeout_seconds).as_str());
    timeout.append(" s");
    lines.push(timeout);
    lines.push(owned("Suites:"));
    assert(views(lines@) =~= check_head_lines(*check, program@));
    let ghost head = views(lines@);
    let ghost parts = Seq::new(c.suites@.len(), |k: int| suite_use_lines(*v, *check, program@, k));
    let mut k: usize = 0;
    while k < c.suites.len()
        invariant
            v.wf(),
            c == &v.checked,
            p < c.config.checks@.len(),
            check == &c.config.checks@[p as int],
            program@ == check_program(*c, *check),
            parts == Seq::new(c.suites@.len(), |k: int| suite_use_lines(*v, *check, program@, k)),
            head == check_head_lines(*check, program@),
            keys_of(c.config.checks@).contains(id@),
            entry_of(c.config.checks@, id@) == p,
            k <= c.suites@.len(),
            views(lines@) == head + joined(parts.take(k as int)),
        decreases c.suites@.len() - k,
    {
        proof {
            crate::text::lemma_joined_take(parts, k as int);
        }
        let s = c.suites[k].1;
        let suite = &c.config.suites[s];
        assert(in_key_order(c.suites@, c.config.suites@)[k as int] == *suite);
        match first_use(suite, check.id.as_str()) {
            Some(m) => {
                let args = expand(check.args.as_slice(), &suite.checks[m].parameters);
                let mut line = concat2("  ", suite.id.as_str());
                line.append(" @ ");
                line.append(v.suite_directories[k].relative.as_str());
                line.append(": ");
                line.append(command(program, &args).as_str());
                let ghost before = views(lines@);
                lines.push(line);
                let paths = membership_paths(c, false, suite.id.as_str());
                let ghost mid = views(lines@);
                crate::text::extend_strings(&mut lines, &paths);
                assert(views(lines@) =~= before + parts[k as int]);
            },
            None => {
                assert(parts[k as int] =~= Seq::<Seq<char>>::empty());
                assert(views(lines@) =~= views(lines@) + parts[k as int]);
            },
        }
        k = k + 1;
    }
    assert(parts.take(c.suites@.len() as int) =~= parts);
    assert(views(lines@) == check_description(*v, *check));
    Ok(lines)
}

/// The executable of the check named `id`, or nothing when the check or
/// its tool is not declared.
pub open spec fn program_of(c: CheckedConfig, id: Seq<char>) -> Seq<char> {
    if keys_of(c.config.checks@).contains(id) {
        let check = c.config.checks@[entry_of(c.config.checks@, id)];
        if keys_of(c.config.tools@).contains(check.tool_id@) {
            c.config.tools@[entry_of(c.config.tools@, check.tool_id@)].program@
        } else {
            Seq::empty()
        }
    } else {
        Seq::empty()
    }
}

fn program_named(c: &CheckedConfig, id: &str) -> (r: String)
    requires
        c.wf(),
    ensures
        r@ == program_of(*c, id@),
{
    match c.check_position(id) {
        Some(p) => {
            assert(keys_of(c.config.checks@)[p as int] == id@);
            match c.tool_position(c.config.checks[p].tool_id.as_str()) {
                Some(t) => {
                    assert(keys_of(c.config.tools@)[t as int] == c.config.checks@[p as int].tool_id@);
                    owned(c.config.tools[t].program.as_str())
                },
                None => String::new(),
            }
        },
        None => String::new(),
    }
}

/// The command line of each planned invocation, suite by suite.
pub open spec fn command_lines(c: CheckedConfig, plan: ValidationPlan) -> Seq<Seq<char>> {
    joined(
        Seq::new(
            plan.suites@.len(),
            |s: int|
                {
                    let suite = plan.suites@[s];
                    Seq::new(
                        suite.checks@.len(),
                        |i: int|
                            "  "@ + suite.id@ + " / "@ + suite.checks@[i].check_id@ + " @ "@
                                + suite.relative_working_directory@ + ": "@ + command_text(
                                program_of(c, suite.checks@[i].check_id@),
                                views(suite.checks@[i].arguments@),
                            ),
                    )
                },
        ),
    )
}

/// ` (requirement)` after a tool with a version requirement.
pub open spec fn requirement_suffix(requirement: Option<String>) -> Seq<char> {
    match requirement {
        Some(r) => " ("@ + r@ + ")"@,
        None => Seq::empty(),
    }
}

/// The line of a required tool: its identifier, executable and version
/// requirement; only the identifier when the tool is not declared.
pub open spec fn required_tool_line(c: CheckedConfig, id: Seq<char>) -> Seq<char> {
    if keys_of(c.config.tools@).contains(id) {
        let tool = c.config.tools@[entry_of(c.config.tools@, id)];
        "  "@ + tool.id@ + ": "@ + tool.program@ + requirement_suffix(tool.version_requirement)
    } else {
        "  "@ + id + ": "@
    }
}

#[verifier::spinoff_prover]
fn tool_line(c: &CheckedConfig, id: &str) -> (r: String)
    requires
        c.wf(),
    ensures
        r@ == required_tool_line(*c, id@),
{
    match c.tool_position(id) {
        Some(p) => {
            let tool = &c.config.tools[p];
            assert(keys_of(c.config.tools@)[p as int] == id@);
            let mut line = concat2("  ", tool.id.as_str());
            line.append(": ");
            line.append(tool.program.as_str());
            match &tool.version_requirement {
                Some(requirement) => {
                    line.append(" (");
                    line.append(requirement.as_str());
                    line.append(")");
                },
                None => {},
            }
            line
        },
        None => {
            let mut line = concat2("  ", id);
            line.append(": ");
            line
        },
    }
}

/// The line of each required tool, in the given order.
pub open spec fn required_tool_lines(c: CheckedConfig, order: Seq<Seq<char>>) -> Seq<Seq<char>> {
    Seq::new(order.len(), |k: int| required_tool_line(c, order[k]))
}

/// The check identifiers of a plan's executions.
pub open spec fn planned_check_ids(plan: ValidationPlan) -> Seq<String> {
    Seq::new(plan.check_executions@.len(), |k: int| plan.check_executions@[k].check_id)
}

/// Lists every planned command and the tools the plan needs, in the order
/// that preflight checks them: dependencies of a tool before the tool.
#[verifier::spinoff_prover]
#[verifier::rlimit(40)]
pub fn commands_and_tools(v: &ValidatedConfig, plan: &ValidationPlan) -> (r: Vec<String>)
    requires
        v.wf(),
    ensures
        views(r@) == seq!["Commands:"@] + command_lines(v.checked, *plan) + seq!["Required tools:"@]
            + required_tool_lines(
            v.checked,
            crate::execution::prerequisites::tool_order(v.checked, planned_check_ids(*plan)),
        ),
{
    let c = &v.checked;
    let mut lines: Vec<String> = Vec::new();
    lines.push(owned("Commands:"));
    let ghost head = views(lines@);
    let ghost parts = Seq::new(
        plan.suites@.len(),
        |s: int|
            {
                let suite = plan.suites@[s];
                Seq::new(
                    suite.checks@.len(),
                    |i: int|
                        "  "@ + suite.id@ + " / "@ + suite.checks@[i].check_id@ + " @ "@
                            + suite.relative_working_directory@ + ": "@ + command_text(
                            program_of(*c, suite.checks@[i].check_id@),
                            views(suite.checks@[i].arguments@),
                        ),
                )
            },
    );
    let mut s: usize = 0;
    while s < plan.suites.len()
        invariant
            v.wf(),
            c == &v.checked,
            head == seq!["Commands:"@],
            parts == Seq::new(
                plan.suites@.len(),
                |s: int|
                    {
                        let suite = plan.suites@[s];
                        Seq::new(
                            suite.checks@.len(),
                            |i: int|
                                "  "@ + suite.id@ + " / "@ + suite.checks@[i].check_id@ + " @ "@
                                    + suite.relative_working_directory@ + ": "@ + command_text(
                                    program_of(*c, suite.checks@[i].check_id@),
                                    views(suite.checks@[i].arguments@),
                                ),
                        )
                    },
            ),
            s <= plan.suites@.len(),
            views(lines@) == head + joined(parts.take(s as int)),
        decreases plan.suites@.len() - s,
    {
        proof {
            crate::text::lemma_joined_take(parts, s as int);
        }
        let suite = &plan.suites[s];
        let ghost base = views(lines@);
        let mut i: usize = 0;
        while i < suite.checks.len()
            invariant
                v.wf(),
                c == &v.checked,
                s < plan.suites@.len(),
                suite == &plan.suites@[s as int],
                parts == Seq::new(
                    plan.suites@.len(),
                    |s: int|
                        {
                            let suite = plan.suites@[s];
                            Seq::new(
                                suite.checks@.len(),
                                |i: int|
                                    "  "@ + suite.id@ + " / "@ + suite.checks@[i].check_id@ + " @ "@
                                        + suite.relative_working_directory@ + ": "@ + command_text(
                                        program_of(*c, suite.checks@[i].check_id@),
                                        views(suite.checks@[i].arguments@),
                                    ),
                            )
                        },
                ),
                i <= suite.checks@.len(),
                views(lines@) == base + parts[s as int].take(i as int),
            decreases suite.checks@.len() - i,
        {
            let invocation = &suite.checks[i];
            let program = program_named(c, invocation.check_id.as_str());
            let mut line = concat2("  ", suite.id.as_str());
            line.append(" / ");
            line.append(invocation.check_id.as_str());
            line.append(" @ ");
            line.append(suite.relative_working_directory.as_str());
            line.append(": ");
            line.append(command(program.as_str(), &invocation.arguments).as_str());
            let ghost before = views(lines@);
            lines.push(line);
            assert(views(lines@) =~= before.push(line@));
            assert(parts[s as int].take(i + 1) =~= parts[s as int].take(i as int).push(parts[s as int][i as int]));
            i = i + 1;
        }
        assert(parts[s as int].take(suite.checks@.len() as int) =~= parts[s as int]);
        s = s + 1;
    }
    assert(parts.take(plan.suites@.len() as int) =~= parts);
    lines.push(owned("Required tools:"));
    let ghost middle = views(lines@);
    let mut check_ids: Vec<String> = Vec::new();
    let mut k: usize = 0;
    while k < plan.check_executions.len()
        invariant
            k <= plan.check_executions@.len(),
            views(check_ids@) == views(planned_check_ids(*plan).take(k as int)),
        decreases plan.check_executions@.len() - k,
    {
        let ghost before = check_ids@;
        check_ids.push(owned(plan.check_executions[k].check_id.as_str()));
        assert(planned_check_ids(*plan).take(k + 1) =~= planned_check_ids(*plan).take(k as int).push(
            plan.check_executions@[k as int].check_id,
        ));
        assert(views(check_ids@) =~= views(before).push(plan.check_executions@[k as int].check_id@));
        assert(views(planned_check_ids(*plan).take(k + 1)) =~= views(planned_check_ids(*plan).take(k as int)).push(
            plan.check_executions@[k as int].check_id@,
        ));
        k = k + 1;
    }
    assert(planned_check_ids(*plan).take(plan.check_executions@.len() as int) =~= planned_check_ids(*plan));
    let order = crate::execution::prerequisites::necessary_tool_ids(c, &check_ids);
    let ghost ov = views(order@);
    proof {
        let a = check_ids@;
        let b = planned_check_ids(*plan);
        assert(views(a).len() == views(b).len());
        assert forall|k: int| 0 <= k < a.len() implies a[k]@ == b[k]@ by {
            assert(views(a)[k] == views(b)[k]);
        }
        assert(Seq::new(a.len(), |k: int| crate::execution::prerequisites::check_roots(*c, a[k]@)) =~= Seq::new(
            b.len(),
            |k: int| crate::execution::prerequisites::check_roots(*c, b[k]@),
        ));
        assert(crate::execution::prerequisites::tool_roots(*c, a) == crate::execution::prerequisites::tool_roots(
            *c,
            b,
        ));
        assert(crate::execution::prerequisites::tool_order(*c, a) == crate::execution::prerequisites::tool_order(*c, b));
    }
    let mut t: usize = 0;
    while t < order.len()
        invariant
            v.wf(),
            c == &v.checked,
            ov == views(order@),
            t <= order@.len(),
            views(lines@) == middle + required_tool_lines(*c, ov).take(t as int),
        decreases order@.len() - t,
    {
        let line = tool_line(c, order[t].as_str());
        let ghost before = views(lines@);
        lines.push(line);
        assert(views(lines@) =~= before.push(line@));
        assert(required_tool_lines(*c, ov).take(t + 1) =~= required_tool_lines(*c, ov).take(t as int).push(
            required_tool_lines(*c, ov)[t as int],
        ));
        t = t + 1;
    }
    assert(required_tool_lines(*c, ov).take(order@.len() as int) =~= required_tool_lines(*c, ov));
    lines
}

/// ` (shared)` after a node shown again.
pub open spec fn shared_text(reused: bool) -> Seq<char> {
    if reused {
        " (shared)"@
    } else {
        Seq::empty()
    }
}

/// The hierarchy line of a planned group.
pub open spec fn group_line(group: crate::planning::PlannedGroup, depth: nat, reused: bool) -> Seq<char> {
    indent_text(depth) + "GROUP N"@ + decimal_text(group.level as nat) + " "@ + group.id@ + shared_text(reused)
}

/// The hierarchy lines of a planned suite: the suite, then its checks
/// unless it is shown again.
pub open spec fn suite_lines(suite: crate::planning::PlannedSuite, depth: nat, reused: bool) -> Seq<Seq<char>> {
    seq![
        indent_text(depth) + "SUITE "@ + suite.id@ + " ["@ + suite.relative_working_directory@ + "]"@ + shared_text(
            reused,
        ),
    ] + if reused {
        Seq::empty()
    } else {
        Seq::new(suite.checks@.len(), |i: int| indent_text(depth + 1) + "CHECK "@ + suite.checks@[i].check_id@)
    }
}

/// A group member as a node of the hierarchy walk at `depth`: whether it
/// is a group, its identifier, and its depth.
pub open spec fn hierarchy_node(member: GroupMemberRef, depth: nat) -> (bool, Seq<char>, nat) {
    match member {
        GroupMemberRef::Group { id } => (true, id@, depth),
        GroupMemberRef::Suite { id } => (false, id@, depth),
    }
}

/// The members of a group as walk nodes at `depth`, last member first: the
/// walk takes nodes from the end, so the first member is next.
pub open spec fn hierarchy_members(members: Seq<GroupMemberRef>, depth: nat) -> Seq<(bool, Seq<char>, nat)> {
    Seq::new(members.len(), |j: int| hierarchy_node(members[members.len() - 1 - j], depth))
}

/// The lines of a depth-first walk of a plan that takes its nodes from the
/// end of `stack`. A group or suite not seen before is shown and expanded
/// (a group into its members one level deeper, a suite into its checks);
/// one seen before is shown as shared and not expanded. `expanded` counts
/// the groups expanded so far, which never reach the number of groups.
pub open spec fn hierarchy_walk(
    plan: ValidationPlan,
    stack: Seq<(bool, Seq<char>, nat)>,
    seen_groups: Seq<Seq<char>>,
    seen_suites: Seq<Seq<char>>,
    expanded: nat,
) -> Seq<Seq<char>>
    decreases plan.groups@.len() - expanded, stack.len(),
{
    if stack.len() == 0 {
        Seq::empty()
    } else {
        let node = stack.last();
        let rest = stack.drop_last();
        if node.0 {
            match first_where(plan.groups@, |g: crate::planning::PlannedGroup| g.id@ == node.1) {
                Some(g) => {
                    let reused = seen_groups.contains(node.1);
                    let seen = if reused {
                        seen_groups
                    } else {
                        seen_groups.push(node.1)
                    };
                    let expand = !reused && expanded < plan.groups@.len();
                    let next = if expand {
                        rest + hierarchy_members(plan.groups@[g].members@, node.2 + 1)
                    } else {
                        rest
                    };
                    seq![group_line(plan.groups@[g], node.2, reused)] + hierarchy_walk(
                        plan,
                        next,
                        seen,
                        seen_suites,
                        if expand {
                            expanded + 1
                        } else {
                            expanded
                        },
                    )
                },
                None => Seq::empty(),
            }
        } else {
            match first_where(plan.suites@, |s: crate::planning::PlannedSuite| s.id@ == node.1) {
                Some(k) => {
                    let reused = seen_suites.contains(node.1);
                    let seen = if reused {
                        seen_suites
                    } else {
                        seen_suites.push(node.1)
                    };
                    suite_lines(plan.suites@[k], node.2, reused) + hierarchy_walk(
                        plan,
                        rest,
                        seen_groups,
                        seen,
                        expanded,
                    )
                },
                None => Seq::empty(),
            }
        }
    }
}

/// The hierarchy below the planned group `root`: the group, then the walk
/// over its members one level deeper, with the root already seen. A walk
/// stops at a node that names no planned group or suite.
pub open spec fn group_hierarchy(plan: ValidationPlan, root: Seq<char>) -> Seq<Seq<char>> {
    match first_where(plan.groups@, |g: crate::planning::PlannedGroup| g.id@ == root) {
        Some(g) => seq![group_line(plan.groups@[g], 0, false)] + hierarchy_walk(
            plan,
            hierarchy_members(plan.groups@[g].members@, 1),
            seq![root],
            Seq::empty(),
            1,
        ),
        None => Seq::empty(),
    }
}

fn group_line_text(group: &crate::planning::PlannedGroup, depth: usize, reused: bool) -> (r: String)
    ensures
        r@ == group_line(*group, depth as nat, reused),
{
    let mut line = tree_indent(depth);
    line.append("GROUP N");
    line.append(decimal(group.level as u64).as_str());
    line.append(" ");
    line.append(group.id.as_str());
    if reused {
        line.append(" (shared)");
    }
    proof {
        reveal_strlit("");
    }
    assert(reused || line@ =~= group_line(*group, depth as nat, reused));
    line
}

fn push_suite_lines(out: &mut Vec<String>, suite: &crate::planning::PlannedSuite, depth: usize, reused: bool)
    requires
        depth < usize::MAX,
    ensures
        views(final(out)@) == views(old(out)@) + suite_lines(*suite, depth as nat, reused),
        final(out)@.len() >= old(out)@.len(),
        forall|j: int| 0 <= j < old(out)@.len() ==> final(out)@[j] == old(out)@[j],
{
    let ghost start = views(out@);
    let ghost initial = out@;
    let mut line = tree_indent(depth);
    line.append("SUITE ");
    line.append(suite.id.as_str());
    line.append(" [");
    line.append(suite.relative_working_directory.as_str());
    line.append("]");
    if reused {
        line.append(" (shared)");
    }
    assert(reused || line@ =~= indent_text(depth as nat) + "SUITE "@ + suite.id@ + " ["@
        + suite.relative_working_directory@ + "]"@ + shared_text(reused));
    out.push(line);
    let ghost head = views(out@);
    if !reused {
        let mut i: usize = 0;
        while i < suite.checks.len()
            invariant
                depth < usize::MAX,
                !reused,
                out@.len() >= initial.len(),
                forall|j: int| 0 <= j < initial.len() ==> out@[j] == initial[j],
                i <= suite.checks@.len(),
                views(out@) == head + Seq::new(
                    i as nat,
                    |k: int| indent_text((depth + 1) as nat) + "CHECK "@ + suite.checks@[k].check_id@,
                ),
            decreases suite.checks@.len() - i,
        {
            let mut text = tree_indent(depth + 1);
            text.append("CHECK ");
            text.append(suite.checks[i].check_id.as_str());
            let ghost before = views(out@);
            let ghost tv = text@;
            out.push(text);
            assert(views(out@) =~= before.push(tv));
            assert(views(out@) =~= head + Seq::new(
                (i + 1) as nat,
                |k: int| indent_text((depth + 1) as nat) + "CHECK "@ + suite.checks@[k].check_id@,
            ));
            i = i + 1;
        }
    }
    assert(views(out@) =~= start + suite_lines(*suite, depth as nat, reused));
}

pub(crate) fn planned_group_at(plan: &ValidationPlan, id: &str) -> (r: Option<usize>)
    ensures
        match r {
            Some(k) => k < plan.groups@.len() && first_where(
                plan.groups@,
                |g: crate::planning::PlannedGroup| g.id@ == id@,
            ) == Some(k as int),
            None => first_where(plan.groups@, |g: crate::planning::PlannedGroup| g.id@ == id@) is None,
        },
{
    let ghost matches = |g: crate::planning::PlannedGroup| g.id@ == id@;
    let mut k: usize = 0;
    assert(plan.groups@.take(0) =~= Seq::<crate::planning::PlannedGroup>::empty());
    while k < plan.groups.len()
        invariant
            k <= plan.groups@.len(),
            matches == (|g: crate::planning::PlannedGroup| g.id@ == id@),
            first_where(plan.groups@.take(k as int), matches) is None,
        decreases plan.groups@.len() - k,
    {
        proof {
            lemma_first_where_step(plan.groups@, matches, k as int);
        }
        if crate::text::text_eq(plan.groups[k].id.as_str(), id) {
            proof {
                lemma_first_where_extend(plan.groups@, matches, k + 1);
            }
            return Some(k);
        }
        k = k + 1;
    }
    assert(plan.groups@.take(plan.groups@.len() as int) =~= plan.groups@);
    None
}

pub(crate) fn planned_suite_at(plan: &ValidationPlan, id: &str) -> (r: Option<usize>)
    ensures
        match r {
            Some(k) => k < plan.suites@.len() && first_where(
                plan.suites@,
                |s: crate::planning::PlannedSuite| s.id@ == id@,
            ) == Some(k as int),
            None => first_where(plan.suites@, |s: crate::planning::PlannedSuite| s.id@ == id@) is None,
        },
{
    let ghost matches = |s: crate::planning::PlannedSuite| s.id@ == id@;
    let mut k: usize = 0;
    assert(plan.suites@.take(0) =~= Seq::<crate::planning::PlannedSuite>::empty());
    while k < plan.suites.len()
        invariant
            k <= plan.suites@.len(),
            matches == (|s: crate::planning::PlannedSuite| s.id@ == id@),
            first_where(plan.suites@.take(k as int), matches) is None,
        decreases plan.suites@.len() - k,
    {
        proof {
            lemma_first_where_step(plan.suites@, matches, k as int);
        }
        if crate::text::text_eq(plan.suites[k].id.as_str(), id) {
            proof {
                lemma_first_where_extend(plan.suites@, matches, k + 1);
            }
            return Some(k);
        }
        k = k + 1;
    }
    assert(plan.suites@.take(plan.suites@.len() as int) =~= plan.suites@);
    None
}

struct HierarchyNode {
    is_group: bool,
    id: String,
    depth: usize,
}

fn texts_contain(list: &Vec<String>, id: &str) -> (r: bool)
    ensures
        r == views(list@).contains(id@),
{
    let mut i: usize = 0;
    while i < list.len()
        invariant
            i <= list@.len(),
            forall|k: int| 0 <= k < i ==> list@[k]@ != id@,
        decreases list@.len() - i,
    {
        if crate::text::text_eq(list[i].as_str(), id) {
            assert(views(list@)[i as int] == id@);
            return true;
        }
        i = i + 1;
    }
    false
}

/// The reachable hierarchy of a plan from a root node: groups depth first
/// with their members in order, suites with their checks; a node shown
/// again is marked shared and not expanded.
#[verifier::spinoff_prover]
#[verifier::rlimit(60)]
pub fn hierarchy(plan: &ValidationPlan, is_group: bool, root: &str) -> (r: Vec<String>)
    requires
        plan.groups@.len() < usize::MAX,
    ensures
        is_group ==> views(r@) == group_hierarchy(*plan, root@),
        !is_group ==> views(r@) == match first_where(plan.suites@, |s: crate::planning::PlannedSuite| s.id@ == root@) {
            Some(k) => suite_lines(plan.suites@[k], 0, false),
            None => Seq::empty(),
        },
{
    let mut lines: Vec<String> = Vec::new();
    if !is_group {
        match planned_suite_at(plan, root) {
            Some(k) => {
                push_suite_lines(&mut lines, &plan.suites[k], 0, false);
                assert(views(lines@) =~= suite_lines(plan.suites@[k as int], 0, false));
            },
            None => {
                assert(views(lines@) =~= Seq::<Seq<char>>::empty());
            },
        }
        return lines;
    }
    let g = match planned_group_at(plan, root) {
        Some(g) => g,
        None => {
            assert(views(lines@) =~= Seq::<Seq<char>>::empty());
            return lines;
        },
    };
    lines.push(group_line_text(&plan.groups[g], 0, false));
    let mut seen_groups: Vec<String> = Vec::new();
    let mut seen_suites: Vec<String> = Vec::new();
    seen_groups.push(owned(root));
    let mut stack: Vec<HierarchyNode> = Vec::new();
    assert(hierarchy_view(stack@) =~= Seq::empty());
    push_member_nodes(&mut stack, &plan.groups[g].members, 1);
    let mut expanded: usize = 1;
    let ghost target = group_hierarchy(*plan, root@);
    assert(views(seen_groups@) =~= seq![root@]);
    assert(views(seen_suites@) =~= Seq::<Seq<char>>::empty());
    assert(views(lines@) =~= seq![group_line(plan.groups@[g as int], 0, false)]);
    while stack.len() > 0
        invariant
            is_group,
            target == group_hierarchy(*plan, root@),
            1 <= expanded <= plan.groups@.len(),
            plan.groups@.len() < usize::MAX,
            forall|j: int| 0 <= j < stack@.len() ==> (#[trigger] stack@[j]).depth <= expanded,
            views(lines@) + hierarchy_walk(
                *plan,
                hierarchy_view(stack@),
                views(seen_groups@),
                views(seen_suites@),
                expanded as nat,
            ) == target,
        decreases plan.groups@.len() - expanded, stack@.len(),
    {
        let ghost before_lines = views(lines@);
        let ghost before_stack = hierarchy_view(stack@);
        let ghost before_seen_groups = views(seen_groups@);
        let ghost before_seen_suites = views(seen_suites@);
        let ghost before_nodes = stack@;
        let node = stack.pop().unwrap();
        assert(hierarchy_view(stack@) =~= before_stack.drop_last());
        assert(before_nodes[before_nodes.len() - 1] == node);
        assert(before_stack.last() == (node.is_group, node.id@, node.depth as nat));
        assert(forall|j: int| 0 <= j < stack@.len() ==> stack@[j] == before_nodes[j]);
        if node.is_group {
            let g = match planned_group_at(plan, node.id.as_str()) {
                Some(g) => g,
                None => {
                    assert(hierarchy_walk(*plan, before_stack, before_seen_groups, before_seen_suites, expanded as nat)
                        =~= Seq::empty());
                    assert(views(lines@) + Seq::<Seq<char>>::empty() =~= views(lines@));
                    return lines;
                },
            };
            let reused = texts_contain(&seen_groups, node.id.as_str());
            if !reused {
                seen_groups.push(owned(node.id.as_str()));
                assert(views(seen_groups@) =~= before_seen_groups.push(node.id@));
            }
            let line = group_line_text(&plan.groups[g], node.depth, reused);
            // A group is expanded the first time it is shown, so expansions
            // never outnumber the planned groups.
            if !reused && expanded < plan.groups.len() {
                push_member_nodes(&mut stack, &plan.groups[g].members, node.depth + 1);
                expanded = expanded + 1;
            }
            let ghost text = line@;
            lines.push(line);
            assert(views(lines@) =~= before_lines.push(text));
            assert(before_lines.push(text) =~= before_lines + seq![text]);
        } else {
            let s = match planned_suite_at(plan, node.id.as_str()) {
                Some(s) => s,
                None => {
                    assert(hierarchy_walk(*plan, before_stack, before_seen_groups, before_seen_suites, expanded as nat)
                        =~= Seq::empty());
                    assert(views(lines@) + Seq::<Seq<char>>::empty() =~= views(lines@));
                    return lines;
                },
            };
            let reused = texts_contain(&seen_suites, node.id.as_str());
            if !reused {
                seen_suites.push(owned(node.id.as_str()));
                assert(views(seen_suites@) =~= before_seen_suites.push(node.id@));
            }
            push_suite_lines(&mut lines, &plan.suites[s], node.depth, reused);
        }
        assert(views(lines@) + hierarchy_walk(
            *plan,
            hierarchy_view(stack@),
            views(seen_groups@),
            views(seen_suites@),
            expanded as nat,
        ) =~= target);
    }
    assert(hierarchy_view(stack@) =~= Seq::empty());
    assert(views(lines@) + Seq::<Seq<char>>::empty() =~= views(lines@));
    lines
}

/// The pending nodes of the hierarchy walk as walk nodes.
spec fn hierarchy_view(stack: Seq<HierarchyNode>) -> Seq<(bool, Seq<char>, nat)> {
    Seq::new(stack.len(), |j: int| (stack[j].is_group, stack[j].id@, stack[j].depth as nat))
}

fn push_member_nodes(stack: &mut Vec<HierarchyNode>, members: &Vec<GroupMemberRef>, depth: usize)
    ensures
        final(stack)@.len() == old(stack)@.len() + members@.len(),
        forall|j: int| 0 <= j < old(stack)@.len() ==> final(stack)@[j] == old(stack)@[j],
        forall|j: int| old(stack)@.len() <= j < final(stack)@.len() ==> (#[trigger] final(stack)@[j]).depth == depth,
        hierarchy_view(final(stack)@) == hierarchy_view(old(stack)@) + hierarchy_members(members@, depth as nat),
{
    let ghost start = stack@;
    let ghost nodes = hierarchy_members(members@, depth as nat);
    let mut m: usize = members.len();
    while m > 0
        invariant
            m <= members@.len(),
            nodes == hierarchy_members(members@, depth as nat),
            stack@.len() == start.len() + (members@.len() - m),
            forall|j: int| 0 <= j < start.len() ==> stack@[j] == start[j],
            forall|j: int| start.len() <= j < stack@.len() ==> (#[trigger] stack@[j]).depth == depth,
            hierarchy_view(stack@) == hierarchy_view(start) + nodes.take(members@.len() - m),
        decreases m,
    {
        m = m - 1;
        let node = match &members[m] {
            GroupMemberRef::Group { id } => HierarchyNode { is_group: true, id: owned(id.as_str()), depth },
            GroupMemberRef::Suite { id } => HierarchyNode { is_group: false, id: owned(id.as_str()), depth },
        };
        let ghost before = stack@;
        stack.push(node);
        assert((node.is_group, node.id@, node.depth as nat) == nodes[members@.len() - 1 - m]);
        assert(nodes.take(members@.len() - m) =~= nodes.take(members@.len() - 1 - m).push(
            nodes[members@.len() - 1 - m],
        ));
        assert(hierarchy_view(stack@) =~= hierarchy_view(before).push((node.is_group, node.id@, node.depth as nat)));
    }
    assert(nodes.take(members@.len() as int) =~= nodes);
}

/// The absolute directories the suites run in.
pub open spec fn suite_absolutes(v: ValidatedConfig) -> Seq<Seq<char>> {
    Seq::new(v.suite_directories@.len(), |k: int| v.suite_directories@[k].absolute@)
}

/// Counts the distinct directories the suites run in.
pub fn distinct_directories(v: &ValidatedConfig) -> (r: usize)
    ensures
        r == suite_absolutes(*v).to_set().len(),
{
    let ghost all = suite_absolutes(*v);
    let mut seen: Vec<String> = Vec::new();
    let mut k: usize = 0;
    while k < v.suite_directories.len()
        invariant
            all == suite_absolutes(*v),
            k <= v.suite_directories@.len(),
            strictly_sorted(keys_of(seen@)),
            forall|x: Seq<char>| keys_of(seen@).contains(x) <==> all.take(k as int).contains(x),
        decreases v.suite_directories@.len() - k,
    {
        insert_sorted(&mut seen, owned(v.suite_directories[k].absolute.as_str()));
        assert forall|x: Seq<char>| keys_of(seen@).contains(x) <==> all.take(k + 1).contains(x) by {
            if all.take(k + 1).contains(x) && x != all[k as int] {
                let w = choose|w: int| 0 <= w < k + 1 && #[trigger] all.take(k + 1)[w] == x;
                assert(all.take(k as int)[w] == x);
            }
            if all.take(k as int).contains(x) {
                let w = choose|w: int| 0 <= w < k && #[trigger] all.take(k as int)[w] == x;
                assert(all.take(k + 1)[w] == x);
            }
            if x == all[k as int] {
                assert(all.take(k + 1)[k as int] == x);
            }
        }
        k = k + 1;
    }
    assert(all.take(v.suite_directories@.len() as int) =~= all);
    proof {
        let ks = keys_of(seen@);
        assert(ks.no_duplicates()) by {
            assert forall|i: int, j: int| 0 <= i < ks.len() && 0 <= j < ks.len() && i != j implies ks[i] != ks[j] by {
                crate::text::lemma_sorted_distinct(ks, i, j);
            }
        }
        ks.unique_seq_to_set();
        assert(ks.to_set() =~= all.to_set());
    }
    seen.len()
}


/// The lines that describe a validated configuration: the document, the
/// workspace root, how many tools, checks, suites and groups it declares,
/// how many distinct directories its suites run in, and the default group.
pub open spec fn summary_lines(v: ValidatedConfig) -> Seq<Seq<char>> {
    let c = v.checked;
    seq![
        "Configuration: "@ + c.path@,
        "workspaceRoot: "@ + c.workspace_root@,
        "Tools: "@ + decimal_text(c.config.tools@.len()),
        "Checks: "@ + decimal_text(c.config.checks@.len()),
        "Suites: "@ + decimal_text(c.config.suites@.len()),
        "Groups: "@ + decimal_text(c.config.groups@.len()),
        "Suite directories: "@ + decimal_text(suite_absolutes(v).to_set().len()),
        "Default group: "@ + c.config.default_group@,
    ]
}

fn counted(label: &str, n: usize) -> (r: String)
    ensures
        r@ == label@ + decimal_text(n as nat),
{
    concat2(label, decimal(n as u64).as_str())
}

/// Describes a validated configuration.
pub fn config_validate(v: &ValidatedConfig) -> (r: Vec<String>)
    ensures
        views(r@) == summary_lines(*v),
{
    let c = &v.checked;
    let mut r: Vec<String> = Vec::new();
    r.push(concat2("Configuration: ", c.path.as_str()));
    r.push(concat2("workspaceRoot: ", c.workspace_root.as_str()));
    r.push(counted("Tools: ", c.config.tools.len()));
    r.push(counted("Checks: ", c.config.checks.len()));
    r.push(counted("Suites: ", c.config.suites.len()));
    r.push(counted("Groups: ", c.config.groups.len()));
    r.push(counted("Suite directories: ", distinct_directories(v)));
    r.push(concat2("Default group: ", c.config.default_group.as_str()));
    assert(views(r@) =~= summary_lines(*v));
    r
}

/// The group lines of the listing, in identifier order, each with its
/// level; `levels` holds the levels in the same order.
pub open spec fn listed_groups(c: CheckedConfig, levels: Seq<usize>) -> Seq<Seq<char>> {
    let groups = in_key_order(c.groups@, c.config.groups@);
    Seq::new(
        groups.len(),
        |k: int| "  GROUP N"@ + decimal_text(levels[k] as nat) + " "@ + groups[k].id@ + " - "@ + groups[k].label@,
    )
}

/// The suite lines of the listing, in identifier order, each with the
/// directory it runs in relative to the workspace root.
pub open spec fn listed_suites(v: ValidatedConfig) -> Seq<Seq<char>> {
    let suites = in_key_order(v.checked.suites@, v.checked.config.suites@);
    Seq::new(
        suites.len(),
        |k: int|
            "  SUITE "@ + suites[k].id@ + " - "@ + suites[k].label@ + " ["@ + v.suite_directories@[k].relative@
                + "]"@,
    )
}

/// The check lines of the listing, in identifier order.
pub open spec fn listed_checks(c: CheckedConfig) -> Seq<Seq<char>> {
    let checks = in_key_order(c.checks@, c.config.checks@);
    Seq::new(checks.len(), |k: int| "  CHECK "@ + checks[k].id@ + " - "@ + checks[k].label@)
}

/// The tool lines of the listing, in identifier order.
pub open spec fn listed_tools(c: CheckedConfig) -> Seq<Seq<char>> {
    let tools = in_key_order(c.tools@, c.config.tools@);
    Seq::new(tools.len(), |k: int| "  TOOL "@ + tools[k].id@ + " - "@ + tools[k].program@)
}

/// The listing of a validated configuration: the default group, then the
/// groups, the suites, the hierarchy of the default group when one is
/// given, the checks and the tools.
pub open spec fn listing(v: ValidatedConfig, levels: Seq<usize>, tree: Option<Seq<Seq<char>>>) -> Seq<Seq<char>> {
    let c = v.checked;
    seq!["Default group: "@ + c.config.default_group@, "Groups:"@] + listed_groups(c, levels) + seq!["Suites:"@]
        + listed_suites(v) + match tree {
        Some(lines) => seq!["Tree:"@] + lines,
        None => Seq::empty(),
    } + seq!["Checks:"@] + listed_checks(c) + seq!["Tools:"@] + listed_tools(c)
}

/// Lists a validated configuration. `levels` are the group levels in
/// identifier order, as [`crate::planning::group_levels`] computes them;
/// `tree`, when given, is the plan of the default group, whose hierarchy
/// is listed.
#[verifier::spinoff_prover]
#[verifier::rlimit(40)]
pub fn list(v: &ValidatedConfig, levels: &Vec<usize>, tree: Option<&ValidationPlan>) -> (r: Vec<String>)
    requires
        v.wf(),
        levels@.len() == v.checked.groups@.len(),
        tree matches Some(plan) ==> plan.groups@.len() < usize::MAX,
    ensures
        views(r@) == listing(
            *v,
            levels@,
            match tree {
                Some(plan) => Some(group_hierarchy(*plan, v.checked.config.default_group@)),
                None => None,
            },
        ),
{
    let c = &v.checked;
    let mut r: Vec<String> = Vec::new();
    r.push(concat2("Default group: ", c.config.default_group.as_str()));
    r.push(owned("Groups:"));
    let ghost head = views(r@);
    assert(head =~= seq!["Default group: "@ + c.config.default_group@, "Groups:"@]);
    let ghost groups = in_key_order(c.groups@, c.config.groups@);
    let mut k: usize = 0;
    while k < c.groups.len()
        invariant
            c.wf(),
            c == &v.checked,
            groups == in_key_order(c.groups@, c.config.groups@),
            levels@.len() == c.groups@.len(),
            k <= c.groups@.len(),
            views(r@) == head + listed_groups(*c, levels@).take(k as int),
        decreases c.groups@.len() - k,
    {
        let g = &c.config.groups[c.groups[k].1];
        let mut line = counted("  GROUP N", levels[k]);
        line.append(" ");
        line.append(g.id.as_str());
        line.append(" - ");
        line.append(g.label.as_str());
        let ghost before = views(r@);
        r.push(line);
        assert(listed_groups(*c, levels@).take(k + 1) =~= listed_groups(*c, levels@).take(k as int).push(line@));
        assert(views(r@) =~= before.push(line@));
        k = k + 1;
    }
    assert(listed_groups(*c, levels@).take(c.groups@.len() as int) =~= listed_groups(*c, levels@));
    let ghost before_title = views(r@);
    r.push(owned("Suites:"));
    assert(views(r@) =~= before_title.push("Suites:"@));
    let ghost head = views(r@);
    let mut k: usize = 0;
    while k < c.suites.len()
        invariant
            c.wf(),
            c == &v.checked,
            v.suite_directories@.len() == c.suites@.len(),
            k <= c.suites@.len(),
            views(r@) == head + listed_suites(*v).take(k as int),
        decreases c.suites@.len() - k,
    {
        let s = &c.config.suites[c.suites[k].1];
        let mut line = concat2("  SUITE ", s.id.as_str());
        line.append(" - ");
        line.append(s.label.as_str());
        line.append(" [");
        line.append(v.suite_directories[k].relative.as_str());
        line.append("]");
        let ghost before = views(r@);
        r.push(line);
        assert(listed_suites(*v).take(k + 1) =~= listed_suites(*v).take(k as int).push(line@));
        assert(views(r@) =~= before.push(line@));
        k = k + 1;
    }
    assert(listed_suites(*v).take(c.suites@.len() as int) =~= listed_suites(*v));
    let ghost before_tree = views(r@);
    match tree {
        Some(plan) => {
            r.push(owned("Tree:"));
            assert(views(r@) =~= before_tree.push("Tree:"@));
            let lines = hierarchy(plan, true, c.config.default_group.as_str());
            let mut t: usize = 0;
            let ghost head = views(r@);
            while t < lines.len()
                invariant
                    t <= lines@.len(),
                    views(r@) == head + views(lines@).take(t as int),
                decreases lines@.len() - t,
            {
                let ghost before = views(r@);
                r.push(owned(lines[t].as_str()));
                assert(views(lines@).take(t + 1) =~= views(lines@).take(t as int).push(lines@[t as int]@));
                assert(views(r@) =~= before.push(lines@[t as int]@));
                t = t + 1;
            }
            assert(views(lines@).take(lines@.len() as int) =~= views(lines@));
        },
        None => {},
    }
    let ghost before_title = views(r@);
    r.push(owned("Checks:"));
    assert(views(r@) =~= before_title.push("Checks:"@));
    let ghost head = views(r@);
    let mut k: usize = 0;
    while k < c.checks.len()
        invariant
            c.wf(),
            c == &v.checked,
            k <= c.checks@.len(),
            views(r@) == head + listed_checks(*c).take(k as int),
        decreases c.checks@.len() - k,
    {
        let check = &c.config.checks[c.checks[k].1];
        let mut line = concat2("  CHECK ", check.id.as_str());
        line.append(" - ");
        line.append(check.label.as_str());
        let ghost before = views(r@);
        r.push(line);
        assert(listed_checks(*c).take(k + 1) =~= listed_checks(*c).take(k as int).push(line@));
        assert(views(r@) =~= before.push(line@));
        k = k + 1;
    }
    assert(listed_checks(*c).take(c.checks@.len() as int) =~= listed_checks(*c));
    let ghost before_title = views(r@);
    r.push(owned("Tools:"));
    assert(views(r@) =~= before_title.push("Tools:"@));
    let ghost head = views(r@);
    let mut k: usize = 0;
    while k < c.tools.len()
        invariant
            c.wf(),
            c == &v.checked,
            k <= c.tools@.len(),
            views(r@) == head + listed_tools(*c).take(k as int),
        decreases c.tools@.len() - k,
    {
        let tool = &c.config.tools[c.tools[k].1];
        let mut line = concat2("  TOOL ", tool.id.as_str());
        line.append(" - ");
        line.append(tool.program.as_str());
        let ghost before = views(r@);
        r.push(line);
        assert(listed_tools(*c).take(k + 1) =~= listed_tools(*c).take(k as int).push(line@));
        assert(views(r@) =~= before.push(line@));
        k = k + 1;
    }
    assert(listed_tools(*c).take(c.tools@.len() as int) =~= listed_tools(*c));
    assert(views(r@) =~= listing(
        *v,
        levels@,
        match tree {
            Some(plan) => Some(group_hierarchy(*plan, v.checked.config.default_group@)),
            None => None,
        },
    ));
    r
}


/// The member lines of a group: the kind and identifier of each member.
pub open spec fn member_lines(members: Seq<GroupMemberRef>) -> Seq<Seq<char>> {
    Seq::new(
        members.len(),
        |j: int|
            match members[j] {
                GroupMemberRef::Group { id } => "  GROUP "@ + id@,
                GroupMemberRef::Suite { id } => "  SUITE "@ + id@,
            },
    )
}

/// The explanation of the planned group `id`: what it is, its members, the
/// paths that reach it, the hierarchy below it, and the commands and tools
/// its plan needs.
pub open spec fn group_explanation(v: ValidatedConfig, plan: ValidationPlan, id: Seq<char>) -> Option<Seq<Seq<char>>> {
    match first_where(plan.groups@, |g: crate::planning::PlannedGroup| g.id@ == id) {
        Some(k) => {
            let group = plan.groups@[k];
            Some(
                seq![
                    "GROUP "@ + id + " - "@ + group.label@,
                    group.description@,
                    "Level: "@ + decimal_text(group.level as nat),
                    "Members:"@,
                ] + member_lines(group.members@) + seq!["Membership paths:"@] + path_lines(v.checked, true, id)
                    + seq!["Reachable hierarchy:"@] + group_hierarchy(plan, id) + seq!["Commands:"@] + command_lines(
                    v.checked,
                    plan,
                ) + seq!["Required tools:"@] + required_tool_lines(
                    v.checked,
                    crate::execution::prerequisites::tool_order(v.checked, planned_check_ids(plan)),
                ),
            )
        },
        None => None,
    }
}

fn push_all(out: &mut Vec<String>, lines: &Vec<String>)
    ensures
        views(final(out)@) == views(old(out)@) + views(lines@),
{
    let ghost start = views(out@);
    let mut t: usize = 0;
    while t < lines.len()
        invariant
            t <= lines@.len(),
            views(out@) == start + views(lines@).take(t as int),
        decreases lines@.len() - t,
    {
        let ghost before = views(out@);
        out.push(owned(lines[t].as_str()));
        assert(views(lines@).take(t + 1) =~= views(lines@).take(t as int).push(lines@[t as int]@));
        assert(views(out@) =~= before.push(lines@[t as int]@));
        t = t + 1;
    }
    assert(views(lines@).take(lines@.len() as int) =~= views(lines@));
}

/// Explains the planned group `id` of `plan`, or `None` when the plan has
/// no such group.
#[verifier::spinoff_prover]
#[verifier::rlimit(40)]
pub fn explain_group(v: &ValidatedConfig, plan: &ValidationPlan, id: &str) -> (r: Option<Vec<String>>)
    requires
        v.wf(),
        plan.groups@.len() < usize::MAX,
    ensures
        match r {
            Some(lines) => group_explanation(*v, *plan, id@) == Some(views(lines@)),
            None => group_explanation(*v, *plan, id@) is None,
        },
{
    let k = match planned_group_at(plan, id) {
        Some(k) => k,
        None => {
            return None;
        },
    };
    let group = &plan.groups[k];
    let mut r: Vec<String> = Vec::new();
    let mut header = concat2("GROUP ", id);
    header.append(" - ");
    header.append(group.label.as_str());
    r.push(header);
    r.push(owned(group.description.as_str()));
    r.push(concat2("Level: ", decimal(group.level as u64).as_str()));
    r.push(owned("Members:"));
    let ghost head = views(r@);
    let mut j: usize = 0;
    while j < group.members.len()
        invariant
            k < plan.groups@.len(),
            group == &plan.groups@[k as int],
            j <= group.members@.len(),
            views(r@) == head + member_lines(group.members@).take(j as int),
        decreases group.members@.len() - j,
    {
        let line = match &group.members[j] {
            GroupMemberRef::Group { id } => concat2("  GROUP ", id.as_str()),
            GroupMemberRef::Suite { id } => concat2("  SUITE ", id.as_str()),
        };
        let ghost before = views(r@);
        r.push(line);
        assert(member_lines(group.members@).take(j + 1) =~= member_lines(group.members@).take(j as int).push(line@));
        assert(views(r@) =~= before.push(line@));
        j = j + 1;
    }
    assert(member_lines(group.members@).take(group.members@.len() as int) =~= member_lines(group.members@));
    let ghost after_members = views(r@);
    r.push(owned("Membership paths:"));
    assert(views(r@) =~= after_members.push("Membership paths:"@));
    push_all(&mut r, &membership_paths(&v.checked, true, id));
    let ghost after_paths = views(r@);
    r.push(owned("Reachable hierarchy:"));
    assert(views(r@) =~= after_paths.push("Reachable hierarchy:"@));
    push_all(&mut r, &hierarchy(plan, true, id));
    push_all(&mut r, &commands_and_tools(v, plan));
    proof {
        let expected = group_explanation(*v, *plan, id@)->0;
        assert(views(r@) =~= expected);
    }
    Some(r)
}


/// The `Debug` rendering of a list of texts: each quoted, in brackets,
/// separated by a comma and a space.
pub open spec fn debug_list(items: Seq<Seq<char>>) -> Seq<char> {
    "["@ + crate::text::join_texts(Seq::new(items.len(), |i: int| debug_quoted(items[i])), ", "@) + "]"@
}

fn debug_list_text(items: &Vec<String>) -> (r: String)
    ensures
        r@ == debug_list(views(items@)),
{
    let mut quoted: Vec<String> = Vec::new();
    let mut i: usize = 0;
    while i < items.len()
        invariant
            i <= items@.len(),
            views(quoted@) == Seq::new(i as nat, |j: int| debug_quoted(items@[j]@)),
        decreases items@.len() - i,
    {
        let ghost before = views(quoted@);
        quoted.push(debug_text(items[i].as_str()));
        assert(views(quoted@) =~= before.push(debug_quoted(items@[i as int]@)));
        assert(views(quoted@) =~= Seq::new((i + 1) as nat, |j: int| debug_quoted(items@[j]@)));
        i = i + 1;
    }
    assert(Seq::new(items@.len(), |j: int| debug_quoted(items@[j]@)) =~= Seq::new(
        views(items@).len(),
        |j: int| debug_quoted(views(items@)[j]),
    ));
    let mut r = owned("[");
    r.append(crate::text::join_strings(&quoted, ", ").as_str());
    r.append("]");
    r
}

/// The lines of one check of a suite explanation: the check, the JSON text
/// of its parameters when it has any, and its dependencies when it has any.
pub open spec fn invocation_lines(invocation: crate::planning::PlannedSuiteCheck, parameters: Seq<char>) -> Seq<Seq<char>> {
    seq!["  "@ + invocation.check_id@] + (if invocation.parameters@.len() > 0 {
        seq!["    Parameters: "@ + parameters]
    } else {
        Seq::empty()
    }) + (if invocation.depends_on@.len() > 0 {
        seq!["    Depends on: "@ + debug_list(views(invocation.depends_on@))]
    } else {
        Seq::empty()
    })
}

/// How a suite's declared working directory reads in an explanation.
pub open spec fn declared_directory_text(directory: Option<String>) -> Seq<char> {
    match directory {
        Some(d) => d@,
        None => "<workspace root>"@,
    }
}

/// The explanation of the planned suite `id`: what it is, where it runs,
/// its checks (`parameters[i]` is the JSON text of the parameters of the
/// `i`-th), the paths that reach it, and the commands and tools its plan
/// needs. `None` when the plan or the configuration has no such suite.
pub open spec fn suite_explanation(
    v: ValidatedConfig,
    plan: ValidationPlan,
    id: Seq<char>,
    parameters: Seq<Seq<char>>,
) -> Option<Seq<Seq<char>>> {
    let declared = v.checked.config.suites@;
    match first_where(plan.suites@, |s: crate::planning::PlannedSuite| s.id@ == id) {
        Some(k) => if keys_of(declared).contains(id) {
            let suite = plan.suites@[k];
            Some(
                seq![
                    "SUITE "@ + id + " - "@ + suite.label@,
                    suite.description@,
                    "Declared directory: "@ + declared_directory_text(
                        declared[entry_of(declared, id)].working_directory,
                    ),
                    "Effective directory: "@ + suite.relative_working_directory@,
                    "Checks:"@,
                ] + joined(Seq::new(suite.checks@.len(), |i: int| invocation_lines(suite.checks@[i], parameters[i])))
                    + seq!["Membership paths:"@] + path_lines(v.checked, false, id) + seq!["Commands:"@]
                    + command_lines(v.checked, plan) + seq!["Required tools:"@] + required_tool_lines(
                    v.checked,
                    crate::execution::prerequisites::tool_order(v.checked, planned_check_ids(plan)),
                ),
            )
        } else {
            None
        },
        None => None,
    }
}

/// Explains the planned suite `id` of `plan`; `parameters[i]` is the JSON
/// text of the parameters of its `i`-th check.
#[verifier::spinoff_prover]
#[verifier::rlimit(40)]
pub fn explain_suite(v: &ValidatedConfig, plan: &ValidationPlan, id: &str, parameters: &Vec<String>) -> (r: Option<
    Vec<String>,
>)
    requires
        v.wf(),
        forall|k: int|
            first_where(plan.suites@, |s: crate::planning::PlannedSuite| s.id@ == id@) == Some(k) ==> parameters@.len()
                == plan.suites@[k].checks@.len(),
    ensures
        match r {
            Some(lines) => suite_explanation(*v, *plan, id@, views(parameters@)) == Some(views(lines@)),
            None => suite_explanation(*v, *plan, id@, views(parameters@)) is None,
        },
{
    let k = match planned_suite_at(plan, id) {
        Some(k) => k,
        None => {
            return None;
        },
    };
    let c = &v.checked;
    let p = match c.suite_position(id) {
        Some(p) => p,
        None => {
            return None;
        },
    };
    proof {
        assert(keys_of(c.config.suites@)[p as int] == id@);
    }
    let suite = &plan.suites[k];
    let mut r: Vec<String> = Vec::new();
    let mut header = concat2("SUITE ", id);
    header.append(" - ");
    header.append(suite.label.as_str());
    r.push(header);
    r.push(owned(suite.description.as_str()));
    let declared = match &c.config.suites[p].working_directory {
        Some(d) => concat2("Declared directory: ", d.as_str()),
        None => owned("Declared directory: <workspace root>"),
    };
    proof {
        reveal_strlit("Declared directory: <workspace root>");
        reveal_strlit("Declared directory: ");
        reveal_strlit("<workspace root>");
    }
    assert(declared@ == "Declared directory: "@ + declared_directory_text(c.config.suites@[p as int].working_directory));
    r.push(declared);
    r.push(concat2("Effective directory: ", suite.relative_working_directory.as_str()));
    r.push(owned("Checks:"));
    let ghost head = views(r@);
    let ghost parts = Seq::new(suite.checks@.len(), |i: int| invocation_lines(suite.checks@[i], views(parameters@)[i]));
    let mut i: usize = 0;
    while i < suite.checks.len()
        invariant
            k < plan.suites@.len(),
            suite == &plan.suites@[k as int],
            parameters@.len() == suite.checks@.len(),
            parts == Seq::new(suite.checks@.len(), |i: int| invocation_lines(suite.checks@[i], views(parameters@)[i])),
            i <= suite.checks@.len(),
            views(r@) == head + joined(parts.take(i as int)),
        decreases suite.checks@.len() - i,
    {
        proof {
            crate::text::lemma_joined_take(parts, i as int);
        }
        let invocation = &suite.checks[i];
        let ghost before = views(r@);
        let first = concat2("  ", invocation.check_id.as_str());
        r.push(first);
        let ghost mut added: Seq<Seq<char>> = seq![first@];
        assert(views(r@) =~= before + added);
        if invocation.parameters.len() > 0 {
            let line = concat2("    Parameters: ", parameters[i].as_str());
            let ghost prior = views(r@);
            r.push(line);
            proof {
                assert(views(r@) =~= prior.push(line@));
                added = added.push(line@);
            }
        }
        if invocation.depends_on.len() > 0 {
            let line = concat2("    Depends on: ", debug_list_text(&invocation.depends_on).as_str());
            let ghost prior = views(r@);
            r.push(line);
            proof {
                assert(views(r@) =~= prior.push(line@));
                added = added.push(line@);
            }
        }
        assert(added =~= parts[i as int]);
        assert(views(r@) =~= before + parts[i as int]);
        i = i + 1;
    }
    assert(parts.take(suite.checks@.len() as int) =~= parts);
    let ghost after_checks = views(r@);
    r.push(owned("Membership paths:"));
    assert(views(r@) =~= after_checks.push("Membership paths:"@));
    push_all(&mut r, &membership_paths(c, false, id));
    push_all(&mut r, &commands_and_tools(v, plan));
    proof {
        let expected = suite_explanation(*v, *plan, id@, views(parameters@))->0;
        assert(views(r@) =~= expected);
    }
    Some(r)
}

} // verus!
