//! Complete semantic validation and indexing of parsed configuration.
//!
//! Every semantic problem of a document is collected, in a fixed order, into
//! one diagnostic. The order follows the identifiers of each kind in ascending
//! order, as the indexes built here enumerate them.

use vstd::prelude::*;
use crate::config::directories::{
    directory_verdict, relative_path_verdict, resolve_suite_directory, validate_relative_path, DirectoryProbe,
    ResolvedSuiteDirectory,
};
use crate::config::parameters::{declared_placeholders, placeholder_names, valid_identifier, valid_name};
use crate::contracts::config::{
    member_id, CheckConfig, Config, GroupConfig, GroupMemberRef, ParameterValue, SuiteCheckConfig, SuiteConfig,
    ToolConfig,
};
use crate::dag::{
    adjacency_of, cycle_message, cycle_names, first_missing, missing_message, references_present, text_acyclic, text_cycle, text_edge, validate_graph,
};
use crate::error::ValidatorError;
use crate::text::{
    blank, concat2, debug_quoted, debug_text, decimal, decimal_text, entry_of, extend_strings, find_key, flat, has_nul, holds_nul,
    insert_sorted, is_blank, join_strings, join_texts, keys_of, lemma_flat_empty, lemma_flat_take, lemma_sorted_distinct, owned,
    strictly_sorted, text_eq, views, message_if, Keyed,
};
use crate::versions::{parse_requirement, semver_requirement};

verus! {

// ---------------------------------------------------------------------------
// Keyed indexes.
// ---------------------------------------------------------------------------

/// `items[j]` repeats the key of an earlier item.
pub open spec fn duplicate_at<T: Keyed>(items: Seq<T>, j: int) -> bool {
    &&& 0 <= j < items.len()
    &&& exists|i: int| 0 <= i < j && #[trigger] items[i].key_view() == items[j].key_view()
}

/// No two items share a key.
pub open spec fn unique_keys<T: Keyed>(items: Seq<T>) -> bool {
    forall|j: int| !#[trigger] duplicate_at(items, j)
}

/// `index` lists every item of `items` once, as `(key, position)`, by ascending key.
pub open spec fn sorted_index<T: Keyed>(index: Seq<(String, usize)>, items: Seq<T>) -> bool {
    &&& strictly_sorted(keys_of(index))
    &&& index.len() == items.len()
    &&& forall|x: Seq<char>| keys_of(index).contains(x) <==> keys_of(items).contains(x)
    &&& forall|k: int|
        0 <= k < index.len() ==> (#[trigger] index[k]).1 < items.len() && items[index[k].1 as int].key_view()
            == index[k].0@
}

/// The items in the order of an index.
pub open spec fn in_key_order<T>(index: Seq<(String, usize)>, items: Seq<T>) -> Seq<T> {
    Seq::new(index.len(), |k: int| items[index[k].1 as int])
}

/// Items with unique keys that share a key are the same item.
pub proof fn lemma_unique_position<T: Keyed>(items: Seq<T>, a: int, b: int)
    requires
        unique_keys(items),
        0 <= a < items.len(),
        0 <= b < items.len(),
        items[a].key_view() == items[b].key_view(),
    ensures
        a == b,
{
    if a < b {
        assert(duplicate_at(items, b));
    } else if b < a {
        assert(duplicate_at(items, a));
    }
}

/// Indexes items by key, or reports the first item whose key repeats.
pub fn index_by_key<T: Keyed>(items: &Vec<T>) -> (r: Result<Vec<(String, usize)>, usize>)
    ensures
        match r {
            Ok(index) => unique_keys(items@) && sorted_index(index@, items@),
            Err(j) => duplicate_at(items@, j as int) && forall|k: int| 0 <= k < j ==> !#[trigger] duplicate_at(
                items@,
                k,
            ),
        },
{
    let mut index: Vec<(String, usize)> = Vec::new();
    let mut i: usize = 0;
    while i < items.len()
        invariant
            i <= items@.len(),
            index@.len() == i,
            strictly_sorted(keys_of(index@)),
            forall|k: int|
                0 <= k < index@.len() ==> (#[trigger] index@[k]).1 < i && items@[index@[k].1 as int].key_view()
                    == index@[k].0@,
            forall|x: Seq<char>| keys_of(index@).contains(x) <==> exists|p: int| 0 <= p < i && #[trigger] items@[p].key_view() == x,
            forall|k: int| 0 <= k < i ==> !#[trigger] duplicate_at(items@, k),
        decreases items@.len() - i,
    {
        let ghost before = index@;
        let key = owned(items[i].key());
        let inserted = insert_sorted(&mut index, (key, i));
        if !inserted {
            proof {
                let x = items@[i as int].key_view();
                assert(keys_of(before).contains(x));
                let p = choose|p: int| 0 <= p < i && #[trigger] items@[p].key_view() == x;
                assert(items@[p].key_view() == items@[i as int].key_view());
                assert(duplicate_at(items@, i as int));
            }
            return Err(i);
        }
        proof {
            let p = choose|p: int| 0 <= p <= before.len() && index@ == before.insert(p, (key, i));
            assert forall|k: int| 0 <= k < index@.len() implies (#[trigger] index@[k]).1 < i + 1 && items@[index@[
                k
            ].1 as int].key_view() == index@[k].0@ by {
                if k < p {
                    assert(index@[k] == before[k]);
                } else if k > p {
                    assert(index@[k] == before[k - 1]);
                }
            }
            assert forall|x: Seq<char>| keys_of(index@).contains(x) <==> exists|q: int| 0 <= q < i + 1 && #[trigger] items@[q].key_view() == x by {
                if keys_of(before).contains(x) {
                    let q = choose|q: int| 0 <= q < i && #[trigger] items@[q].key_view() == x;
                    assert(items@[q].key_view() == x);
                }
                if exists|q: int| 0 <= q < i + 1 && #[trigger] items@[q].key_view() == x {
                    let q = choose|q: int| 0 <= q < i + 1 && #[trigger] items@[q].key_view() == x;
                    if q < i {
                        assert(keys_of(before).contains(x));
                    }
                }
            }
            assert forall|k: int| 0 <= k < i + 1 implies !#[trigger] duplicate_at(items@, k) by {
                if k == i && duplicate_at(items@, k) {
                    let q = choose|q: int| 0 <= q < k && #[trigger] items@[q].key_view() == items@[k].key_view();
                    assert(items@[q].key_view() == items@[q].key_view());
                    assert(keys_of(before).contains(items@[i as int].key_view()));
                }
            }
        }
        i = i + 1;
    }
    proof {
        assert forall|j: int| !#[trigger] duplicate_at(items@, j) by {
            if 0 <= j < items@.len() {
            }
        }
        assert forall|x: Seq<char>| keys_of(index@).contains(x) <==> keys_of(items@).contains(x) by {
            if keys_of(items@).contains(x) {
                let p = choose|p: int| 0 <= p < keys_of(items@).len() && keys_of(items@)[p] == x;
                assert(items@[p].key_view() == x);
            }
            if keys_of(index@).contains(x) {
                let p = choose|p: int| 0 <= p < items@.len() && #[trigger] items@[p].key_view() == x;
                assert(keys_of(items@)[p] == x);
            }
        }
    }
    Ok(index)
}

// ---------------------------------------------------------------------------
// The diagnostics of each declaration.
// ---------------------------------------------------------------------------

/// The diagnostic for an identifier outside the identifier grammar.
pub open spec fn id_errors(id: Seq<char>) -> Seq<Seq<char>> {
    message_if(!valid_identifier(id), "invalid id "@ + debug_quoted(id))
}

/// The diagnostic for a blank label or description.
pub open spec fn text_errors(kind: Seq<char>, id: Seq<char>, label: Seq<char>, description: Seq<char>) -> Seq<Seq<char>> {
    message_if(is_blank(label) || is_blank(description), kind + " "@ + id + " must have non-blank label and description"@)
}

/// Some text of `values` holds NUL.
pub open spec fn any_nul(values: Seq<String>) -> bool {
    exists|i: int| 0 <= i < values.len() && holds_nul(#[trigger] values[i]@)
}

/// A parameter value holds NUL.
pub open spec fn value_has_nul(value: ParameterValue) -> bool {
    match value {
        ParameterValue::Single(text) => holds_nul(text@),
        ParameterValue::Multiple(values) => any_nul(values@),
    }
}

/// The diagnostic for a version requirement that does not parse.
pub open spec fn requirement_errors(tool: ToolConfig) -> Seq<Seq<char>> {
    match tool.version_requirement {
        Some(requirement) => match semver_requirement(requirement@) {
            Ok(_) => Seq::empty(),
            Err(error) => seq!["tool "@ + tool.id@ + " has invalid version requirement: "@ + error],
        },
        None => Seq::empty(),
    }
}

/// The diagnostics of one tool.
pub open spec fn tool_errors(tool: ToolConfig) -> Seq<Seq<char>> {
    id_errors(tool.id@) + message_if(
        tool.program@.len() == 0 || holds_nul(tool.program@) || any_nul(tool.version_args@),
        "tool "@ + tool.id@ + " has an empty program or NUL argument"@,
    ) + requirement_errors(tool)
}

/// The diagnostics for required tools that are not declared.
pub open spec fn missing_tool_errors(check_id: Seq<char>, required: Seq<String>, tools: Seq<ToolConfig>) -> Seq<Seq<char>> {
    flat(
        Seq::new(
            required.len(),
            |k: int|
                message_if(
                    !keys_of(tools).contains(required[k]@),
                    "check "@ + check_id + " references missing tool "@ + required[k]@,
                ),
        ),
    )
}

/// The diagnostics of one check.
pub open spec fn check_errors(check: CheckConfig, tools: Seq<ToolConfig>) -> Seq<Seq<char>> {
    id_errors(check.id@) + message_if(check.id@ == "repository.integrity"@, "repository.integrity is reserved"@)
        + text_errors("check"@, check.id@, check.label@, check.description@) + message_if(
        any_nul(check.args@),
        "check "@ + check.id@ + " has a NUL argument"@,
    ) + message_if(
        !(1 <= check.timeout_seconds <= 86400),
        "check "@ + check.id@ + " has an invalid timeout"@,
    ) + message_if(
        !keys_of(tools).contains(check.tool_id@),
        "check "@ + check.id@ + " references missing tool "@ + check.tool_id@,
    ) + missing_tool_errors(check.id@, check.requires_tools@, tools)
}

/// A check's timeout is judged against 1..=86400 seconds: within that range
/// its value plays no part in the check's diagnostics, and outside it the
/// check is reported with an invalid timeout.
pub proof fn lemma_check_timeout_range(check: CheckConfig, tools: Seq<ToolConfig>, timeout: u64)
    ensures
        1 <= check.timeout_seconds <= 86400 && 1 <= timeout <= 86400 ==> check_errors(
            CheckConfig { timeout_seconds: timeout, ..check },
            tools,
        ) == check_errors(check, tools),
        !(1 <= check.timeout_seconds <= 86400) ==> check_errors(check, tools).contains(
            "check "@ + check.id@ + " has an invalid timeout"@,
        ),
{
    let m = "check "@ + check.id@ + " has an invalid timeout"@;
    let pre = id_errors(check.id@) + message_if(check.id@ == "repository.integrity"@, "repository.integrity is reserved"@)
        + text_errors("check"@, check.id@, check.label@, check.description@) + message_if(
        any_nul(check.args@),
        "check "@ + check.id@ + " has a NUL argument"@,
    );
    let post = message_if(
        !keys_of(tools).contains(check.tool_id@),
        "check "@ + check.id@ + " references missing tool "@ + check.tool_id@,
    ) + missing_tool_errors(check.id@, check.requires_tools@, tools);
    if !(1 <= check.timeout_seconds <= 86400) {
        assert(check_errors(check, tools) == pre + seq![m] + post);
        assert((pre + seq![m] + post)[pre.len() as int] == m);
    }
}

/// The diagnostic for a repository provider whose tool is not declared.
pub open spec fn repository_errors(config: Config) -> Seq<Seq<char>> {
    match config.repository {
        Some(repository) => message_if(
            !keys_of(config.tools@).contains(repository.tool_id@),
            "repository references missing tool "@ + repository.tool_id@,
        ),
        None => Seq::empty(),
    }
}

/// Invocation `j` repeats the check of an earlier invocation.
pub open spec fn repeats_check(invocations: Seq<SuiteCheckConfig>, j: int) -> bool {
    exists|i: int| 0 <= i < j && #[trigger] invocations[i].check_id@ == invocations[j].check_id@
}

/// The diagnostics for repeated checks of a suite.
pub open spec fn repeat_errors(suite_id: Seq<char>, invocations: Seq<SuiteCheckConfig>) -> Seq<Seq<char>> {
    flat(
        Seq::new(
            invocations.len(),
            |j: int|
                message_if(
                    repeats_check(invocations, j),
                    "suite "@ + suite_id + " repeats check "@ + invocations[j].check_id@,
                ),
        ),
    )
}

/// `dependency` is invoked in the suite, and its last invocation comes before
/// invocation `j`.
pub open spec fn dependency_before(invocations: Seq<SuiteCheckConfig>, dependency: Seq<char>, j: int) -> bool {
    &&& exists|p: int| 0 <= p < j && #[trigger] invocations[p].check_id@ == dependency
    &&& forall|p: int| j <= p < invocations.len() ==> #[trigger] invocations[p].check_id@ != dependency
}

/// The diagnostics of one parameter binding.
pub open spec fn parameter_errors(
    suite_id: Seq<char>,
    check_id: Seq<char>,
    binding: (String, ParameterValue),
    declared: Set<Seq<char>>,
) -> Seq<Seq<char>> {
    id_errors(binding.0@) + message_if(
        !declared.contains(binding.0@),
        "suite "@ + suite_id + " check "@ + check_id + " provides unknown parameter "@ + binding.0@,
    ) + message_if(
        value_has_nul(binding.1),
        "suite "@ + suite_id + " check "@ + check_id + " parameter "@ + binding.0@ + " contains NUL"@,
    )
}

/// The diagnostics of the dependencies of invocation `j`.
pub open spec fn dependency_errors(suite_id: Seq<char>, invocations: Seq<SuiteCheckConfig>, j: int) -> Seq<Seq<char>> {
    let invocation = invocations[j];
    flat(
        Seq::new(
            invocation.depends_on@.len(),
            |k: int|
                message_if(
                    !dependency_before(invocations, invocation.depends_on@[k]@, j),
                    "suite "@ + suite_id + " does not include dependency "@ + invocation.depends_on@[k]@ + " before "@
                        + invocation.check_id@,
                ),
        ),
    )
}

/// The diagnostics of invocation `j` of a suite.
pub open spec fn invocation_errors(
    suite_id: Seq<char>,
    invocations: Seq<SuiteCheckConfig>,
    j: int,
    checks: Seq<CheckConfig>,
) -> Seq<Seq<char>> {
    let invocation = invocations[j];
    if !keys_of(checks).contains(invocation.check_id@) {
        seq!["suite "@ + suite_id + " references missing check "@ + invocation.check_id@]
    } else {
        let declared = declared_placeholders(checks[entry_of(checks, invocation.check_id@)].args@);
        flat(
            Seq::new(
                invocation.parameters@.len(),
                |k: int| parameter_errors(suite_id, invocation.check_id@, invocation.parameters@[k], declared),
            ),
        ) + dependency_errors(suite_id, invocations, j)
    }
}

/// The diagnostic for an unsafe working directory.
pub open spec fn directory_errors(suite: SuiteConfig) -> Seq<Seq<char>> {
    match suite.working_directory {
        Some(directory) => match relative_path_verdict(directory@) {
            Ok(_) => Seq::empty(),
            Err(error) => seq!["suite "@ + suite.id@ + ": "@ + error],
        },
        None => Seq::empty(),
    }
}

/// The diagnostics of one suite.
pub open spec fn suite_errors(suite: SuiteConfig, checks: Seq<CheckConfig>) -> Seq<Seq<char>> {
    id_errors(suite.id@) + text_errors("suite"@, suite.id@, suite.label@, suite.description@) + message_if(
        suite.checks@.len() == 0,
        "suite "@ + suite.id@ + " must contain at least one check"@,
    ) + repeat_errors(suite.id@, suite.checks@) + flat(
        Seq::new(suite.checks@.len(), |j: int| invocation_errors(suite.id@, suite.checks@, j, checks)),
    ) + directory_errors(suite)
}

/// Two members reference the same node of the same kind.
pub open spec fn same_member(a: GroupMemberRef, b: GroupMemberRef) -> bool {
    &&& (a is Group <==> b is Group)
    &&& member_id(a) == member_id(b)
}

/// The name of a member's kind.
pub open spec fn kind_name(member: GroupMemberRef) -> Seq<char> {
    match member {
        GroupMemberRef::Group { .. } => "group"@,
        GroupMemberRef::Suite { .. } => "suite"@,
    }
}

/// The diagnostics of member `j` of a group.
pub open spec fn member_errors(
    group_id: Seq<char>,
    members: Seq<GroupMemberRef>,
    j: int,
    groups: Seq<GroupConfig>,
    suites: Seq<SuiteConfig>,
) -> Seq<Seq<char>> {
    let member = members[j];
    message_if(
        exists|i: int| 0 <= i < j && same_member(#[trigger] members[i], member),
        "group "@ + group_id + " repeats "@ + kind_name(member) + " member "@ + member_id(member),
    ) + match member {
        GroupMemberRef::Group { id } => message_if(
            !keys_of(groups).contains(id@),
            "group "@ + group_id + " references missing group "@ + id@,
        ),
        GroupMemberRef::Suite { id } => message_if(
            !keys_of(suites).contains(id@),
            "group "@ + group_id + " references missing suite "@ + id@,
        ),
    }
}

/// The diagnostics of one group.
pub open spec fn group_errors(group: GroupConfig, groups: Seq<GroupConfig>, suites: Seq<SuiteConfig>) -> Seq<Seq<char>> {
    id_errors(group.id@) + text_errors("group"@, group.id@, group.label@, group.description@) + message_if(
        group.members@.len() == 0,
        "group "@ + group.id@ + " must contain at least one member"@,
    ) + flat(Seq::new(group.members@.len(), |j: int| member_errors(group.id@, group.members@, j, groups, suites)))
}

// ---------------------------------------------------------------------------
// Per-declaration checks.
// ---------------------------------------------------------------------------

fn push_id_errors(errors: &mut Vec<String>, id: &str)
    ensures
        views(final(errors)@) == views(old(errors)@) + id_errors(id@),
{
    if !valid_name(id) {
        let mut m = owned("invalid id ");
        m.append(debug_text(id).as_str());
        errors.push(m);
    } else {
        assert(views(errors@) =~= views(errors@) + id_errors(id@));
    }
}

fn push_text_errors(errors: &mut Vec<String>, kind: &str, id: &str, label: &str, description: &str)
    ensures
        views(final(errors)@) == views(old(errors)@) + text_errors(kind@, id@, label@, description@),
{
    if blank(label) || blank(description) {
        let mut m = concat2(kind, " ");
        m.append(id);
        m.append(" must have non-blank label and description");
        errors.push(m);
    } else {
        assert(views(errors@) =~= views(errors@) + text_errors(kind@, id@, label@, description@));
    }
}

/// Pushes `message` when `condition` holds.
fn push_when(errors: &mut Vec<String>, condition: bool, message: String)
    ensures
        views(final(errors)@) == views(old(errors)@) + message_if(condition, message@),
{
    if condition {
        errors.push(message);
    } else {
        assert(views(errors@) =~= views(errors@) + message_if(condition, message@));
    }
}

fn any_has_nul(values: &Vec<String>) -> (r: bool)
    ensures
        r == any_nul(values@),
{
    let mut i: usize = 0;
    while i < values.len()
        invariant
            i <= values@.len(),
            forall|k: int| 0 <= k < i ==> !holds_nul(#[trigger] values@[k]@),
        decreases values@.len() - i,
    {
        if has_nul(values[i].as_str()) {
            return true;
        }
        i = i + 1;
    }
    false
}

fn parameter_has_nul(value: &ParameterValue) -> (r: bool)
    ensures
        r == value_has_nul(*value),
{
    match value {
        ParameterValue::Single(text) => has_nul(text.as_str()),
        ParameterValue::Multiple(values) => any_has_nul(values),
    }
}

/// Whether `key` names an item of `items`, which need not be sorted.
fn contains_key<T: Keyed>(items: &Vec<T>, key: &str) -> (r: bool)
    ensures
        r == keys_of(items@).contains(key@),
{
    let mut i: usize = 0;
    while i < items.len()
        invariant
            i <= items@.len(),
            forall|k: int| 0 <= k < i ==> items@[k].key_view() != key@,
        decreases items@.len() - i,
    {
        if text_eq(items[i].key(), key) {
            assert(keys_of(items@)[i as int] == key@);
            return true;
        }
        i = i + 1;
    }
    proof {
        if keys_of(items@).contains(key@) {
            let k = choose|k: int| 0 <= k < keys_of(items@).len() && keys_of(items@)[k] == key@;
            assert(items@[k].key_view() == key@);
        }
    }
    false
}

fn tool_errors_of(tool: &ToolConfig) -> (r: Vec<String>)
    ensures
        views(r@) == tool_errors(*tool),
{
    let mut errors: Vec<String> = Vec::new();
    push_id_errors(&mut errors, tool.id.as_str());
    let mut m = concat2("tool ", tool.id.as_str());
    m.append(" has an empty program or NUL argument");
    let empty = tool.program.as_str().unicode_len() == 0;
    push_when(&mut errors, empty || has_nul(tool.program.as_str()) || any_has_nul(&tool.version_args), m);
    let ghost before = views(errors@);
    match &tool.version_requirement {
        Some(requirement) => match parse_requirement(requirement.as_str()) {
            Ok(_) => {
                assert(views(errors@) =~= before + requirement_errors(*tool));
            },
            Err(error) => {
                let mut m = concat2("tool ", tool.id.as_str());
                m.append(" has invalid version requirement: ");
                m.append(error.as_str());
                errors.push(m);
                assert(views(errors@) =~= before + requirement_errors(*tool));
            },
        },
        None => {
            assert(views(errors@) =~= before + requirement_errors(*tool));
        },
    }
    assert(views(errors@) =~= tool_errors(*tool));
    errors
}

fn check_errors_of(check: &CheckConfig, tools: &Vec<ToolConfig>) -> (r: Vec<String>)
    ensures
        views(r@) == check_errors(*check, tools@),
{
    let id = check.id.as_str();
    let mut errors: Vec<String> = Vec::new();
    push_id_errors(&mut errors, id);
    proof {
        reveal_strlit("repository.integrity");
    }
    push_when(&mut errors, text_eq(id, "repository.integrity"), owned("repository.integrity is reserved"));
    push_text_errors(&mut errors, "check", id, check.label.as_str(), check.description.as_str());
    let mut m = concat2("check ", id);
    m.append(" has a NUL argument");
    push_when(&mut errors, any_has_nul(&check.args), m);
    let mut m = concat2("check ", id);
    m.append(" has an invalid timeout");
    push_when(&mut errors, !(1 <= check.timeout_seconds && check.timeout_seconds <= 86400), m);
    let mut m = concat2("check ", id);
    m.append(" references missing tool ");
    m.append(check.tool_id.as_str());
    push_when(&mut errors, !contains_key(tools, check.tool_id.as_str()), m);
    let ghost base = views(errors@);
    let ghost parts = Seq::new(
        check.requires_tools@.len(),
        |k: int|
            message_if(
                !keys_of(tools@).contains(check.requires_tools@[k]@),
                "check "@ + id@ + " references missing tool "@ + check.requires_tools@[k]@,
            ),
    );
    let mut k: usize = 0;
    while k < check.requires_tools.len()
        invariant
            k <= check.requires_tools@.len(),
            parts.len() == check.requires_tools@.len(),
            parts == Seq::new(
                check.requires_tools@.len(),
                |k: int|
                    message_if(
                        !keys_of(tools@).contains(check.requires_tools@[k]@),
                        "check "@ + id@ + " references missing tool "@ + check.requires_tools@[k]@,
                    ),
            ),
            views(errors@) == base + flat(parts.take(k as int)),
        decreases check.requires_tools@.len() - k,
    {
        let tool = check.requires_tools[k].as_str();
        let mut m = concat2("check ", id);
        m.append(" references missing tool ");
        m.append(tool);
        push_when(&mut errors, !contains_key(tools, tool), m);
        proof {
            lemma_flat_take(parts, k as int);
        }
        k = k + 1;
    }
    assert(parts.take(parts.len() as int) =~= parts);
    assert(views(errors@) =~= check_errors(*check, tools@));
    errors
}

/// The position of the first item keyed `key`, which need not be sorted.
fn position_of<T: Keyed>(items: &Vec<T>, key: &str) -> (r: Option<usize>)
    ensures
        match r {
            Some(p) => p < items@.len() && items@[p as int].key_view() == key@,
            None => !keys_of(items@).contains(key@),
        },
{
    let mut i: usize = 0;
    while i < items.len()
        invariant
            i <= items@.len(),
            forall|k: int| 0 <= k < i ==> items@[k].key_view() != key@,
        decreases items@.len() - i,
    {
        if text_eq(items[i].key(), key) {
            return Some(i);
        }
        i = i + 1;
    }
    proof {
        if keys_of(items@).contains(key@) {
            let k = choose|k: int| 0 <= k < keys_of(items@).len() && keys_of(items@)[k] == key@;
            assert(items@[k].key_view() == key@);
        }
    }
    None
}

fn repeats_check_at(invocations: &Vec<SuiteCheckConfig>, j: usize) -> (r: bool)
    requires
        j < invocations@.len(),
    ensures
        r == repeats_check(invocations@, j as int),
{
    let mut i: usize = 0;
    while i < j
        invariant
            j < invocations@.len(),
            i <= j,
            forall|k: int| 0 <= k < i ==> invocations@[k].check_id@ != invocations@[j as int].check_id@,
        decreases j - i,
    {
        if text_eq(invocations[i].check_id.as_str(), invocations[j].check_id.as_str()) {
            return true;
        }
        i = i + 1;
    }
    false
}

fn dependency_before_at(invocations: &Vec<SuiteCheckConfig>, dependency: &str, j: usize) -> (r: bool)
    requires
        j < invocations@.len(),
    ensures
        r == dependency_before(invocations@, dependency@, j as int),
{
    let mut earlier = false;
    let mut i: usize = 0;
    while i < invocations.len()
        invariant
            j < invocations@.len(),
            i <= invocations@.len(),
            earlier <==> exists|p: int| 0 <= p < i && p < j && #[trigger] invocations@[p].check_id@ == dependency@,
            forall|p: int| j <= p < i ==> #[trigger] invocations@[p].check_id@ != dependency@,
        decreases invocations@.len() - i,
    {
        if text_eq(invocations[i].check_id.as_str(), dependency) {
            if i >= j {
                return false;
            }
            earlier = true;
        }
        i = i + 1;
    }
    earlier
}

fn invocation_errors_of(
    suite_id: &str,
    invocations: &Vec<SuiteCheckConfig>,
    j: usize,
    checks: &Vec<CheckConfig>,
) -> (r: Vec<String>)
    requires
        j < invocations@.len(),
        unique_keys(checks@),
    ensures
        views(r@) == invocation_errors(suite_id@, invocations@, j as int, checks@),
{
    let invocation = &invocations[j];
    let check_id = invocation.check_id.as_str();
    let mut errors: Vec<String> = Vec::new();
    match position_of(checks, check_id) {
        None => {
            let mut m = concat2("suite ", suite_id);
            m.append(" references missing check ");
            m.append(check_id);
            errors.push(m);
            assert(views(errors@) =~= invocation_errors(suite_id@, invocations@, j as int, checks@));
            errors
        },
        Some(p) => {
            proof {
                let e = entry_of(checks@, check_id@);
                assert(keys_of(checks@)[p as int] == check_id@);
                lemma_unique_position(checks@, e, p as int);
            }
            let placeholders = placeholder_names(checks[p].args.as_slice());
            let ghost declared = declared_placeholders(checks@[p as int].args@);
            let ghost parts = Seq::new(
                invocation.parameters@.len(),
                |k: int| parameter_errors(suite_id@, check_id@, invocation.parameters@[k], declared),
            );
            let mut k: usize = 0;
            while k < invocation.parameters.len()
                invariant
                    k <= invocation.parameters@.len(),
                    parts == Seq::new(
                        invocation.parameters@.len(),
                        |k: int| parameter_errors(suite_id@, check_id@, invocation.parameters@[k], declared),
                    ),
                    forall|x: Seq<char>| keys_of(placeholders@).contains(x) <==> declared.contains(x),
                    views(errors@) == flat(parts.take(k as int)),
                decreases invocation.parameters@.len() - k,
            {
                let name = invocation.parameters[k].0.as_str();
                push_id_errors(&mut errors, name);
                let mut m = concat2("suite ", suite_id);
                m.append(" check ");
                m.append(check_id);
                m.append(" provides unknown parameter ");
                m.append(name);
                push_when(&mut errors, !contains_key(&placeholders, name), m);
                let mut m = concat2("suite ", suite_id);
                m.append(" check ");
                m.append(check_id);
                m.append(" parameter ");
                m.append(name);
                m.append(" contains NUL");
                push_when(&mut errors, parameter_has_nul(&invocation.parameters[k].1), m);
                proof {
                    lemma_flat_take(parts, k as int);
                }
                k = k + 1;
            }
            assert(parts.take(parts.len() as int) =~= parts);
            let ghost base = views(errors@);
            let ghost dparts = Seq::new(
                invocation.depends_on@.len(),
                |k: int|
                    message_if(
                        !dependency_before(invocations@, invocation.depends_on@[k]@, j as int),
                        "suite "@ + suite_id@ + " does not include dependency "@ + invocation.depends_on@[k]@
                            + " before "@ + invocation.check_id@,
                    ),
            );
            let mut k: usize = 0;
            while k < invocation.depends_on.len()
                invariant
                    j < invocations@.len(),
                    *invocation == invocations@[j as int],
                    check_id@ == invocation.check_id@,
                    k <= invocation.depends_on@.len(),
                    dparts == Seq::new(
                        invocation.depends_on@.len(),
                        |k: int|
                            message_if(
                                !dependency_before(invocations@, invocation.depends_on@[k]@, j as int),
                                "suite "@ + suite_id@ + " does not include dependency "@ + invocation.depends_on@[k]@
                                    + " before "@ + invocation.check_id@,
                            ),
                    ),
                    views(errors@) == base + flat(dparts.take(k as int)),
                decreases invocation.depends_on@.len() - k,
            {
                let dependency = invocation.depends_on[k].as_str();
                let mut m = concat2("suite ", suite_id);
                m.append(" does not include dependency ");
                m.append(dependency);
                m.append(" before ");
                m.append(check_id);
                push_when(&mut errors, !dependency_before_at(invocations, dependency, j), m);
                proof {
                    lemma_flat_take(dparts, k as int);
                }
                k = k + 1;
            }
            assert(dparts.take(dparts.len() as int) =~= dparts);
            assert(views(errors@) =~= invocation_errors(suite_id@, invocations@, j as int, checks@));
            errors
        },
    }
}

fn suite_errors_of(suite: &SuiteConfig, checks: &Vec<CheckConfig>) -> (r: Vec<String>)
    requires
        unique_keys(checks@),
    ensures
        views(r@) == suite_errors(*suite, checks@),
{
    let id = suite.id.as_str();
    let mut errors: Vec<String> = Vec::new();
    push_id_errors(&mut errors, id);
    push_text_errors(&mut errors, "suite", id, suite.label.as_str(), suite.description.as_str());
    let mut m = concat2("suite ", id);
    m.append(" must contain at least one check");
    push_when(&mut errors, suite.checks.len() == 0, m);
    let ghost base = views(errors@);
    let ghost parts = Seq::new(
        suite.checks@.len(),
        |j: int|
            message_if(
                repeats_check(suite.checks@, j),
                "suite "@ + id@ + " repeats check "@ + suite.checks@[j].check_id@,
            ),
    );
    let mut j: usize = 0;
    while j < suite.checks.len()
        invariant
            j <= suite.checks@.len(),
            parts == Seq::new(
                suite.checks@.len(),
                |j: int|
                    message_if(
                        repeats_check(suite.checks@, j),
                        "suite "@ + id@ + " repeats check "@ + suite.checks@[j].check_id@,
                    ),
            ),
            views(errors@) == base + flat(parts.take(j as int)),
        decreases suite.checks@.len() - j,
    {
        let mut m = concat2("suite ", id);
        m.append(" repeats check ");
        m.append(suite.checks[j].check_id.as_str());
        push_when(&mut errors, repeats_check_at(&suite.checks, j), m);
        proof {
            lemma_flat_take(parts, j as int);
        }
        j = j + 1;
    }
    assert(parts.take(parts.len() as int) =~= parts);
    let ghost base = views(errors@);
    let ghost parts = Seq::new(suite.checks@.len(), |j: int| invocation_errors(id@, suite.checks@, j, checks@));
    let mut j: usize = 0;
    while j < suite.checks.len()
        invariant
            unique_keys(checks@),
            j <= suite.checks@.len(),
            parts == Seq::new(suite.checks@.len(), |j: int| invocation_errors(id@, suite.checks@, j, checks@)),
            views(errors@) == base + flat(parts.take(j as int)),
        decreases suite.checks@.len() - j,
    {
        let part = invocation_errors_of(id, &suite.checks, j, checks);
        extend_strings(&mut errors, &part);
        proof {
            lemma_flat_take(parts, j as int);
        }
        j = j + 1;
    }
    assert(parts.take(parts.len() as int) =~= parts);
    let ghost before = views(errors@);
    match &suite.working_directory {
        Some(directory) => match validate_relative_path(directory.as_str()) {
            Ok(()) => {
                assert(views(errors@) =~= before + directory_errors(*suite));
            },
            Err(error) => {
                let mut m = concat2("suite ", id);
                m.append(": ");
                m.append(error.as_str());
                errors.push(m);
                assert(views(errors@) =~= before + directory_errors(*suite));
            },
        },
        None => {
            assert(views(errors@) =~= before + directory_errors(*suite));
        },
    }
    assert(views(errors@) =~= suite_errors(*suite, checks@));
    errors
}

fn same_member_at(members: &Vec<GroupMemberRef>, i: usize, j: usize) -> (r: bool)
    requires
        i < members@.len(),
        j < members@.len(),
    ensures
        r == same_member(members@[i as int], members@[j as int]),
{
    let same_kind = match (&members[i], &members[j]) {
        (GroupMemberRef::Group { .. }, GroupMemberRef::Group { .. }) => true,
        (GroupMemberRef::Suite { .. }, GroupMemberRef::Suite { .. }) => true,
        _ => false,
    };
    same_kind && text_eq(members[i].id(), members[j].id())
}

fn member_errors_of(
    group_id: &str,
    members: &Vec<GroupMemberRef>,
    j: usize,
    groups: &Vec<GroupConfig>,
    suites: &Vec<SuiteConfig>,
) -> (r: Vec<String>)
    requires
        j < members@.len(),
    ensures
        views(r@) == member_errors(group_id@, members@, j as int, groups@, suites@),
{
    let mut repeated = false;
    let mut i: usize = 0;
    while i < j
        invariant
            j < members@.len(),
            i <= j,
            repeated <==> exists|k: int| 0 <= k < i && same_member(#[trigger] members@[k], members@[j as int]),
        decreases j - i,
    {
        if same_member_at(members, i, j) {
            repeated = true;
        }
        i = i + 1;
    }
    let member = &members[j];
    let kind = match member {
        GroupMemberRef::Group { .. } => "group",
        GroupMemberRef::Suite { .. } => "suite",
    };
    proof {
        reveal_strlit("group");
        reveal_strlit("suite");
    }
    assert(kind@ == kind_name(*member));
    let mut errors: Vec<String> = Vec::new();
    let mut m = concat2("group ", group_id);
    m.append(" repeats ");
    m.append(kind);
    m.append(" member ");
    m.append(member.id());
    push_when(&mut errors, repeated, m);
    match member {
        GroupMemberRef::Group { id } => {
            let mut m = concat2("group ", group_id);
            m.append(" references missing group ");
            m.append(id.as_str());
            push_when(&mut errors, !contains_key(groups, id.as_str()), m);
        },
        GroupMemberRef::Suite { id } => {
            let mut m = concat2("group ", group_id);
            m.append(" references missing suite ");
            m.append(id.as_str());
            push_when(&mut errors, !contains_key(suites, id.as_str()), m);
        },
    }
    assert(views(errors@) =~= member_errors(group_id@, members@, j as int, groups@, suites@));
    errors
}

fn group_errors_of(group: &GroupConfig, groups: &Vec<GroupConfig>, suites: &Vec<SuiteConfig>) -> (r: Vec<String>)
    ensures
        views(r@) == group_errors(*group, groups@, suites@),
{
    let id = group.id.as_str();
    let mut errors: Vec<String> = Vec::new();
    push_id_errors(&mut errors, id);
    push_text_errors(&mut errors, "group", id, group.label.as_str(), group.description.as_str());
    let mut m = concat2("group ", id);
    m.append(" must contain at least one member");
    push_when(&mut errors, group.members.len() == 0, m);
    let ghost base = views(errors@);
    let ghost parts = Seq::new(group.members@.len(), |j: int| member_errors(id@, group.members@, j, groups@, suites@));
    let mut j: usize = 0;
    while j < group.members.len()
        invariant
            j <= group.members@.len(),
            parts == Seq::new(group.members@.len(), |j: int| member_errors(id@, group.members@, j, groups@, suites@)),
            views(errors@) == base + flat(parts.take(j as int)),
        decreases group.members@.len() - j,
    {
        let part = member_errors_of(id, &group.members, j, groups, suites);
        extend_strings(&mut errors, &part);
        proof {
            lemma_flat_take(parts, j as int);
        }
        j = j + 1;
    }
    assert(parts.take(parts.len() as int) =~= parts);
    assert(views(errors@) =~= group_errors(*group, groups@, suites@));
    errors
}

// ---------------------------------------------------------------------------
// The whole document.
// ---------------------------------------------------------------------------

/// Deserialized document paired with its canonical source path.
#[derive(Clone, Debug)]
pub struct ParsedConfig {
    /// Raw versioned configuration before semantic validation.
    pub config: Config,
    /// Canonical configuration path used in diagnostics.
    pub path: String,
}

/// What the file system reported for the declared workspace root, resolved
/// against the directory of the configuration document.
#[derive(Clone, Debug)]
pub enum RootResolution {
    /// The configuration path has no parent directory.
    NoParent,
    /// Canonicalization failed with the given operating-system message.
    Unresolvable(String),
    /// The canonical root exists but is not a directory.
    NotDirectory,
    /// The canonical root directory.
    Directory(String),
}

/// The group identifiers that the members of a group reference, in order.
pub open spec fn member_groups(members: Seq<GroupMemberRef>) -> Seq<Seq<char>>
    decreases members.len(),
{
    if members.len() == 0 {
        Seq::empty()
    } else {
        member_groups(members.drop_last()) + match members.last() {
            GroupMemberRef::Group { id } => seq![id@],
            GroupMemberRef::Suite { .. } => Seq::empty(),
        }
    }
}

/// `ids` and `deps` describe the tool requirement graph of `tools`, which are in key order.
pub open spec fn tool_graph_of(ids: Seq<String>, deps: Seq<(String, Vec<String>)>, tools: Seq<ToolConfig>) -> bool {
    &&& views(ids) == keys_of(tools)
    &&& deps.len() == tools.len()
    &&& forall|k: int|
        0 <= k < deps.len() ==> (#[trigger] deps[k]).0@ == tools[k].id@ && views(deps[k].1@) == views(
            tools[k].requires_tools@,
        )
}

/// `ids` and `deps` describe the group nesting graph of `groups`, which are in key order.
pub open spec fn group_graph_of(ids: Seq<String>, deps: Seq<(String, Vec<String>)>, groups: Seq<GroupConfig>) -> bool {
    &&& views(ids) == keys_of(groups)
    &&& deps.len() == groups.len()
    &&& forall|k: int|
        0 <= k < deps.len() ==> (#[trigger] deps[k]).0@ == groups[k].id@ && views(deps[k].1@) == member_groups(
            groups[k].members@,
        )
}

/// What [`validate_graph`] states of its verdict `r` on a graph.
pub open spec fn graph_verdict(ids: Seq<String>, deps: Seq<(String, Vec<String>)>, label: Seq<char>, r: Result<(), String>) -> bool {
    &&& (r is Ok <==> references_present(ids, deps) && text_acyclic(deps))
    &&& (!references_present(ids, deps) ==> exists|i: int, j: int|
        first_missing(ids, deps, i, j) && (r matches Err(m) && m@ == missing_message(label, deps[i].0@, deps[i].1@[j]@)))
    &&& (references_present(ids, deps) && !text_acyclic(deps) ==> (r matches Err(m) && exists|c: Seq<Seq<char>>|
        text_cycle(deps, c) && m@ == cycle_message(label, c)))
    &&& (references_present(ids, deps) && !text_acyclic(deps) ==> (r matches Err(m) && exists|adj: Seq<Vec<usize>>|
        #[trigger] adjacency_of(ids, deps, adj) && (cycle_names(ids, adj) matches Some(names) && m@ == cycle_message(
            label,
            names,
        ))))
}

/// The diagnostic of a graph verdict.
pub open spec fn verdict_errors(r: Result<(), String>) -> Seq<Seq<char>> {
    match r {
        Ok(()) => Seq::empty(),
        Err(message) => seq![message@],
    }
}

/// Every semantic diagnostic of a document whose declarations have unique
/// identifiers, given its declarations in key order, graphs aside.
pub open spec fn semantic_errors(
    config: Config,
    tools: Seq<ToolConfig>,
    checks: Seq<CheckConfig>,
    suites: Seq<SuiteConfig>,
    groups: Seq<GroupConfig>,
) -> Seq<Seq<char>> {
    message_if(
        !(4096 <= config.output_limit_bytes <= 16777216),
        "outputLimitBytes must be between 4096 and 16777216"@,
    ) + message_if(
        !keys_of(config.groups@).contains(config.default_group@),
        "default group "@ + config.default_group@ + " does not exist"@,
    ) + flat(
        Seq::new(
            suites.len(),
            |k: int|
                message_if(
                    keys_of(config.groups@).contains(suites[k].id@),
                    "group and suite IDs collide at "@ + suites[k].id@,
                ),
        ),
    ) + flat(Seq::new(tools.len(), |k: int| tool_errors(tools[k]))) + flat(
        Seq::new(checks.len(), |k: int| check_errors(checks[k], config.tools@)),
    ) + repository_errors(config) + flat(Seq::new(suites.len(), |k: int| suite_errors(suites[k], config.checks@)))
        + flat(Seq::new(groups.len(), |k: int| group_errors(groups[k], config.groups@, config.suites@)))
}

/// `e` is the invalid-configuration error for `path` with diagnostic `detail`.
pub open spec fn is_invalid(e: ValidatorError, path: Seq<char>, detail: Seq<char>) -> bool {
    e matches ValidatorError::InvalidConfig { path: p, detail: d } && p@ == path && d@ == detail
}

/// Key names of the four declaration kinds, in the order they are indexed.
pub open spec fn first_duplicate<T: Keyed>(items: Seq<T>, j: int) -> bool {
    &&& duplicate_at(items, j)
    &&& forall|k: int| 0 <= k < j ==> !#[trigger] duplicate_at(items, k)
}

/// The diagnostic for the first repeated identifier of a kind.
pub open spec fn duplicate_message<T: Keyed>(kind: Seq<char>, items: Seq<T>, j: int) -> Seq<char> {
    "duplicate "@ + kind + " id "@ + items[j].key_view()
}

/// The parameter bindings of every invocation are strictly sorted by name,
/// as a map from names to values is.
pub open spec fn parameters_sorted(config: Config) -> bool {
    forall|s: int, j: int|
        #![trigger config.suites@[s].checks@[j]]
        0 <= s < config.suites@.len() && 0 <= j < config.suites@[s].checks@.len() ==> strictly_sorted(
            keys_of(config.suites@[s].checks@[j].parameters@),
        )
}

/// A document whose semantics have been validated, before its suite
/// directories are resolved on the file system.
#[derive(Clone, Debug)]
pub struct CheckedConfig {
    pub config: Config,
    pub path: String,
    pub workspace_root: String,
    pub tools: Vec<(String, usize)>,
    pub checks: Vec<(String, usize)>,
    pub suites: Vec<(String, usize)>,
    pub groups: Vec<(String, usize)>,
    pub tool_ids: Vec<String>,
    pub tool_graph: Vec<(String, Vec<String>)>,
    pub group_ids: Vec<String>,
    pub group_graph: Vec<(String, Vec<String>)>,
}

impl CheckedConfig {
    /// The indexes and graphs describe the document, and it has no diagnostic.
    pub open spec fn wf(&self) -> bool {
        &&& parameters_sorted(self.config)
        &&& unique_keys(self.config.tools@)
        &&& unique_keys(self.config.checks@)
        &&& unique_keys(self.config.suites@)
        &&& unique_keys(self.config.groups@)
        &&& sorted_index(self.tools@, self.config.tools@)
        &&& sorted_index(self.checks@, self.config.checks@)
        &&& sorted_index(self.suites@, self.config.suites@)
        &&& sorted_index(self.groups@, self.config.groups@)
        &&& tool_graph_of(self.tool_ids@, self.tool_graph@, in_key_order(self.tools@, self.config.tools@))
        &&& group_graph_of(self.group_ids@, self.group_graph@, in_key_order(self.groups@, self.config.groups@))
        &&& strictly_sorted(keys_of(self.tool_ids@))
        &&& strictly_sorted(keys_of(self.tool_graph@))
        &&& strictly_sorted(keys_of(self.group_ids@))
        &&& strictly_sorted(keys_of(self.group_graph@))
        &&& references_present(self.tool_ids@, self.tool_graph@)
        &&& text_acyclic(self.tool_graph@)
        &&& references_present(self.group_ids@, self.group_graph@)
        &&& text_acyclic(self.group_graph@)
        &&& semantic_errors(
            self.config,
            in_key_order(self.tools@, self.config.tools@),
            in_key_order(self.checks@, self.config.checks@),
            in_key_order(self.suites@, self.config.suites@),
            in_key_order(self.groups@, self.config.groups@),
        ).len() == 0
    }

    /// The suites whose working directories remain to be resolved, in key
    /// order, each with its declared directory (`.` when none is declared).
    pub fn directory_requests(&self) -> (r: Vec<(String, String)>)
        requires
            self.wf(),
        ensures
            r@.len() == self.suites@.len(),
            forall|k: int|
                0 <= k < r@.len() ==> (#[trigger] r@[k]).0@ == self.suites@[k].0@ && r@[k].1@ == declared_directory(
                    self.config.suites@[self.suites@[k].1 as int],
                ),
    {
        let mut r: Vec<(String, String)> = Vec::new();
        let mut k: usize = 0;
        while k < self.suites.len()
            invariant
                self.wf(),
                k <= self.suites@.len(),
                r@.len() == k,
                forall|m: int|
                    0 <= m < k ==> (#[trigger] r@[m]).0@ == self.suites@[m].0@ && r@[m].1@ == declared_directory(
                        self.config.suites@[self.suites@[m].1 as int],
                    ),
            decreases self.suites@.len() - k,
        {
            let suite = &self.config.suites[self.suites[k].1];
            let declared = match &suite.working_directory {
                Some(directory) => owned(directory.as_str()),
                None => owned("."),
            };
            proof {
                reveal_strlit(".");
            }
            r.push((owned(self.suites[k].0.as_str()), declared));
            k = k + 1;
        }
        r
    }
}

/// The directory a suite declares, `.` when it declares none.
pub open spec fn declared_directory(suite: SuiteConfig) -> Seq<char> {
    match suite.working_directory {
        Some(directory) => directory@,
        None => "."@,
    }
}

pub fn clone_strings(values: &Vec<String>) -> (r: Vec<String>)
    ensures
        views(r@) == views(values@),
{
    let mut r: Vec<String> = Vec::new();
    extend_strings(&mut r, values);
    assert(views(r@) =~= views(values@));
    r
}

fn group_children(members: &Vec<GroupMemberRef>) -> (r: Vec<String>)
    ensures
        views(r@) == member_groups(members@),
{
    let mut r: Vec<String> = Vec::new();
    let mut i: usize = 0;
    while i < members.len()
        invariant
            i <= members@.len(),
            views(r@) == member_groups(members@.take(i as int)),
        decreases members@.len() - i,
    {
        assert(members@.take(i + 1).drop_last() =~= members@.take(i as int));
        match &members[i] {
            GroupMemberRef::Group { id } => {
                r.push(owned(id.as_str()));
                assert(views(r@) =~= member_groups(members@.take(i + 1)));
            },
            GroupMemberRef::Suite { .. } => {
                assert(views(r@) =~= member_groups(members@.take(i + 1)));
            },
        }
        i = i + 1;
    }
    assert(members@.take(members@.len() as int) =~= members@);
    r
}

fn collision_errors_of(config: &Config, suites: &Vec<(String, usize)>) -> (r: Vec<String>)
    requires
        sorted_index(suites@, config.suites@),
    ensures
        views(r@) == flat(
            Seq::new(
                suites@.len(),
                |k: int|
                    message_if(
                        keys_of(config.groups@).contains(in_key_order(suites@, config.suites@)[k].id@),
                        "group and suite IDs collide at "@ + in_key_order(suites@, config.suites@)[k].id@,
                    ),
            ),
        ),
{
    let ghost ordered = in_key_order(suites@, config.suites@);
    let ghost parts = Seq::new(
        suites@.len(),
        |k: int|
            message_if(
                keys_of(config.groups@).contains(ordered[k].id@),
                "group and suite IDs collide at "@ + ordered[k].id@,
            ),
    );
    let mut errors: Vec<String> = Vec::new();
    let mut k: usize = 0;
    while k < suites.len()
        invariant
            sorted_index(suites@, config.suites@),
            ordered == in_key_order(suites@, config.suites@),
            parts == Seq::new(
                suites@.len(),
                |k: int|
                    message_if(
                        keys_of(config.groups@).contains(ordered[k].id@),
                        "group and suite IDs collide at "@ + ordered[k].id@,
                    ),
            ),
            k <= suites@.len(),
            views(errors@) == flat(parts.take(k as int)),
        decreases suites@.len() - k,
    {
        let suite = &config.suites[suites[k].1];
        let mut m = owned("group and suite IDs collide at ");
        m.append(suite.id.as_str());
        push_when(&mut errors, contains_key(&config.groups, suite.id.as_str()), m);
        proof {
            lemma_flat_take(parts, k as int);
        }
        k = k + 1;
    }
    assert(parts.take(parts.len() as int) =~= parts);
    errors
}

fn all_tool_errors(config: &Config, tools: &Vec<(String, usize)>) -> (r: Vec<String>)
    requires
        sorted_index(tools@, config.tools@),
    ensures
        views(r@) == flat(Seq::new(tools@.len(), |k: int| tool_errors(in_key_order(tools@, config.tools@)[k]))),
{
    let ghost parts = Seq::new(tools@.len(), |k: int| tool_errors(in_key_order(tools@, config.tools@)[k]));
    let mut errors: Vec<String> = Vec::new();
    let mut k: usize = 0;
    while k < tools.len()
        invariant
            sorted_index(tools@, config.tools@),
            parts == Seq::new(tools@.len(), |k: int| tool_errors(in_key_order(tools@, config.tools@)[k])),
            k <= tools@.len(),
            views(errors@) == flat(parts.take(k as int)),
        decreases tools@.len() - k,
    {
        let part = tool_errors_of(&config.tools[tools[k].1]);
        extend_strings(&mut errors, &part);
        proof {
            lemma_flat_take(parts, k as int);
        }
        k = k + 1;
    }
    assert(parts.take(parts.len() as int) =~= parts);
    errors
}

fn all_check_errors(config: &Config, checks: &Vec<(String, usize)>) -> (r: Vec<String>)
    requires
        sorted_index(checks@, config.checks@),
    ensures
        views(r@) == flat(
            Seq::new(checks@.len(), |k: int| check_errors(in_key_order(checks@, config.checks@)[k], config.tools@)),
        ),
{
    let ghost parts = Seq::new(
        checks@.len(),
        |k: int| check_errors(in_key_order(checks@, config.checks@)[k], config.tools@),
    );
    let mut errors: Vec<String> = Vec::new();
    let mut k: usize = 0;
    while k < checks.len()
        invariant
            sorted_index(checks@, config.checks@),
            parts == Seq::new(
                checks@.len(),
                |k: int| check_errors(in_key_order(checks@, config.checks@)[k], config.tools@),
            ),
            k <= checks@.len(),
            views(errors@) == flat(parts.take(k as int)),
        decreases checks@.len() - k,
    {
        let part = check_errors_of(&config.checks[checks[k].1], &config.tools);
        extend_strings(&mut errors, &part);
        proof {
            lemma_flat_take(parts, k as int);
        }
        k = k + 1;
    }
    assert(parts.take(parts.len() as int) =~= parts);
    errors
}

fn all_suite_errors(config: &Config, suites: &Vec<(String, usize)>) -> (r: Vec<String>)
    requires
        sorted_index(suites@, config.suites@),
        unique_keys(config.checks@),
    ensures
        views(r@) == flat(
            Seq::new(suites@.len(), |k: int| suite_errors(in_key_order(suites@, config.suites@)[k], config.checks@)),
        ),
{
    let ghost parts = Seq::new(
        suites@.len(),
        |k: int| suite_errors(in_key_order(suites@, config.suites@)[k], config.checks@),
    );
    let mut errors: Vec<String> = Vec::new();
    let mut k: usize = 0;
    while k < suites.len()
        invariant
            sorted_index(suites@, config.suites@),
            unique_keys(config.checks@),
            parts == Seq::new(
                suites@.len(),
                |k: int| suite_errors(in_key_order(suites@, config.suites@)[k], config.checks@),
            ),
            k <= suites@.len(),
            views(errors@) == flat(parts.take(k as int)),
        decreases suites@.len() - k,
    {
        let part = suite_errors_of(&config.suites[suites[k].1], &config.checks);
        extend_strings(&mut errors, &part);
        proof {
            lemma_flat_take(parts, k as int);
        }
        k = k + 1;
    }
    assert(parts.take(parts.len() as int) =~= parts);
    errors
}

fn all_group_errors(config: &Config, groups: &Vec<(String, usize)>) -> (r: Vec<String>)
    requires
        sorted_index(groups@, config.groups@),
    ensures
        views(r@) == flat(
            Seq::new(
                groups@.len(),
                |k: int| group_errors(in_key_order(groups@, config.groups@)[k], config.groups@, config.suites@),
            ),
        ),
{
    let ghost parts = Seq::new(
        groups@.len(),
        |k: int| group_errors(in_key_order(groups@, config.groups@)[k], config.groups@, config.suites@),
    );
    let mut errors: Vec<String> = Vec::new();
    let mut k: usize = 0;
    while k < groups.len()
        invariant
            sorted_index(groups@, config.groups@),
            parts == Seq::new(
                groups@.len(),
                |k: int| group_errors(in_key_order(groups@, config.groups@)[k], config.groups@, config.suites@),
            ),
            k <= groups@.len(),
            views(errors@) == flat(parts.take(k as int)),
        decreases groups@.len() - k,
    {
        let part = group_errors_of(&config.groups[groups[k].1], &config.groups, &config.suites);
        extend_strings(&mut errors, &part);
        proof {
            lemma_flat_take(parts, k as int);
        }
        k = k + 1;
    }
    assert(parts.take(parts.len() as int) =~= parts);
    errors
}

fn repository_errors_of(config: &Config) -> (r: Vec<String>)
    ensures
        views(r@) == repository_errors(*config),
{
    let mut errors: Vec<String> = Vec::new();
    match &config.repository {
        Some(repository) => {
            let mut m = owned("repository references missing tool ");
            m.append(repository.tool_id.as_str());
            push_when(&mut errors, !contains_key(&config.tools, repository.tool_id.as_str()), m);
        },
        None => {
            assert(views(errors@) =~= repository_errors(*config));
        },
    }
    errors
}

/// The identifiers of an index, in order.
fn index_keys(index: &Vec<(String, usize)>) -> (r: Vec<String>)
    ensures
        views(r@) == keys_of(index@),
{
    let mut r: Vec<String> = Vec::new();
    let mut k: usize = 0;
    while k < index.len()
        invariant
            k <= index@.len(),
            views(r@) == keys_of(index@).take(k as int),
        decreases index@.len() - k,
    {
        let ghost before = r@;
        let item = owned(index[k].0.as_str());
        r.push(item);
        assert(r@ == before.push(item));
        assert(views(r@) =~= views(before).push(item@));
        assert(keys_of(index@).take(k + 1) =~= keys_of(index@).take(k as int).push(index@[k as int].0@));
        assert(views(r@) =~= keys_of(index@).take(k + 1));
        k = k + 1;
    }
    assert(keys_of(index@).take(index@.len() as int) =~= keys_of(index@));
    r
}

fn tool_graph(config: &Config, tools: &Vec<(String, usize)>) -> (r: Vec<(String, Vec<String>)>)
    requires
        sorted_index(tools@, config.tools@),
    ensures
        keys_of(r@) == keys_of(tools@),
        r@.len() == tools@.len(),
        forall|k: int|
            0 <= k < r@.len() ==> (#[trigger] r@[k]).0@ == in_key_order(tools@, config.tools@)[k].id@ && views(
                r@[k].1@,
            ) == views(in_key_order(tools@, config.tools@)[k].requires_tools@),
{
    let mut r: Vec<(String, Vec<String>)> = Vec::new();
    let mut k: usize = 0;
    while k < tools.len()
        invariant
            sorted_index(tools@, config.tools@),
            k <= tools@.len(),
            r@.len() == k,
            forall|m: int|
                0 <= m < k ==> (#[trigger] r@[m]).0@ == tools@[m].0@ && views(r@[m].1@) == views(
                    in_key_order(tools@, config.tools@)[m].requires_tools@,
                ),
        decreases tools@.len() - k,
    {
        let tool = &config.tools[tools[k].1];
        r.push((owned(tools[k].0.as_str()), clone_strings(&tool.requires_tools)));
        k = k + 1;
    }
    assert(keys_of(r@) =~= keys_of(tools@));
    r
}

fn group_graph(config: &Config, groups: &Vec<(String, usize)>) -> (r: Vec<(String, Vec<String>)>)
    requires
        sorted_index(groups@, config.groups@),
    ensures
        keys_of(r@) == keys_of(groups@),
        r@.len() == groups@.len(),
        forall|k: int|
            0 <= k < r@.len() ==> (#[trigger] r@[k]).0@ == in_key_order(groups@, config.groups@)[k].id@ && views(
                r@[k].1@,
            ) == member_groups(in_key_order(groups@, config.groups@)[k].members@),
{
    let mut r: Vec<(String, Vec<String>)> = Vec::new();
    let mut k: usize = 0;
    while k < groups.len()
        invariant
            sorted_index(groups@, config.groups@),
            k <= groups@.len(),
            r@.len() == k,
            forall|m: int|
                0 <= m < k ==> (#[trigger] r@[m]).0@ == groups@[m].0@ && views(r@[m].1@) == member_groups(
                    in_key_order(groups@, config.groups@)[m].members@,
                ),
        decreases groups@.len() - k,
    {
        let group = &config.groups[groups[k].1];
        r.push((owned(groups[k].0.as_str()), group_children(&group.members)));
        k = k + 1;
    }
    assert(keys_of(r@) =~= keys_of(groups@));
    r
}

/// Indexes, graphs and graph verdicts of a document with unique identifiers
/// that yield the diagnostic `detail`.
pub open spec fn rejected_with(
    config: Config,
    tools: Seq<(String, usize)>,
    checks: Seq<(String, usize)>,
    suites: Seq<(String, usize)>,
    groups: Seq<(String, usize)>,
    tool_ids: Seq<String>,
    tool_deps: Seq<(String, Vec<String>)>,
    group_ids: Seq<String>,
    group_deps: Seq<(String, Vec<String>)>,
    tool_verdict: Result<(), String>,
    group_verdict: Result<(), String>,
    detail: Seq<char>,
) -> bool {
    let errors = semantic_errors(
        config,
        in_key_order(tools, config.tools@),
        in_key_order(checks, config.checks@),
        in_key_order(suites, config.suites@),
        in_key_order(groups, config.groups@),
    ) + verdict_errors(tool_verdict) + verdict_errors(group_verdict);
    &&& sorted_index(tools, config.tools@)
    &&& sorted_index(checks, config.checks@)
    &&& sorted_index(suites, config.suites@)
    &&& sorted_index(groups, config.groups@)
    &&& tool_graph_of(tool_ids, tool_deps, in_key_order(tools, config.tools@))
    &&& group_graph_of(group_ids, group_deps, in_key_order(groups, config.groups@))
    &&& graph_verdict(tool_ids, tool_deps, "tool"@, tool_verdict)
    &&& graph_verdict(group_ids, group_deps, "group"@, group_verdict)
    &&& errors.len() > 0
    &&& detail == join_texts(errors, "\n"@)
}

/// The first repeated identifier, in the order tools, checks, suites, groups,
/// is reported alone.
pub open spec fn duplicate_outcome(config: Config, path: Seq<char>, e: ValidatorError) -> bool {
    if !unique_keys(config.tools@) {
        exists|j: int| first_duplicate(config.tools@, j) && is_invalid(e, path, #[trigger] duplicate_message("tool"@, config.tools@, j))
    } else if !unique_keys(config.checks@) {
        exists|j: int| first_duplicate(config.checks@, j) && is_invalid(e, path, #[trigger] duplicate_message("check"@, config.checks@, j))
    } else if !unique_keys(config.suites@) {
        exists|j: int| first_duplicate(config.suites@, j) && is_invalid(e, path, #[trigger] duplicate_message("suite"@, config.suites@, j))
    } else {
        exists|j: int| first_duplicate(config.groups@, j) && is_invalid(e, path, #[trigger] duplicate_message("group"@, config.groups@, j))
    }
}

/// All identifiers of every kind are unique.
pub open spec fn all_unique(config: Config) -> bool {
    &&& unique_keys(config.tools@)
    &&& unique_keys(config.checks@)
    &&& unique_keys(config.suites@)
    &&& unique_keys(config.groups@)
}

/// A document with unique identifiers is accepted and indexed, or rejected
/// with all its semantic diagnostics.
pub open spec fn semantic_outcome(config: Config, path: Seq<char>, root: Seq<char>, r: Result<CheckedConfig, ValidatorError>) -> bool {
    match r {
        Ok(checked) => checked.wf() && checked.config == config && checked.path@ == path && checked.workspace_root@ == root,
        Err(e) => exists|
            tools: Seq<(String, usize)>,
            checks: Seq<(String, usize)>,
            suites: Seq<(String, usize)>,
            groups: Seq<(String, usize)>,
            tool_ids: Seq<String>,
            tool_deps: Seq<(String, Vec<String>)>,
            group_ids: Seq<String>,
            group_deps: Seq<(String, Vec<String>)>,
            tool_verdict: Result<(), String>,
            group_verdict: Result<(), String>,
            detail: Seq<char>,
        |
            #[trigger] rejected_with(
                config,
                tools,
                checks,
                suites,
                groups,
                tool_ids,
                tool_deps,
                group_ids,
                group_deps,
                tool_verdict,
                group_verdict,
                detail,
            ) && is_invalid(e, path, detail),
    }
}

/// What validation answers for a parsed document and its resolved root.
pub open spec fn validation_outcome(parsed: ParsedConfig, root: RootResolution, r: Result<CheckedConfig, ValidatorError>) -> bool {
    let config = parsed.config;
    let path = parsed.path@;
    if config.schema_version != 6 {
        r matches Err(e) && is_invalid(e, path, "unsupported schemaVersion "@ + decimal_text(config.schema_version as nat))
    } else {
        match root {
            RootResolution::NoParent => r matches Err(e) && is_invalid(e, path, "configuration has no parent"@),
            RootResolution::Unresolvable(error) => r matches Err(e) && is_invalid(
                e,
                path,
                "invalid workspaceRoot: "@ + error@,
            ),
            RootResolution::NotDirectory => r matches Err(e) && is_invalid(e, path, "workspaceRoot is not a directory"@),
            RootResolution::Directory(directory) => if !all_unique(config) {
                r matches Err(e) && duplicate_outcome(config, path, e)
            } else {
                semantic_outcome(config, path, directory@, r)
            },
        }
    }
}

fn duplicate_error<T: Keyed>(path: &str, kind: &str, items: &Vec<T>, j: usize) -> (r: ValidatorError)
    requires
        j < items@.len(),
    ensures
        is_invalid(r, path@, duplicate_message(kind@, items@, j as int)),
{
    let mut m = concat2("duplicate ", kind);
    m.append(" id ");
    m.append(items[j].key());
    ValidatorError::invalid(path, m.as_str())
}

/// Validates all semantic contracts of a parsed document and indexes it.
///
/// The schema version is checked first, then the resolved workspace root,
/// then the uniqueness of identifiers of each kind (tools, checks, suites,
/// groups, in that order). After that every remaining semantic problem is
/// collected, and the document is rejected with all of them at once.
#[verifier::spinoff_prover]
#[verifier::rlimit(60)]
pub fn validate(parsed: ParsedConfig, root: RootResolution) -> (r: Result<CheckedConfig, ValidatorError>)
    requires
        parameters_sorted(parsed.config),
    ensures
        validation_outcome(parsed, root, r),
{
    let ParsedConfig { config, path } = parsed;
    if config.schema_version != 6 {
        let mut m = owned("unsupported schemaVersion ");
        m.append(decimal(config.schema_version as u64).as_str());
        return Err(ValidatorError::invalid(path.as_str(), m.as_str()));
    }
    let workspace_root = match root {
        RootResolution::NoParent => {
            return Err(ValidatorError::invalid(path.as_str(), "configuration has no parent"));
        },
        RootResolution::Unresolvable(error) => {
            let m = concat2("invalid workspaceRoot: ", error.as_str());
            return Err(ValidatorError::invalid(path.as_str(), m.as_str()));
        },
        RootResolution::NotDirectory => {
            return Err(ValidatorError::invalid(path.as_str(), "workspaceRoot is not a directory"));
        },
        RootResolution::Directory(directory) => directory,
    };
    let tools = match index_by_key(&config.tools) {
        Ok(index) => index,
        Err(j) => {
            return Err(duplicate_error(path.as_str(), "tool", &config.tools, j));
        },
    };
    let checks = match index_by_key(&config.checks) {
        Ok(index) => index,
        Err(j) => {
            return Err(duplicate_error(path.as_str(), "check", &config.checks, j));
        },
    };
    let suites = match index_by_key(&config.suites) {
        Ok(index) => index,
        Err(j) => {
            return Err(duplicate_error(path.as_str(), "suite", &config.suites, j));
        },
    };
    let groups = match index_by_key(&config.groups) {
        Ok(index) => index,
        Err(j) => {
            return Err(duplicate_error(path.as_str(), "group", &config.groups, j));
        },
    };
    let mut errors: Vec<String> = Vec::new();
    push_when(
        &mut errors,
        !(4096 <= config.output_limit_bytes && config.output_limit_bytes <= 16777216),
        owned("outputLimitBytes must be between 4096 and 16777216"),
    );
    let mut m = concat2("default group ", config.default_group.as_str());
    m.append(" does not exist");
    push_when(&mut errors, !contains_key(&config.groups, config.default_group.as_str()), m);
    extend_strings(&mut errors, &collision_errors_of(&config, &suites));
    extend_strings(&mut errors, &all_tool_errors(&config, &tools));
    extend_strings(&mut errors, &all_check_errors(&config, &checks));
    extend_strings(&mut errors, &repository_errors_of(&config));
    extend_strings(&mut errors, &all_suite_errors(&config, &suites));
    extend_strings(&mut errors, &all_group_errors(&config, &groups));
    let ghost semantic = views(errors@);
    assert(semantic =~= semantic_errors(
        config,
        in_key_order(tools@, config.tools@),
        in_key_order(checks@, config.checks@),
        in_key_order(suites@, config.suites@),
        in_key_order(groups@, config.groups@),
    ));
    let tool_ids = index_keys(&tools);
    let tool_deps = tool_graph(&config, &tools);
    let group_ids = index_keys(&groups);
    let group_deps = group_graph(&config, &groups);
    proof {
        assert(keys_of(tool_ids@) =~= views(tool_ids@));
        assert(keys_of(group_ids@) =~= views(group_ids@));
        assert(views(tool_ids@) =~= keys_of(in_key_order(tools@, config.tools@)));
        assert(views(group_ids@) =~= keys_of(in_key_order(groups@, config.groups@)));
    }
    let tool_verdict = validate_graph(&tool_ids, &tool_deps, "tool");
    let group_verdict = validate_graph(&group_ids, &group_deps, "group");
    let ghost before_graphs = views(errors@);
    match &tool_verdict {
        Ok(()) => {},
        Err(message) => {
            errors.push(owned(message.as_str()));
        },
    }
    match &group_verdict {
        Ok(()) => {},
        Err(message) => {
            errors.push(owned(message.as_str()));
        },
    }
    assert(views(errors@) =~= semantic + verdict_errors(tool_verdict) + verdict_errors(group_verdict));
    if errors.len() > 0 {
        let detail = join_strings(&errors, "\n");
        let r = ValidatorError::invalid(path.as_str(), detail.as_str());
        proof {
            assert(rejected_with(
                config,
                tools@,
                checks@,
                suites@,
                groups@,
                tool_ids@,
                tool_deps@,
                group_ids@,
                group_deps@,
                tool_verdict,
                group_verdict,
                detail@,
            ));
        }
        return Err(r);
    }
    proof {
        assert(semantic.len() == 0);
    }
    Ok(CheckedConfig {
        config,
        path,
        workspace_root,
        tools,
        checks,
        suites,
        groups,
        tool_ids,
        tool_graph: tool_deps,
        group_ids,
        group_graph: group_deps,
    })
}

/// Fully validated configuration and indexes prepared for planning.
#[derive(Clone, Debug)]
pub struct ValidatedConfig {
    /// The semantically validated, indexed document.
    pub checked: CheckedConfig,
    /// The resolved working directory of each suite, in suite key order.
    pub suite_directories: Vec<ResolvedSuiteDirectory>,
}

/// The verdict on the probed directory of the suite at key position `k`.
pub open spec fn suite_directory_verdict(checked: CheckedConfig, probes: Seq<DirectoryProbe>, k: int) -> Result<
    (Seq<char>, Seq<char>),
    Seq<char>,
> {
    directory_verdict(
        checked.suites@[k].0@,
        declared_directory(checked.config.suites@[checked.suites@[k].1 as int]),
        checked.workspace_root@,
        probes[k],
    )
}

/// The diagnostics of all probed suite directories, in suite key order.
pub open spec fn directory_resolution_errors(checked: CheckedConfig, probes: Seq<DirectoryProbe>) -> Seq<Seq<char>> {
    flat(
        Seq::new(
            checked.suites@.len(),
            |k: int|
                match suite_directory_verdict(checked, probes, k) {
                    Ok(_) => Seq::empty(),
                    Err(message) => seq![message],
                },
        ),
    )
}

impl ValidatedConfig {
    /// The document is valid and every suite has its resolved directory.
    pub open spec fn wf(&self) -> bool {
        &&& self.checked.wf()
        &&& self.suite_directories@.len() == self.checked.suites@.len()
    }

    /// Returns the source configuration after complete semantic validation.
    pub fn configuration(&self) -> (r: &Config)
        ensures
            *r == self.checked.config,
    {
        &self.checked.config
    }

    /// Returns the canonical path of the loaded configuration document.
    pub fn configuration_path(&self) -> (r: &str)
        ensures
            r@ == self.checked.path@,
    {
        self.checked.path.as_str()
    }

    /// Returns the canonical workspace root used to resolve suite directories.
    pub fn workspace_root(&self) -> (r: &str)
        ensures
            r@ == self.checked.workspace_root@,
    {
        self.checked.workspace_root.as_str()
    }

    /// Returns the declared tools, whose identifiers are unique.
    pub fn tools(&self) -> (r: &[ToolConfig])
        ensures
            r@ == self.checked.config.tools@,
    {
        self.checked.config.tools.as_slice()
    }

    /// Returns the declared checks, whose identifiers are unique.
    pub fn checks(&self) -> (r: &[CheckConfig])
        ensures
            r@ == self.checked.config.checks@,
    {
        self.checked.config.checks.as_slice()
    }

    /// Returns the declared suites, whose identifiers are unique.
    pub fn suites(&self) -> (r: &[SuiteConfig])
        ensures
            r@ == self.checked.config.suites@,
    {
        self.checked.config.suites.as_slice()
    }

    /// Returns the declared groups, whose identifiers are unique.
    pub fn groups(&self) -> (r: &[GroupConfig])
        ensures
            r@ == self.checked.config.groups@,
    {
        self.checked.config.groups.as_slice()
    }
}

/// Resolves every suite directory from its file-system probe and aggregates
/// the path diagnostics.
///
/// `probes[k]` is what the file system reported for the `k`-th entry of
/// [`CheckedConfig::directory_requests`], resolved below the workspace root.
pub fn resolve_directories(checked: CheckedConfig, probes: &Vec<DirectoryProbe>) -> (r: Result<ValidatedConfig, ValidatorError>)
    requires
        checked.wf(),
        probes@.len() == checked.suites@.len(),
    ensures
        r is Ok <==> directory_resolution_errors(checked, probes@).len() == 0,
        match r {
            Ok(validated) => {
                &&& validated.wf()
                &&& validated.checked == checked
                &&& forall|k: int|
                    0 <= k < checked.suites@.len() ==> suite_directory_verdict(checked, probes@, k) == Ok::<
                        (Seq<char>, Seq<char>),
                        Seq<char>,
                    >((validated.suite_directories@[k].absolute@, validated.suite_directories@[k].relative@))
            },
            Err(e) => is_invalid(e, checked.path@, join_texts(directory_resolution_errors(checked, probes@), "\n"@)),
        },
{
    let ghost parts = Seq::new(
        checked.suites@.len(),
        |k: int|
            match suite_directory_verdict(checked, probes@, k) {
                Ok(_) => Seq::<Seq<char>>::empty(),
                Err(message) => seq![message],
            },
    );
    let mut resolved: Vec<ResolvedSuiteDirectory> = Vec::new();
    let mut errors: Vec<String> = Vec::new();
    let mut k: usize = 0;
    while k < checked.suites.len()
        invariant
            checked.wf(),
            probes@.len() == checked.suites@.len(),
            parts == Seq::new(
                checked.suites@.len(),
                |k: int|
                    match suite_directory_verdict(checked, probes@, k) {
                        Ok(_) => Seq::<Seq<char>>::empty(),
                        Err(message) => seq![message],
                    },
            ),
            k <= checked.suites@.len(),
            views(errors@) == flat(parts.take(k as int)),
            errors@.len() == 0 ==> resolved@.len() == k && forall|m: int|
                0 <= m < k ==> suite_directory_verdict(checked, probes@, m) == Ok::<(Seq<char>, Seq<char>), Seq<char>>(
                    (resolved@[m].absolute@, resolved@[m].relative@),
                ),
        decreases checked.suites@.len() - k,
    {
        let suite = &checked.config.suites[checked.suites[k].1];
        let declared = match &suite.working_directory {
            Some(directory) => directory.as_str(),
            None => ".",
        };
        proof {
            reveal_strlit(".");
        }
        assert(declared@ == declared_directory(*suite));
        let ghost before = views(errors@);
        match resolve_suite_directory(
            checked.suites[k].0.as_str(),
            declared,
            checked.workspace_root.as_str(),
            &probes[k],
        ) {
            Ok(directory) => {
                resolved.push(directory);
                assert(views(errors@) =~= before + parts[k as int]);
            },
            Err(message) => {
                errors.push(message);
                assert(views(errors@) =~= before + parts[k as int]);
            },
        }
        proof {
            lemma_flat_take(parts, k as int);
        }
        k = k + 1;
    }
    assert(parts.take(parts.len() as int) =~= parts);
    if errors.len() > 0 {
        let detail = join_strings(&errors, "\n");
        return Err(ValidatorError::invalid(checked.path.as_str(), detail.as_str()));
    }
    Ok(ValidatedConfig { checked, suite_directories: resolved })
}

// ---------------------------------------------------------------------------
// What a valid document guarantees.
// ---------------------------------------------------------------------------

/// The tool declared with identifier `id`.
pub open spec fn tool_named(config: Config, id: Seq<char>) -> ToolConfig {
    config.tools@[entry_of(config.tools@, id)]
}

/// The check declared with identifier `id`.
pub open spec fn check_named(config: Config, id: Seq<char>) -> CheckConfig {
    config.checks@[entry_of(config.checks@, id)]
}

/// The suite declared with identifier `id`.
pub open spec fn suite_named(config: Config, id: Seq<char>) -> SuiteConfig {
    config.suites@[entry_of(config.suites@, id)]
}

/// The group declared with identifier `id`.
pub open spec fn group_named(config: Config, id: Seq<char>) -> GroupConfig {
    config.groups@[entry_of(config.groups@, id)]
}

/// Every item of a sorted index appears in it.
pub proof fn lemma_indexed_position<T: Keyed>(index: Seq<(String, usize)>, items: Seq<T>, p: int) -> (k: int)
    requires
        sorted_index(index, items),
        unique_keys(items),
        0 <= p < items.len(),
    ensures
        0 <= k < index.len(),
        index[k].1 == p,
        in_key_order(index, items)[k] == items[p],
{
    let x = items[p].key_view();
    assert(keys_of(items)[p] == x);
    assert(keys_of(index).contains(x));
    let k = choose|k: int| 0 <= k < keys_of(index).len() && keys_of(index)[k] == x;
    assert(index[k].0@ == x);
    lemma_unique_position(items, index[k].1 as int, p);
    k
}

/// The key of an item of a collection with unique keys locates that item.
pub proof fn lemma_named<T: Keyed>(items: Seq<T>, p: int)
    requires
        unique_keys(items),
        0 <= p < items.len(),
    ensures
        entry_of(items, items[p].key_view()) == p,
{
    let x = items[p].key_view();
    let e = entry_of(items, x);
    assert(items[p].key_view() == x);
    lemma_unique_position(items, e, p);
}

proof fn lemma_semantic_parts(
    config: Config,
    tools: Seq<ToolConfig>,
    checks: Seq<CheckConfig>,
    suites: Seq<SuiteConfig>,
    groups: Seq<GroupConfig>,
)
    requires
        semantic_errors(config, tools, checks, suites, groups).len() == 0,
    ensures
        flat(Seq::new(tools.len(), |k: int| tool_errors(tools[k]))).len() == 0,
        flat(Seq::new(checks.len(), |k: int| check_errors(checks[k], config.tools@))).len() == 0,
        flat(Seq::new(suites.len(), |k: int| suite_errors(suites[k], config.checks@))).len() == 0,
        flat(Seq::new(groups.len(), |k: int| group_errors(groups[k], config.groups@, config.suites@))).len() == 0,
        repository_errors(config).len() == 0,
        keys_of(config.groups@).contains(config.default_group@),
        4096 <= config.output_limit_bytes <= 16777216,
{
}

/// Every member of a group of a valid document names a declared node.
pub proof fn lemma_member_declared(c: CheckedConfig, p: int, j: int)
    requires
        c.wf(),
        0 <= p < c.config.groups@.len(),
        0 <= j < c.config.groups@[p].members@.len(),
    ensures
        match c.config.groups@[p].members@[j] {
            GroupMemberRef::Group { id } => keys_of(c.config.groups@).contains(id@),
            GroupMemberRef::Suite { id } => keys_of(c.config.suites@).contains(id@),
        },
{
    let groups = in_key_order(c.groups@, c.config.groups@);
    lemma_semantic_parts(
        c.config,
        in_key_order(c.tools@, c.config.tools@),
        in_key_order(c.checks@, c.config.checks@),
        in_key_order(c.suites@, c.config.suites@),
        groups,
    );
    let k = lemma_indexed_position(c.groups@, c.config.groups@, p);
    let parts = Seq::new(groups.len(), |k: int| group_errors(groups[k], c.config.groups@, c.config.suites@));
    lemma_flat_empty(parts, k);
    let g = c.config.groups@[p];
    let mparts = Seq::new(g.members@.len(), |j: int| member_errors(g.id@, g.members@, j, c.config.groups@, c.config.suites@));
    assert(parts[k] == group_errors(g, c.config.groups@, c.config.suites@));
    lemma_flat_empty(mparts, j);
}

/// Every invocation of a suite of a valid document names a declared check.
pub proof fn lemma_invocation_declared(c: CheckedConfig, p: int, j: int)
    requires
        c.wf(),
        0 <= p < c.config.suites@.len(),
        0 <= j < c.config.suites@[p].checks@.len(),
    ensures
        keys_of(c.config.checks@).contains(c.config.suites@[p].checks@[j].check_id@),
        strictly_sorted(keys_of(c.config.suites@[p].checks@[j].parameters@)),
{
    let suites = in_key_order(c.suites@, c.config.suites@);
    lemma_semantic_parts(
        c.config,
        in_key_order(c.tools@, c.config.tools@),
        in_key_order(c.checks@, c.config.checks@),
        suites,
        in_key_order(c.groups@, c.config.groups@),
    );
    let k = lemma_indexed_position(c.suites@, c.config.suites@, p);
    let parts = Seq::new(suites.len(), |k: int| suite_errors(suites[k], c.config.checks@));
    lemma_flat_empty(parts, k);
    let s = c.config.suites@[p];
    let iparts = Seq::new(s.checks@.len(), |j: int| invocation_errors(s.id@, s.checks@, j, c.config.checks@));
    assert(parts[k] == suite_errors(s, c.config.checks@));
    lemma_flat_empty(iparts, j);
    assert(c.config.suites@[p].checks@[j] == s.checks@[j]);
}

/// Every tool that a declared tool of a valid document requires is declared too.
#[verifier::rlimit(40)]
pub proof fn lemma_tool_requirements_declared(c: CheckedConfig, p: int)
    requires
        c.wf(),
        0 <= p < c.config.tools@.len(),
    ensures
        forall|j: int|
            0 <= j < c.config.tools@[p].requires_tools@.len() ==> keys_of(c.config.tools@).contains(
                #[trigger] c.config.tools@[p].requires_tools@[j]@,
            ),
{
    let tools = in_key_order(c.tools@, c.config.tools@);
    let k = lemma_indexed_position(c.tools@, c.config.tools@, p);
    let deps = c.tool_graph@;
    assert(deps[k].0@ == tools[k].id@);
    let required = c.config.tools@[p].requires_tools@;
    assert(tools[k] == c.config.tools@[p]);
    assert(views(deps[k].1@) == views(required));
    assert(deps[k].1@.len() == views(deps[k].1@).len());
    assert forall|j: int| 0 <= j < required.len() implies keys_of(c.config.tools@).contains(#[trigger] required[j]@) by {
        assert(views(deps[k].1@)[j] == views(required)[j]);
        let x = deps[k].1@[j]@;
        assert(x == required[j]@);
        assert(keys_of(c.tool_ids@).contains(x));
        let i = choose|i: int| 0 <= i < keys_of(c.tool_ids@).len() && keys_of(c.tool_ids@)[i] == x;
        assert(views(c.tool_ids@).len() == keys_of(tools).len());
        assert(0 <= i < c.tools@.len());
        assert(views(c.tool_ids@)[i] == keys_of(tools)[i]);
        let entry = c.tools@[i];
        assert(entry.1 < c.config.tools@.len());
        assert(keys_of(tools)[i] == c.config.tools@[c.tools@[i].1 as int].key_view());
        assert(keys_of(c.config.tools@)[c.tools@[i].1 as int] == x);
    }
}

/// Tool `a` requires tool `b`.
pub open spec fn tool_edge(tools: Seq<ToolConfig>, a: Seq<char>, b: Seq<char>) -> bool {
    exists|i: int, j: int|
        0 <= i < tools.len() && 0 <= j < tools[i].requires_tools@.len() && tools[i].id@ == a
            && #[trigger] tools[i].requires_tools@[j]@ == b
}

/// `p` is a closed walk of at least one tool requirement.
pub open spec fn tool_cycle(tools: Seq<ToolConfig>, p: Seq<Seq<char>>) -> bool {
    &&& p.len() >= 2
    &&& p[0] == p[p.len() - 1]
    &&& forall|k: int, l: int| 0 <= k && l == k + 1 && l < p.len() ==> #[trigger] tool_edge(tools, p[k], p[l])
}

#[verifier::rlimit(40)]
proof fn lemma_tool_edge_in_graph(c: CheckedConfig, a: Seq<char>, b: Seq<char>)
    requires
        c.wf(),
        tool_edge(c.config.tools@, a, b),
    ensures
        text_edge(c.tool_graph@, a, b),
{
    let tools = in_key_order(c.tools@, c.config.tools@);
    let (i, j) = choose|i: int, j: int|
        0 <= i < c.config.tools@.len() && 0 <= j < c.config.tools@[i].requires_tools@.len()
            && c.config.tools@[i].id@ == a && #[trigger] c.config.tools@[i].requires_tools@[j]@ == b;
    let k = lemma_indexed_position(c.tools@, c.config.tools@, i);
    let deps = c.tool_graph@;
    let required = c.config.tools@[i].requires_tools@;
    assert(tools[k] == c.config.tools@[i]);
    assert(deps[k].0@ == a);
    assert(views(deps[k].1@) == views(required));
    assert(deps[k].1@.len() == views(deps[k].1@).len());
    assert(views(deps[k].1@)[j] == views(required)[j]);
    assert(deps[k].1@[j]@ == b);
    assert(0 <= k < deps.len() && 0 <= j < deps[k].1@.len());
}

/// The version requirement of a tool of a valid document parses.
pub proof fn lemma_tool_requirement_parses(c: CheckedConfig, p: int)
    requires
        c.wf(),
        0 <= p < c.config.tools@.len(),
    ensures
        c.config.tools@[p].version_requirement matches Some(requirement) ==> semver_requirement(requirement@) is Ok,
{
    let tools = in_key_order(c.tools@, c.config.tools@);
    lemma_semantic_parts(
        c.config,
        tools,
        in_key_order(c.checks@, c.config.checks@),
        in_key_order(c.suites@, c.config.suites@),
        in_key_order(c.groups@, c.config.groups@),
    );
    let k = lemma_indexed_position(c.tools@, c.config.tools@, p);
    let parts = Seq::new(tools.len(), |k: int| tool_errors(tools[k]));
    lemma_flat_empty(parts, k);
    assert(parts[k] == tool_errors(c.config.tools@[p]));
}

/// The repository provider of a valid document names a declared tool.
pub proof fn lemma_repository_tool_declared(c: CheckedConfig)
    requires
        c.wf(),
    ensures
        c.config.repository matches Some(repository) ==> keys_of(c.config.tools@).contains(repository.tool_id@),
{
    lemma_semantic_parts(
        c.config,
        in_key_order(c.tools@, c.config.tools@),
        in_key_order(c.checks@, c.config.checks@),
        in_key_order(c.suites@, c.config.suites@),
        in_key_order(c.groups@, c.config.groups@),
    );
}

/// Every tool that the requirement graph of a valid document leads to is declared.
#[verifier::rlimit(40)]
pub proof fn lemma_graph_target_declared(c: CheckedConfig, a: Seq<char>, x: Seq<char>)
    requires
        c.wf(),
        text_edge(c.tool_graph@, a, x),
    ensures
        keys_of(c.config.tools@).contains(x),
{
    let tools = in_key_order(c.tools@, c.config.tools@);
    let (k, j) = choose|k: int, j: int|
        0 <= k < c.tool_graph@.len() && 0 <= j < c.tool_graph@[k].1@.len() && c.tool_graph@[k].0@ == a
            && #[trigger] c.tool_graph@[k].1@[j]@ == x;
    assert(keys_of(c.tool_ids@).contains(c.tool_graph@[k].1@[j]@));
    let i = choose|i: int| 0 <= i < keys_of(c.tool_ids@).len() && keys_of(c.tool_ids@)[i] == x;
    assert(views(c.tool_ids@).len() == keys_of(tools).len());
    assert(0 <= i < c.tools@.len());
    assert(views(c.tool_ids@)[i] == keys_of(tools)[i]);
    let entry = c.tools@[i];
    assert(entry.1 < c.config.tools@.len());
    assert(keys_of(tools)[i] == c.config.tools@[c.tools@[i].1 as int].key_view());
    assert(keys_of(c.config.tools@)[c.tools@[i].1 as int] == x);
}

/// The tools of a validated configuration: identifiers are unique, every
/// tool that a tool requires is declared, requirements form no cycle,
/// every check names a declared tool and requires only declared tools, and
/// the repository provider's tool is declared.
pub proof fn lemma_validated_tools(v: ValidatedConfig)
    requires
        v.wf(),
    ensures
        unique_keys(v.checked.config.tools@),
        forall|p: int, j: int|
            0 <= p < v.checked.config.tools@.len() && 0 <= j < v.checked.config.tools@[p].requires_tools@.len()
                ==> keys_of(v.checked.config.tools@).contains(#[trigger] v.checked.config.tools@[p].requires_tools@[j]@),
        forall|p: Seq<Seq<char>>| !#[trigger] tool_cycle(v.checked.config.tools@, p),
        forall|p: int|
            0 <= p < v.checked.config.checks@.len() ==> keys_of(v.checked.config.tools@).contains(
                #[trigger] v.checked.config.checks@[p].tool_id@,
            ),
        forall|p: int, j: int|
            0 <= p < v.checked.config.checks@.len() && 0 <= j < v.checked.config.checks@[p].requires_tools@.len()
                ==> keys_of(v.checked.config.tools@).contains(#[trigger] v.checked.config.checks@[p].requires_tools@[j]@),
        v.checked.config.repository matches Some(repository) ==> keys_of(v.checked.config.tools@).contains(
            repository.tool_id@,
        ),
{
    let c = v.checked;
    lemma_repository_tool_declared(c);
    let tools = c.config.tools@;
    assert forall|p: int, j: int| 0 <= p < tools.len() && 0 <= j < tools[p].requires_tools@.len() implies keys_of(
        tools,
    ).contains(#[trigger] tools[p].requires_tools@[j]@) by {
        lemma_tool_requirements_declared(c, p);
    }
    assert forall|p: Seq<Seq<char>>| !#[trigger] tool_cycle(tools, p) by {
        if tool_cycle(tools, p) {
            assert forall|k: int, l: int| 0 <= k && l == k + 1 && l < p.len() implies #[trigger] text_edge(
                c.tool_graph@,
                p[k],
                p[l],
            ) by {
                assert(tool_edge(tools, p[k], p[l]));
                lemma_tool_edge_in_graph(c, p[k], p[l]);
            }
            assert(text_cycle(c.tool_graph@, p));
        }
    }
    assert forall|p: int| 0 <= p < c.config.checks@.len() implies keys_of(tools).contains(
        #[trigger] c.config.checks@[p].tool_id@,
    ) by {
        lemma_check_tools_declared(c, p);
    }
    assert forall|p: int, j: int|
        0 <= p < c.config.checks@.len() && 0 <= j < c.config.checks@[p].requires_tools@.len() implies keys_of(
        tools,
    ).contains(#[trigger] c.config.checks@[p].requires_tools@[j]@) by {
        lemma_check_tools_declared(c, p);
    }
}

/// The tool of a check of a valid document, and the tools it requires, are declared.
pub proof fn lemma_check_tools_declared(c: CheckedConfig, p: int)
    requires
        c.wf(),
        0 <= p < c.config.checks@.len(),
    ensures
        keys_of(c.config.tools@).contains(c.config.checks@[p].tool_id@),
        forall|j: int|
            0 <= j < c.config.checks@[p].requires_tools@.len() ==> keys_of(c.config.tools@).contains(
                #[trigger] c.config.checks@[p].requires_tools@[j]@,
            ),
{
    let checks = in_key_order(c.checks@, c.config.checks@);
    lemma_semantic_parts(
        c.config,
        in_key_order(c.tools@, c.config.tools@),
        checks,
        in_key_order(c.suites@, c.config.suites@),
        in_key_order(c.groups@, c.config.groups@),
    );
    let k = lemma_indexed_position(c.checks@, c.config.checks@, p);
    let parts = Seq::new(checks.len(), |k: int| check_errors(checks[k], c.config.tools@));
    lemma_flat_empty(parts, k);
    let check = c.config.checks@[p];
    assert(parts[k] == check_errors(check, c.config.tools@));
    let tparts = Seq::new(
        check.requires_tools@.len(),
        |k: int|
            message_if(
                !keys_of(c.config.tools@).contains(check.requires_tools@[k]@),
                "check "@ + check.id@ + " references missing tool "@ + check.requires_tools@[k]@,
            ),
    );
    assert forall|j: int| 0 <= j < check.requires_tools@.len() implies keys_of(c.config.tools@).contains(
        #[trigger] check.requires_tools@[j]@,
    ) by {
        lemma_flat_empty(tparts, j);
    }
}

/// Locates the item keyed `key` through a sorted index.
pub fn locate<T: Keyed>(index: &Vec<(String, usize)>, items: &Vec<T>, key: &str) -> (r: Option<usize>)
    requires
        sorted_index(index@, items@),
        unique_keys(items@),
    ensures
        match r {
            Some(p) => p < items@.len() && items@[p as int].key_view() == key@ && entry_of(items@, key@) == p,
            None => !keys_of(items@).contains(key@),
        },
{
    match find_key(index, key) {
        Some(k) => {
            let p = index[k].1;
            proof {
                lemma_named(items@, p as int);
            }
            Some(p)
        },
        None => None,
    }
}

impl CheckedConfig {
    /// The position of the group declared with identifier `id`.
    pub fn group_position(&self, id: &str) -> (r: Option<usize>)
        requires
            self.wf(),
        ensures
            match r {
                Some(p) => p < self.config.groups@.len() && self.config.groups@[p as int].id@ == id@ && entry_of(
                    self.config.groups@,
                    id@,
                ) == p,
                None => !keys_of(self.config.groups@).contains(id@),
            },
    {
        locate(&self.groups, &self.config.groups, id)
    }

    /// The position of the suite declared with identifier `id`.
    pub fn suite_position(&self, id: &str) -> (r: Option<usize>)
        requires
            self.wf(),
        ensures
            match r {
                Some(p) => p < self.config.suites@.len() && self.config.suites@[p as int].id@ == id@ && entry_of(
                    self.config.suites@,
                    id@,
                ) == p,
                None => !keys_of(self.config.suites@).contains(id@),
            },
    {
        locate(&self.suites, &self.config.suites, id)
    }

    /// The position of the check declared with identifier `id`.
    pub fn check_position(&self, id: &str) -> (r: Option<usize>)
        requires
            self.wf(),
        ensures
            match r {
                Some(p) => p < self.config.checks@.len() && self.config.checks@[p as int].id@ == id@ && entry_of(
                    self.config.checks@,
                    id@,
                ) == p,
                None => !keys_of(self.config.checks@).contains(id@),
            },
    {
        locate(&self.checks, &self.config.checks, id)
    }

    /// The position of the tool declared with identifier `id`.
    pub fn tool_position(&self, id: &str) -> (r: Option<usize>)
        requires
            self.wf(),
        ensures
            match r {
                Some(p) => p < self.config.tools@.len() && self.config.tools@[p as int].id@ == id@ && entry_of(
                    self.config.tools@,
                    id@,
                ) == p,
                None => !keys_of(self.config.tools@).contains(id@),
            },
    {
        locate(&self.tools, &self.config.tools, id)
    }
}

/// `x` is the identifier of a group member of `members`.
pub proof fn lemma_member_groups(members: Seq<GroupMemberRef>, x: Seq<char>)
    ensures
        member_groups(members).contains(x) <==> exists|j: int|
            0 <= j < members.len() && (#[trigger] members[j] matches GroupMemberRef::Group { id } && id@ == x),
    decreases members.len(),
{
    if members.len() > 0 {
        let rest = members.drop_last();
        lemma_member_groups(rest, x);
        let tail: Seq<Seq<char>> = match members.last() {
            GroupMemberRef::Group { id } => seq![id@],
            GroupMemberRef::Suite { .. } => Seq::empty(),
        };
        assert(member_groups(members) == member_groups(rest) + tail);
        if member_groups(members).contains(x) {
            let w = choose|w: int| 0 <= w < member_groups(members).len() && member_groups(members)[w] == x;
            if w < member_groups(rest).len() {
                assert(member_groups(rest)[w] == x);
                let j = choose|j: int| 0 <= j < rest.len() && (#[trigger] rest[j] matches GroupMemberRef::Group { id } && id@ == x);
                assert(members[j] == rest[j]);
            } else {
                assert(members[members.len() - 1] matches GroupMemberRef::Group { id } && id@ == x);
            }
        }
        if exists|j: int| 0 <= j < members.len() && (#[trigger] members[j] matches GroupMemberRef::Group { id } && id@ == x) {
            let j = choose|j: int| 0 <= j < members.len() && (#[trigger] members[j] matches GroupMemberRef::Group { id } && id@ == x);
            if j < members.len() - 1 {
                assert(rest[j] == members[j]);
                let w = choose|w: int| 0 <= w < member_groups(rest).len() && member_groups(rest)[w] == x;
                assert(member_groups(members)[w] == x);
            } else {
                assert(member_groups(members)[member_groups(rest).len() as int] == x);
            }
        }
    }
}

/// The nesting graph of a valid document lists the group members of each group.
pub proof fn lemma_group_children(c: CheckedConfig, p: int)
    requires
        c.wf(),
        0 <= p < c.config.groups@.len(),
    ensures
        crate::dag::children_of(c.group_graph@, c.config.groups@[p].id@) == member_groups(c.config.groups@[p].members@),
{
    let k = lemma_indexed_position(c.groups@, c.config.groups@, p);
    let x = c.config.groups@[p].id@;
    assert(c.group_graph@[k].0@ == x);
    assert(keys_of(c.group_graph@)[k] == x);
    let e = entry_of(c.group_graph@, x);
    if e != k {
        lemma_sorted_distinct(keys_of(c.group_graph@), e, k);
    }
}

} // verus!
