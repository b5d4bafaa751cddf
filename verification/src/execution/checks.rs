//! Classification of one concrete check invocation.
//!
//! Before a check command starts, its suite-local dependencies, its tools and
//! cancellation decide whether it runs at all; after it ran, its process
//! facts decide its status.

use vstd::prelude::*;
use crate::contracts::config::CheckConfig;
use crate::contracts::report::{CheckContext, CheckExecutionResult, Status};
use crate::execution::ProcessOutput;
use crate::text::{concat2, owned, views};

verus! {

/// The status recorded first for `id` in an association list.
pub open spec fn status_of(statuses: Seq<(String, Status)>, id: Seq<char>) -> Option<Status>
    decreases statuses.len(),
{
    if statuses.len() == 0 {
        None
    } else if statuses[0].0@ == id {
        Some(statuses[0].1)
    } else {
        status_of(statuses.drop_first(), id)
    }
}

/// Looks up the status recorded for `id`.
pub fn lookup_status(statuses: &Vec<(String, Status)>, id: &str) -> (r: Option<Status>)
    ensures
        r == status_of(statuses@, id@),
{
    let mut i: usize = 0;
    assert(statuses@.skip(0) =~= statuses@);
    while i < statuses.len()
        invariant
            i <= statuses@.len(),
            status_of(statuses@, id@) == status_of(statuses@.skip(i as int), id@),
        decreases statuses@.len() - i,
    {
        assert(statuses@.skip(i as int).drop_first() =~= statuses@.skip(i + 1));
        assert(statuses@.skip(i as int)[0] == statuses@[i as int]);
        if crate::text::text_eq(statuses[i].0.as_str(), id) {
            return Some(statuses[i].1);
        }
        i = i + 1;
    }
    assert(statuses@.skip(i as int).len() == 0);
    None
}

/// Records `status` for `id`, replacing an earlier record.
pub fn set_status(statuses: &mut Vec<(String, Status)>, id: &str, status: Status)
    ensures
        status_of(final(statuses)@, id@) == Some(status),
        forall|other: Seq<char>| other != id@ ==> status_of(final(statuses)@, other) == status_of(old(statuses)@, other),
{
    let ghost start = statuses@;
    let mut i: usize = 0;
    while i < statuses.len()
        invariant
            statuses@ == start,
            start == old(statuses)@,
            i <= statuses@.len(),
            forall|k: int| 0 <= k < i ==> statuses@[k].0@ != id@,
        decreases statuses@.len() - i,
    {
        if crate::text::text_eq(statuses[i].0.as_str(), id) {
            let ghost before = statuses@;
            let name = owned(id);
            let ghost e = name;
            statuses.set(i, (name, status));
            proof {
                assert(statuses@ == before.update(i as int, (e, status)));
                assert(e@ == id@);
                lemma_status_update(before, i as int, e, status);
            }
            return;
        }
        i = i + 1;
    }
    let ghost before = statuses@;
    let entry = (owned(id), status);
    statuses.push(entry);
    proof {
        lemma_status_append(before, entry.0, status);
    }
}

proof fn lemma_status_update(s: Seq<(String, Status)>, i: int, e: String, status: Status)
    requires
        0 <= i < s.len(),
        s[i].0@ == e@,
        forall|k: int| 0 <= k < i ==> s[k].0@ != e@,
    ensures
        status_of(s.update(i, (e, status)), e@) == Some(status),
        forall|other: Seq<char>| other != e@ ==> status_of(s.update(i, (e, status)), other) == status_of(s, other),
    decreases i,
{
    let t = s.update(i, (e, status));
    assert(t[0] == if i == 0 { (e, status) } else { s[0] });
    if i > 0 {
        let rest = s.drop_first().update(i - 1, (e, status));
        assert(t.drop_first() =~= rest);
        lemma_status_update(s.drop_first(), i - 1, e, status);
        assert(status_of(t, e@) == status_of(rest, e@));
        assert forall|other: Seq<char>| other != e@ implies status_of(t, other) == status_of(s, other) by {
            if s[0].0@ != other {
                assert(status_of(t, other) == status_of(rest, other));
                assert(status_of(s, other) == status_of(s.drop_first(), other));
                assert(status_of(rest, other) == status_of(s.drop_first(), other));
            }
        }
    } else {
        assert(t.drop_first() =~= s.drop_first());
        assert forall|other: Seq<char>| other != e@ implies status_of(t, other) == status_of(s, other) by {
            assert(status_of(t, other) == status_of(t.drop_first(), other));
            assert(status_of(s, other) == status_of(s.drop_first(), other));
        }
    }
}

proof fn lemma_status_append(s: Seq<(String, Status)>, e: String, status: Status)
    requires
        forall|k: int| 0 <= k < s.len() ==> s[k].0@ != e@,
    ensures
        status_of(s.push((e, status)), e@) == Some(status),
        forall|other: Seq<char>| other != e@ ==> status_of(s.push((e, status)), other) == status_of(s, other),
    decreases s.len(),
{
    let t = s.push((e, status));
    if s.len() > 0 {
        let rest = s.drop_first().push((e, status));
        assert(t.drop_first() =~= rest);
        assert forall|k: int| 0 <= k < s.drop_first().len() implies s.drop_first()[k].0@ != e@ by {
            assert(s.drop_first()[k] == s[k + 1]);
        }
        lemma_status_append(s.drop_first(), e, status);
        assert(t[0] == s[0]);
        assert(status_of(t, e@) == status_of(rest, e@));
        assert forall|other: Seq<char>| other != e@ implies status_of(t, other) == status_of(s, other) by {
            if s[0].0@ != other {
                assert(status_of(t, other) == status_of(rest, other));
                assert(status_of(s, other) == status_of(s.drop_first(), other));
            }
        }
    } else {
        assert(t.drop_first().len() == 0);
        assert(status_of(t.drop_first(), e@) is None);
        assert forall|other: Seq<char>| other != e@ implies status_of(t, other) == status_of(s, other) by {
            assert(t[0].0@ == e@);
            assert(status_of(t, other) == status_of(t.drop_first(), other));
            assert(status_of(t.drop_first(), other) is None);
        }
    }
}

/// `ids[i]` is the first identifier whose status is not a pass.
pub open spec fn first_unmet(ids: Seq<Seq<char>>, statuses: Seq<(String, Status)>, i: int) -> bool {
    &&& 0 <= i < ids.len()
    &&& status_of(statuses, ids[i]) != Some(Status::Pass)
    &&& forall|k: int| 0 <= k < i ==> status_of(statuses, #[trigger] ids[k]) == Some(Status::Pass)
}

/// Some identifier of `ids` has no passing status.
pub open spec fn any_unmet(ids: Seq<Seq<char>>, statuses: Seq<(String, Status)>) -> bool {
    exists|i: int| 0 <= i < ids.len() && status_of(statuses, #[trigger] ids[i]) != Some(Status::Pass)
}

fn find_unmet(ids: &Vec<String>, statuses: &Vec<(String, Status)>) -> (r: Option<usize>)
    ensures
        match r {
            Some(i) => first_unmet(views(ids@), statuses@, i as int),
            None => !any_unmet(views(ids@), statuses@),
        },
{
    let mut i: usize = 0;
    while i < ids.len()
        invariant
            i <= ids@.len(),
            forall|k: int| 0 <= k < i ==> status_of(statuses@, #[trigger] views(ids@)[k]) == Some(Status::Pass),
        decreases ids@.len() - i,
    {
        let status = lookup_status(statuses, ids[i].as_str());
        assert(views(ids@)[i as int] == ids@[i as int]@);
        match status {
            Some(Status::Pass) => {},
            _ => {
                return Some(i);
            },
        }
        i = i + 1;
    }
    None
}

/// Finds the first identifier without a passing status.
pub fn find_unmet_pub(ids: &Vec<String>, statuses: &Vec<(String, Status)>) -> (r: Option<usize>)
    ensures
        match r {
            Some(i) => first_unmet(views(ids@), statuses@, i as int),
            None => !any_unmet(views(ids@), statuses@),
        },
{
    find_unmet(ids, statuses)
}

/// The tools a check needs: its own tool, then the tools it requires.
pub open spec fn needed_tools(check: CheckConfig) -> Seq<Seq<char>> {
    seq![check.tool_id@] + views(check.requires_tools@)
}

/// What stops a check from running, if anything: a dependency that did not
/// pass skips it, a tool that is unavailable blocks it, cancellation skips it.
pub open spec fn gate_verdict(
    check: CheckConfig,
    depends_on: Seq<Seq<char>>,
    local: Seq<(String, Status)>,
    tools: Seq<(String, Status)>,
    cancelled: bool,
    r: Option<(Status, Seq<char>)>,
) -> bool {
    if any_unmet(depends_on, local) {
        exists|i: int|
            first_unmet(depends_on, local, i) && r == Some(
                (Status::Skipped, "dependency "@ + #[trigger] depends_on[i] + " did not pass"@),
            )
    } else if any_unmet(needed_tools(check), tools) {
        exists|i: int|
            first_unmet(needed_tools(check), tools, i) && r == Some(
                (Status::Blocked, "required tool "@ + #[trigger] needed_tools(check)[i] + " is unavailable"@),
            )
    } else if cancelled {
        r == Some((Status::Skipped, "execution interrupted"@))
    } else {
        r is None
    }
}

/// What stops a check from running, if anything (see [`gate_verdict`]).
pub open spec fn gate_of(
    check: CheckConfig,
    depends_on: Seq<Seq<char>>,
    local: Seq<(String, Status)>,
    tools: Seq<(String, Status)>,
    cancelled: bool,
) -> Option<(Status, Seq<char>)> {
    choose|r: Option<(Status, Seq<char>)>| gate_verdict(check, depends_on, local, tools, cancelled, r)
}

/// A gate verdict by the text of its reason.
pub open spec fn verdict_view(gate: Option<(Status, String)>) -> Option<(Status, Seq<char>)> {
    match gate {
        Some((status, reason)) => Some((status, reason@)),
        None => None,
    }
}

/// Only the first unmet identifier is first.
pub proof fn lemma_first_unmet_unique(ids: Seq<Seq<char>>, statuses: Seq<(String, Status)>, i: int, j: int)
    requires
        first_unmet(ids, statuses, i),
        first_unmet(ids, statuses, j),
    ensures
        i == j,
{
    if i < j {
        assert(status_of(statuses, ids[i]) == Some(Status::Pass));
    } else if j < i {
        assert(status_of(statuses, ids[j]) == Some(Status::Pass));
    }
}

/// The inputs of a gate determine what it decides.
pub proof fn lemma_gate_unique(
    check: CheckConfig,
    depends_on: Seq<Seq<char>>,
    local: Seq<(String, Status)>,
    tools: Seq<(String, Status)>,
    cancelled: bool,
    r: Option<(Status, Seq<char>)>,
)
    requires
        gate_verdict(check, depends_on, local, tools, cancelled, r),
    ensures
        gate_of(check, depends_on, local, tools, cancelled) == r,
{
    let g = gate_of(check, depends_on, local, tools, cancelled);
    assert(gate_verdict(check, depends_on, local, tools, cancelled, g));
    if any_unmet(depends_on, local) {
        let i = choose|i: int|
            first_unmet(depends_on, local, i) && r == Some(
                (Status::Skipped, "dependency "@ + #[trigger] depends_on[i] + " did not pass"@),
            );
        let j = choose|j: int|
            first_unmet(depends_on, local, j) && g == Some(
                (Status::Skipped, "dependency "@ + #[trigger] depends_on[j] + " did not pass"@),
            );
        lemma_first_unmet_unique(depends_on, local, i, j);
    } else if any_unmet(needed_tools(check), tools) {
        let i = choose|i: int|
            first_unmet(needed_tools(check), tools, i) && r == Some(
                (Status::Blocked, "required tool "@ + #[trigger] needed_tools(check)[i] + " is unavailable"@),
            );
        let j = choose|j: int|
            first_unmet(needed_tools(check), tools, j) && g == Some(
                (Status::Blocked, "required tool "@ + #[trigger] needed_tools(check)[j] + " is unavailable"@),
            );
        lemma_first_unmet_unique(needed_tools(check), tools, i, j);
    }
}

/// Decides whether a check is prevented from running, and why.
pub fn check_gate(
    check: &CheckConfig,
    depends_on: &Vec<String>,
    local: &Vec<(String, Status)>,
    tools: &Vec<(String, Status)>,
    cancelled: bool,
) -> (r: Option<(Status, String)>)
    ensures
        gate_verdict(
            *check,
            views(depends_on@),
            local@,
            tools@,
            cancelled,
            match r {
                Some((status, reason)) => Some((status, reason@)),
                None => None,
            },
        ),
{
    match find_unmet(depends_on, local) {
        Some(i) => {
            let mut reason = concat2("dependency ", depends_on[i].as_str());
            reason.append(" did not pass");
            assert(views(depends_on@)[i as int] == depends_on@[i as int]@);
            return Some((Status::Skipped, reason));
        },
        None => {},
    }
    let mut needed: Vec<String> = Vec::new();
    needed.push(owned(check.tool_id.as_str()));
    crate::text::extend_strings(&mut needed, &check.requires_tools);
    assert(views(needed@) =~= needed_tools(*check));
    match find_unmet(&needed, tools) {
        Some(i) => {
            let mut reason = concat2("required tool ", needed[i].as_str());
            reason.append(" is unavailable");
            assert(views(needed@)[i as int] == needed@[i as int]@);
            return Some((Status::Blocked, reason));
        },
        None => {},
    }
    if cancelled {
        return Some((Status::Skipped, owned("execution interrupted")));
    }
    None
}

/// The reason a finished process did not plainly succeed, if any.
pub open spec fn process_reason(output: ProcessOutput) -> Option<Seq<char>> {
    match output.start_error {
        Some(error) => Some(error@),
        None => if output.timed_out {
            Some("check timed out"@)
        } else if output.interrupted {
            Some("check interrupted"@)
        } else {
            None
        },
    }
}

/// `result` reports check `check` in `context` with command line `argv`.
pub open spec fn reports_check(result: CheckExecutionResult, check: CheckConfig, context: CheckContext, argv: Seq<Seq<char>>) -> bool {
    &&& result.check_id@ == check.id@
    &&& result.context == context
    &&& result.label@ == check.label@
    &&& result.description@ == check.description@
    &&& views(result.argv@) == argv
    &&& result.timeout_seconds == check.timeout_seconds
}

/// The suite a result belongs to, or `None` for a direct check.
pub open spec fn context_suite(context: CheckContext) -> Option<Seq<char>> {
    match context {
        CheckContext::Suite { suite_id } => Some(suite_id@),
        CheckContext::Direct => None,
    }
}

/// `r` reports `check`, prevented from running in the suite `suite` (or
/// directly) with command line `argv`, with the given status and reason.
pub open spec fn nonexecuted_result(
    r: CheckExecutionResult,
    check: CheckConfig,
    suite: Option<Seq<char>>,
    argv: Seq<Seq<char>>,
    status: Status,
    reason: Seq<char>,
) -> bool {
    &&& r.check_id@ == check.id@
    &&& context_suite(r.context) == suite
    &&& r.label@ == check.label@
    &&& r.description@ == check.description@
    &&& views(r.argv@) == argv
    &&& r.timeout_seconds == check.timeout_seconds
    &&& r.status == status
    &&& r.exit_code is None
    &&& r.duration_ms == 0
    &&& !r.timed_out && !r.stdout_truncated && !r.stderr_truncated
    &&& r.stdout@.len() == 0 && r.stderr@.len() == 0
    &&& r.reason matches Some(text) && text@ == reason
}

/// `r` reports `check`, run in the suite `suite` (or directly) with command
/// line `argv`, whose process ended as `output` tells.
pub open spec fn executed_result(
    r: CheckExecutionResult,
    check: CheckConfig,
    suite: Option<Seq<char>>,
    argv: Seq<Seq<char>>,
    output: ProcessOutput,
) -> bool {
    &&& r.check_id@ == check.id@
    &&& context_suite(r.context) == suite
    &&& r.label@ == check.label@
    &&& r.description@ == check.description@
    &&& views(r.argv@) == argv
    &&& r.timeout_seconds == check.timeout_seconds
    &&& r.status == (if output.exit_code == Some(0i32) && process_reason(output) is None {
        Status::Pass
    } else {
        Status::Fail
    })
    &&& r.exit_code == output.exit_code
    &&& r.duration_ms == output.duration_ms
    &&& r.timed_out == output.timed_out
    &&& r.stdout_truncated == output.stdout_truncated
    &&& r.stderr_truncated == output.stderr_truncated
    &&& r.stdout@ == output.stdout@
    &&& r.stderr@ == output.stderr@
    &&& match r.reason {
        Some(text) => process_reason(output) == Some(text@),
        None => process_reason(output) is None,
    }
}

/// Two results agree in every field.
pub open spec fn same_result(a: CheckExecutionResult, b: CheckExecutionResult) -> bool {
    &&& a.check_id@ == b.check_id@
    &&& context_suite(a.context) == context_suite(b.context)
    &&& a.label@ == b.label@
    &&& a.description@ == b.description@
    &&& views(a.argv@) == views(b.argv@)
    &&& a.status == b.status
    &&& a.exit_code == b.exit_code
    &&& a.duration_ms == b.duration_ms
    &&& a.timeout_seconds == b.timeout_seconds
    &&& a.timed_out == b.timed_out
    &&& a.stdout_truncated == b.stdout_truncated
    &&& a.stderr_truncated == b.stderr_truncated
    &&& a.stdout@ == b.stdout@
    &&& a.stderr@ == b.stderr@
    &&& match (a.reason, b.reason) {
        (Some(x), Some(y)) => x@ == y@,
        (None, None) => true,
        _ => false,
    }
}

/// Builds the result of a check that did not run.
pub fn nonexecuted(
    check: &CheckConfig,
    context: CheckContext,
    argv: Vec<String>,
    status: Status,
    reason: String,
) -> (r: CheckExecutionResult)
    ensures
        reports_check(r, *check, context, views(argv@)),
        r.status == status,
        r.exit_code is None,
        r.duration_ms == 0,
        !r.timed_out && !r.stdout_truncated && !r.stderr_truncated,
        r.stdout@.len() == 0 && r.stderr@.len() == 0,
        r.reason matches Some(text) && text@ == reason@,
{
    CheckExecutionResult {
        check_id: owned(check.id.as_str()),
        context,
        label: owned(check.label.as_str()),
        description: owned(check.description.as_str()),
        argv,
        status,
        exit_code: None,
        duration_ms: 0,
        timeout_seconds: check.timeout_seconds,
        timed_out: false,
        stdout_truncated: false,
        stderr_truncated: false,
        stdout: String::new(),
        stderr: String::new(),
        reason: Some(reason),
    }
}

/// Builds the result of a check whose command ran: it passes exactly when the
/// command exited with code zero and nothing else went wrong.
pub fn executed(check: &CheckConfig, context: CheckContext, argv: Vec<String>, output: ProcessOutput) -> (r: CheckExecutionResult)
    ensures
        reports_check(r, *check, context, views(argv@)),
        r.status == (if output.exit_code == Some(0i32) && process_reason(output) is None {
            Status::Pass
        } else {
            Status::Fail
        }),
        r.exit_code == output.exit_code,
        r.duration_ms == output.duration_ms,
        r.timed_out == output.timed_out,
        r.stdout_truncated == output.stdout_truncated,
        r.stderr_truncated == output.stderr_truncated,
        r.stdout@ == output.stdout@,
        r.stderr@ == output.stderr@,
        match r.reason {
            Some(text) => process_reason(output) == Some(text@),
            None => process_reason(output) is None,
        },
{
    let reason = match &output.start_error {
        Some(error) => Some(owned(error.as_str())),
        None => if output.timed_out {
            Some(owned("check timed out"))
        } else if output.interrupted {
            Some(owned("check interrupted"))
        } else {
            None
        },
    };
    let passed = match output.exit_code {
        Some(code) => code == 0 && reason.is_none(),
        None => false,
    };
    CheckExecutionResult {
        check_id: owned(check.id.as_str()),
        context,
        label: owned(check.label.as_str()),
        description: owned(check.description.as_str()),
        argv,
        status: if passed {
            Status::Pass
        } else {
            Status::Fail
        },
        exit_code: output.exit_code,
        duration_ms: output.duration_ms,
        timeout_seconds: check.timeout_seconds,
        timed_out: output.timed_out,
        stdout_truncated: output.stdout_truncated,
        stderr_truncated: output.stderr_truncated,
        stdout: output.stdout,
        stderr: output.stderr,
        reason,
    }
}

} // verus!
