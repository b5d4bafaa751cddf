//! Human rendering of immutable completed validation reports.
//!
//! The rendering is a list of lines, each a list of segments: plain text,
//! text painted in a semantic role, or a duration to be written in the
//! duration role. Whoever prints the lines paints each role with the
//! theme's style and writes durations.

use vstd::prelude::*;
use crate::contracts::report::{
    CheckContext, CheckExecutionResult, GroupResult, OverallResult, RepositoryReport, Status, SuiteResult, Summary,
    ToolResult, ValidationReport, ValidationSelection,
};
use crate::contracts::config::GroupMemberRef;
use crate::reporting::format::{format_selection, format_summary, selection_text, status_label, status_text, summary_text};
use crate::reporting::theme::{fill_len, metrics_spec, rule_fill, PresentationProfile, Role, Theme};
use crate::reporting::tree::{ancestor_columns, continuation, continuation_text, prefix, prefix_text};
use crate::text::{char_vec, concat2, decimal, decimal_text, owned, split_fields, split_on, text_of, views};

verus! {

/// One piece of a rendered line.
#[derive(Clone, Debug)]
pub enum Segment {
    /// Text written as is.
    Text(String),
    /// Text painted in a role.
    Painted(Role, String),
    /// A duration in milliseconds, written in the duration role.
    Duration(u64),
}

/// The meaning of a segment.
pub ghost enum Piece {
    /// Text written as is.
    Text(Seq<char>),
    /// Text painted in a role.
    Painted(Role, Seq<char>),
    /// A duration in milliseconds.
    Duration(u64),
}

/// The meaning of a segment.
pub open spec fn piece_of(segment: Segment) -> Piece {
    match segment {
        Segment::Text(text) => Piece::Text(text@),
        Segment::Painted(role, text) => Piece::Painted(role, text@),
        Segment::Duration(ms) => Piece::Duration(ms),
    }
}

/// The meaning of a line.
pub open spec fn line_view(line: Vec<Segment>) -> Seq<Piece> {
    Seq::new(line@.len(), |i: int| piece_of(line@[i]))
}

/// The meaning of a list of lines.
pub open spec fn lines_view(lines: Seq<Vec<Segment>>) -> Seq<Seq<Piece>> {
    Seq::new(lines.len(), |i: int| line_view(lines[i]))
}

/// The vertical frame border.
pub open spec fn bar() -> Piece {
    Piece::Painted(Role::Border, "│"@)
}

/// `n` lines holding the frame border alone.
pub open spec fn guide_lines(n: nat) -> Seq<Seq<Piece>> {
    Seq::new(n, |i: int| seq![bar()])
}

/// Items one after another, `gap` guide lines between neighbours.
pub open spec fn spaced(items: Seq<Seq<Seq<Piece>>>, gap: nat) -> Seq<Seq<Piece>>
    decreases items.len(),
{
    if items.len() == 0 {
        Seq::empty()
    } else if items.len() == 1 {
        items[0]
    } else {
        spaced(items.drop_last(), gap) + guide_lines(gap) + items.last()
    }
}

/// A framed rule: the edge, the label in its role, and the fill.
pub open spec fn frame_row(edge: Seq<char>, label: Seq<char>, role: Role) -> Seq<Piece> {
    seq![
        Piece::Painted(Role::Border, edge + "─ "@),
        Piece::Painted(role, label),
        Piece::Painted(Role::Border, " "@ + rule_fill(fill_len(label.len()))),
    ]
}

/// The role a status is painted in.
pub open spec fn status_role(status: Status) -> Role {
    match status {
        Status::Pass => Role::Success,
        Status::Fail => Role::Failure,
        Status::Blocked => Role::Blocked,
        Status::Skipped => Role::Skipped,
    }
}

/// A status label painted in its role.
pub open spec fn status_piece(status: Status) -> Piece {
    Piece::Painted(status_role(status), status_text(status))
}

/// The status shown for an aggregate: failing over blocked over passing.
pub open spec fn summary_status_of(summary: Summary) -> Status {
    if summary.fail > 0 {
        Status::Fail
    } else if summary.blocked > 0 || summary.skipped > 0 {
        Status::Blocked
    } else {
        Status::Pass
    }
}

proof fn lemma_count_positive(statuses: Seq<Status>, status: Status)
    ensures
        (crate::contracts::report::status_count(statuses, status) > 0) <==> statuses.contains(status),
    decreases statuses.len(),
{
    if statuses.len() > 0 {
        let head = statuses.drop_last();
        lemma_count_positive(head, status);
        if head.contains(status) {
            let i = choose|i: int| 0 <= i < head.len() && head[i] == status;
            assert(statuses[i] == status);
        }
        if statuses.contains(status) {
            let i = choose|i: int| 0 <= i < statuses.len() && statuses[i] == status;
            if i < head.len() {
                assert(head[i] == status);
            }
        }
        if statuses.last() == status {
            assert(statuses[statuses.len() - 1] == status);
        }
    }
}

/// The status shown for an aggregate: PASS exactly when every counted
/// result passed, FAIL exactly when one failed, and BLOCKED when none
/// failed and one was blocked or skipped.
pub proof fn lemma_aggregate_status(summary: Summary, statuses: Seq<Status>)
    requires
        crate::contracts::report::summarizes(summary, statuses),
    ensures
        (summary_status_of(summary) == Status::Pass) <==> (summary.fail == 0 && summary.blocked == 0 && summary.skipped == 0),
        (summary_status_of(summary) == Status::Pass) <==> (forall|i: int| 0 <= i < statuses.len() ==> statuses[i] == Status::Pass),
        (summary_status_of(summary) == Status::Fail) <==> statuses.contains(Status::Fail),
        (summary_status_of(summary) == Status::Blocked) <==> (!statuses.contains(Status::Fail) && (statuses.contains(
            Status::Blocked,
        ) || statuses.contains(Status::Skipped))),
        summary_status_of(summary) != Status::Skipped,
{
    lemma_count_positive(statuses, Status::Fail);
    lemma_count_positive(statuses, Status::Blocked);
    lemma_count_positive(statuses, Status::Skipped);
    if forall|i: int| 0 <= i < statuses.len() ==> statuses[i] == Status::Pass {
        assert(!statuses.contains(Status::Fail));
        assert(!statuses.contains(Status::Blocked));
        assert(!statuses.contains(Status::Skipped));
    }
    if !statuses.contains(Status::Fail) && !statuses.contains(Status::Blocked) && !statuses.contains(Status::Skipped) {
        assert forall|i: int| 0 <= i < statuses.len() implies statuses[i] == Status::Pass by {
            assert(statuses.contains(statuses[i]));
        }
    }
}

/// The marker of a node shown again after its first appearance.
pub open spec fn shared_mark(reused: bool) -> Seq<Piece> {
    if reused {
        seq![Piece::Text("  "@), Piece::Painted(Role::Shared, "(shared)"@)]
    } else {
        Seq::empty()
    }
}

/// The tree row of a check.
pub open spec fn check_row(check: CheckExecutionResult, branches: Seq<bool>) -> Seq<Piece> {
    seq![
        Piece::Painted(Role::Border, prefix_text(branches)),
        Piece::Painted(Role::Check, "CHECK"@),
        Piece::Text(" "@),
        status_piece(check.status),
        Piece::Text("  "@ + check.check_id@ + "  "@),
        Piece::Duration(check.duration_ms),
    ]
}

/// The tree row of a suite.
pub open spec fn suite_row(suite: SuiteResult, branches: Seq<bool>, reused: bool) -> Seq<Piece> {
    seq![
        Piece::Painted(Role::Border, prefix_text(branches)),
        Piece::Painted(Role::Suite, "SUITE"@),
        Piece::Text(" "@),
        status_piece(summary_status_of(suite.summary)),
        Piece::Text("  "@ + suite.id@ + "  "@),
        Piece::Duration(suite.check_duration_ms),
        Piece::Text("  ["@),
        Piece::Painted(Role::Path, suite.working_directory@),
        Piece::Text("]"@),
    ] + shared_mark(reused)
}

/// The tree row of a group.
pub open spec fn group_row(group: GroupResult, branches: Seq<bool>, reused: bool) -> Seq<Piece> {
    seq![
        Piece::Painted(Role::Border, prefix_text(branches)),
        Piece::Painted(Role::Group, "GROUP"@),
        Piece::Text(" "@),
        status_piece(summary_status_of(group.summary)),
        Piece::Text("  "@ + group.id@ + "  "@),
        Piece::Duration(group.check_duration_ms),
    ] + shared_mark(reused)
}

/// `s` without trailing carriage returns and line feeds.
pub open spec fn trim_line_ends(s: Seq<char>) -> Seq<char>
    decreases s.len(),
{
    if s.len() > 0 && (s.last() == '\r' || s.last() == '\n') {
        trim_line_ends(s.drop_last())
    } else {
        s
    }
}

/// `s` without one trailing carriage return.
pub open spec fn strip_cr(s: Seq<char>) -> Seq<char> {
    if s.len() > 0 && s.last() == '\r' {
        s.drop_last()
    } else {
        s
    }
}

/// The rows of a diagnostic text: its lines once trailing line breaks are
/// dropped, each without a carriage return at its end.
pub open spec fn diagnostic_rows(content: Seq<char>) -> Seq<Seq<char>> {
    let fields = split_fields(trim_line_ends(content), '\n');
    Seq::new(fields.len(), |i: int| strip_cr(fields[i]))
}

/// One row of a multi-line diagnostic, behind a nested guide.
pub open spec fn diagnostic_row(row: Seq<char>) -> Seq<Piece> {
    if row.len() == 0 {
        seq![bar(), Piece::Text("       "@), bar()]
    } else {
        seq![bar(), Piece::Text("       "@), bar(), Piece::Text(" "@), Piece::Painted(Role::DiagnosticContent, row)]
    }
}

/// A labelled diagnostic: beside its label when it is one line, else below
/// it behind a nested guide.
pub open spec fn diagnostic_lines(label: Seq<char>, content: Seq<char>) -> Seq<Seq<Piece>> {
    let rows = diagnostic_rows(content);
    if rows.len() == 1 {
        seq![
            seq![
                bar(),
                Piece::Text("       "@),
                Piece::Painted(Role::DiagnosticLabel, label),
                Piece::Text(" "@),
                Piece::Painted(Role::DiagnosticContent, rows[0]),
            ],
        ]
    } else {
        seq![seq![bar(), Piece::Text("       "@), Piece::Painted(Role::DiagnosticLabel, label)]] + Seq::new(
            rows.len(),
            |i: int| diagnostic_row(rows[i]),
        )
    }
}

/// The diagnostic of a reason, when there is one.
pub open spec fn reason_diagnostic(reason: Option<String>) -> Seq<Seq<Piece>> {
    match reason {
        Some(r) => diagnostic_lines("Reason:"@, r@),
        None => Seq::empty(),
    }
}

/// The diagnostics shown under a check that did not pass.
pub open spec fn failure_lines(check: CheckExecutionResult) -> Seq<Seq<Piece>> {
    if check.status == Status::Pass {
        Seq::empty()
    } else {
        reason_diagnostic(check.reason) + (if check.stderr@.len() > 0 {
            diagnostic_lines(
                if check.stderr_truncated {
                    "stderr (tail, truncated):"@
                } else {
                    "stderr:"@
                },
                check.stderr@,
            )
        } else {
            Seq::empty()
        }) + (if check.stdout@.len() > 0 {
            diagnostic_lines(
                if check.stdout_truncated {
                    "stdout (tail, truncated):"@
                } else {
                    "stdout:"@
                },
                check.stdout@,
            )
        } else {
            Seq::empty()
        })
    }
}

proof fn lemma_lines_push(prev: Seq<Vec<Segment>>, line: Vec<Segment>)
    ensures
        lines_view(prev.push(line)) == lines_view(prev).push(line_view(line)),
{
    assert(lines_view(prev.push(line)) =~= lines_view(prev).push(line_view(line)));
}

fn push_line(out: &mut Vec<Vec<Segment>>, line: Vec<Segment>)
    ensures
        lines_view(final(out)@) == lines_view(old(out)@).push(line_view(line)),
{
    let ghost prev = out@;
    let ghost lv = line_view(line);
    out.push(line);
    proof {
        lemma_lines_push(prev, line);
    }
}

fn status_segment(status: Status) -> (r: Segment)
    ensures
        piece_of(r) == status_piece(status),
{
    let role = match status {
        Status::Pass => Role::Success,
        Status::Fail => Role::Failure,
        Status::Blocked => Role::Blocked,
        Status::Skipped => Role::Skipped,
    };
    Segment::Painted(role, owned(status_label(status)))
}

/// The status shown for an aggregate: failing over blocked over passing.
pub fn status_from_summary(summary: &Summary) -> (r: Status)
    ensures
        r == summary_status_of(*summary),
{
    if summary.fail > 0 {
        Status::Fail
    } else if summary.blocked > 0 || summary.skipped > 0 {
        Status::Blocked
    } else {
        Status::Pass
    }
}

fn push_shared_mark(line: &mut Vec<Segment>, reused: bool)
    ensures
        line_view(*final(line)) == line_view(*old(line)) + shared_mark(reused),
{
    let ghost start = line_view(*line);
    if reused {
        line.push(Segment::Text(owned("  ")));
        line.push(Segment::Painted(Role::Shared, owned("(shared)")));
    }
    assert(line_view(*line) =~= start + shared_mark(reused));
}

fn check_row_line(check: &CheckExecutionResult, branches: &Vec<bool>) -> (r: Vec<Segment>)
    ensures
        line_view(r) == check_row(*check, branches@),
{
    let mut label = concat2("  ", check.check_id.as_str());
    label.append("  ");
    let r = vec![
        Segment::Painted(Role::Border, prefix(branches.as_slice())),
        Segment::Painted(Role::Check, owned("CHECK")),
        Segment::Text(owned(" ")),
        status_segment(check.status),
        Segment::Text(label),
        Segment::Duration(check.duration_ms),
    ];
    assert(line_view(r) =~= check_row(*check, branches@));
    r
}

fn suite_row_line(suite: &SuiteResult, branches: &Vec<bool>, reused: bool) -> (r: Vec<Segment>)
    ensures
        line_view(r) == suite_row(*suite, branches@, reused),
{
    let mut label = concat2("  ", suite.id.as_str());
    label.append("  ");
    let mut r = vec![
        Segment::Painted(Role::Border, prefix(branches.as_slice())),
        Segment::Painted(Role::Suite, owned("SUITE")),
        Segment::Text(owned(" ")),
        status_segment(status_from_summary(&suite.summary)),
        Segment::Text(label),
        Segment::Duration(suite.check_duration_ms),
        Segment::Text(owned("  [")),
        Segment::Painted(Role::Path, owned(suite.working_directory.as_str())),
        Segment::Text(owned("]")),
    ];
    let ghost head = line_view(r);
    push_shared_mark(&mut r, reused);
    assert(head =~= suite_row(*suite, branches@, false));
    assert(line_view(r) =~= suite_row(*suite, branches@, reused));
    r
}

fn group_row_line(group: &GroupResult, branches: &Vec<bool>, reused: bool) -> (r: Vec<Segment>)
    ensures
        line_view(r) == group_row(*group, branches@, reused),
{
    let mut label = concat2("  ", group.id.as_str());
    label.append("  ");
    let mut r = vec![
        Segment::Painted(Role::Border, prefix(branches.as_slice())),
        Segment::Painted(Role::Group, owned("GROUP")),
        Segment::Text(owned(" ")),
        status_segment(status_from_summary(&group.summary)),
        Segment::Text(label),
        Segment::Duration(group.check_duration_ms),
    ];
    let ghost head = line_view(r);
    push_shared_mark(&mut r, reused);
    assert(head =~= group_row(*group, branches@, false));
    assert(line_view(r) =~= group_row(*group, branches@, reused));
    r
}

proof fn lemma_trim_line_ends(s: Seq<char>, b: int)
    requires
        0 <= b <= s.len(),
        forall|k: int| b <= k < s.len() ==> (#[trigger] s[k] == '\r' || s[k] == '\n'),
        b == 0 || (s[b - 1] != '\r' && s[b - 1] != '\n'),
    ensures
        trim_line_ends(s) == s.take(b),
    decreases s.len() - b,
{
    if b < s.len() {
        assert forall|k: int| b <= k < s.len() - 1 implies (#[trigger] s.drop_last()[k] == '\r' || s.drop_last()[k]
            == '\n') by {
            assert(s.drop_last()[k] == s[k]);
        }
        lemma_trim_line_ends(s.drop_last(), b);
        assert(s.drop_last().take(b) =~= s.take(b));
    } else {
        assert(s.take(b) =~= s);
    }
}

fn diagnostic_rows_of(content: &str) -> (r: Vec<String>)
    ensures
        views(r@) == diagnostic_rows(content@),
{
    let cs = char_vec(content);
    let mut b: usize = cs.len();
    while b > 0 && (cs[b - 1] == '\r' || cs[b - 1] == '\n')
        invariant
            b <= cs@.len(),
            forall|k: int| b <= k < cs@.len() ==> (#[trigger] cs@[k] == '\r' || cs@[k] == '\n'),
        decreases b,
    {
        b = b - 1;
    }
    proof {
        lemma_trim_line_ends(content@, b as int);
        assert(cs@.take(b as int) =~= cs@.subrange(0, b as int));
    }
    let kept = text_of(&cs, 0, b);
    let fields = split_on(kept.as_str(), '\n');
    let mut r: Vec<String> = Vec::new();
    let mut i: usize = 0;
    while i < fields.len()
        invariant
            i <= fields@.len(),
            views(fields@) == split_fields(trim_line_ends(content@), '\n'),
            views(r@) == Seq::new(i as nat, |k: int| strip_cr(fields@[k]@)),
        decreases fields@.len() - i,
    {
        let fc = char_vec(fields[i].as_str());
        let n = fc.len();
        let row = if n > 0 && fc[n - 1] == '\r' {
            text_of(&fc, 0, n - 1)
        } else {
            text_of(&fc, 0, n)
        };
        proof {
            assert(fc@.subrange(0, n as int) =~= fc@);
            if n > 0 {
                assert(fc@.subrange(0, n - 1) =~= fc@.drop_last());
            }
        }
        let ghost before = views(r@);
        r.push(row);
        assert(views(r@) =~= before.push(strip_cr(fields@[i as int]@)));
        assert(views(r@) =~= Seq::new((i + 1) as nat, |k: int| strip_cr(fields@[k]@)));
        i = i + 1;
    }
    assert(views(r@) =~= diagnostic_rows(content@));
    r
}

fn push_diagnostic(out: &mut Vec<Vec<Segment>>, label: &str, content: &str)
    ensures
        lines_view(final(out)@) == lines_view(old(out)@) + diagnostic_lines(label@, content@),
{
    let rows = diagnostic_rows_of(content);
    proof {
        crate::text::lemma_split_fields_nonempty(trim_line_ends(content@), '\n');
    }
    let ghost start = lines_view(out@);
    let ghost rv = views(rows@);
    if rows.len() == 1 {
        let line = vec![
            Segment::Painted(Role::Border, owned("│")),
            Segment::Text(owned("       ")),
            Segment::Painted(Role::DiagnosticLabel, owned(label)),
            Segment::Text(owned(" ")),
            Segment::Painted(Role::DiagnosticContent, owned(rows[0].as_str())),
        ];
        assert(line_view(line) =~= seq![
            bar(),
            Piece::Text("       "@),
            Piece::Painted(Role::DiagnosticLabel, label@),
            Piece::Text(" "@),
            Piece::Painted(Role::DiagnosticContent, rv[0]),
        ]);
        push_line(out, line);
        assert(lines_view(out@) =~= start + diagnostic_lines(label@, content@));
        return ;
    }
    let first = vec![
        Segment::Painted(Role::Border, owned("│")),
        Segment::Text(owned("       ")),
        Segment::Painted(Role::DiagnosticLabel, owned(label)),
    ];
    assert(line_view(first) =~= seq![bar(), Piece::Text("       "@), Piece::Painted(Role::DiagnosticLabel, label@)]);
    push_line(out, first);
    let ghost head = lines_view(out@);
    let mut i: usize = 0;
    while i < rows.len()
        invariant
            rv == views(rows@),
            i <= rows@.len(),
            lines_view(out@) == head + Seq::new(i as nat, |k: int| diagnostic_row(rv[k])),
        decreases rows@.len() - i,
    {
        let line = if rows[i].unicode_len() == 0 {
            vec![
                Segment::Painted(Role::Border, owned("│")),
                Segment::Text(owned("       ")),
                Segment::Painted(Role::Border, owned("│")),
            ]
        } else {
            vec![
                Segment::Painted(Role::Border, owned("│")),
                Segment::Text(owned("       ")),
                Segment::Painted(Role::Border, owned("│")),
                Segment::Text(owned(" ")),
                Segment::Painted(Role::DiagnosticContent, owned(rows[i].as_str())),
            ]
        };
        assert(line_view(line) =~= diagnostic_row(rv[i as int]));
        push_line(out, line);
        assert(lines_view(out@) =~= head + Seq::new((i + 1) as nat, |k: int| diagnostic_row(rv[k])));
        i = i + 1;
    }
    assert(lines_view(out@) =~= start + diagnostic_lines(label@, content@));
}

#[verifier::spinoff_prover]
#[verifier::rlimit(40)]
fn push_failure(out: &mut Vec<Vec<Segment>>, check: &CheckExecutionResult)
    ensures
        lines_view(final(out)@) == lines_view(old(out)@) + failure_lines(*check),
{
    let ghost start = lines_view(out@);
    if check.status == Status::Pass {
        assert(lines_view(out@) =~= start + failure_lines(*check));
        return ;
    }
    let ghost reason_part = reason_diagnostic(check.reason);
    match &check.reason {
        Some(reason) => push_diagnostic(out, "Reason:", reason.as_str()),
        None => {
            assert(lines_view(out@) =~= start + reason_part);
        },
    }
    let ghost after_reason = lines_view(out@);
    assert(after_reason == start + reason_part);
    let ghost stderr_part = if check.stderr@.len() > 0 {
        diagnostic_lines(
            if check.stderr_truncated {
                "stderr (tail, truncated):"@
            } else {
                "stderr:"@
            },
            check.stderr@,
        )
    } else {
        Seq::<Seq<Piece>>::empty()
    };
    if check.stderr.unicode_len() > 0 {
        push_diagnostic(
            out,
            if check.stderr_truncated {
                "stderr (tail, truncated):"
            } else {
                "stderr:"
            },
            check.stderr.as_str(),
        );
    } else {
        assert(lines_view(out@) =~= after_reason + stderr_part);
    }
    let ghost after_stderr = lines_view(out@);
    assert(after_stderr == after_reason + stderr_part);
    let ghost stdout_part = if check.stdout@.len() > 0 {
        diagnostic_lines(
            if check.stdout_truncated {
                "stdout (tail, truncated):"@
            } else {
                "stdout:"@
            },
            check.stdout@,
        )
    } else {
        Seq::<Seq<Piece>>::empty()
    };
    if check.stdout.unicode_len() > 0 {
        push_diagnostic(
            out,
            if check.stdout_truncated {
                "stdout (tail, truncated):"
            } else {
                "stdout:"
            },
            check.stdout.as_str(),
        );
    } else {
        assert(lines_view(out@) =~= after_stderr + stdout_part);
    }
    assert(failure_lines(*check) == reason_part + stderr_part + stdout_part);
    assert(lines_view(out@) =~= start + failure_lines(*check));
}

/// The name `Debug` gives an overall result.
pub open spec fn result_name(result: OverallResult) -> Seq<char> {
    match result {
        OverallResult::Pass => "Pass"@,
        OverallResult::Fail => "Fail"@,
        OverallResult::Blocked => "Blocked"@,
    }
}

/// The metadata items at the top of a report.
pub open spec fn metadata_items(report: ValidationReport) -> Seq<Seq<Seq<Piece>>> {
    seq![
        seq![
            seq![
                bar(),
                Piece::Text(" "@),
                Piece::Painted(Role::Metadata, "Selection:"@),
                Piece::Text(" "@ + selection_text(report.selection)),
            ],
        ],
        seq![
            seq![
                bar(),
                Piece::Text(" "@),
                Piece::Painted(Role::Metadata, "Result:"@),
                Piece::Text(" "@ + result_name(report.summary.result)),
            ],
        ],
        seq![
            seq![
                bar(),
                Piece::Text(" "@),
                Piece::Painted(Role::Metadata, "Duration:"@),
                Piece::Text(" "@),
                Piece::Duration(report.duration_ms),
            ],
        ],
    ]
}

/// ` (version)` after a tool that reported one.
pub open spec fn version_suffix(version: Option<String>) -> Seq<char> {
    match version {
        Some(v) => " ("@ + v@ + ")"@,
        None => Seq::empty(),
    }
}

/// The line of a reason under an item, when there is one.
pub open spec fn reason_lines(reason: Option<String>) -> Seq<Seq<Piece>> {
    match reason {
        Some(r) => seq![seq![bar(), Piece::Text("       "@), Piece::Painted(Role::DiagnosticContent, r@)]],
        None => Seq::empty(),
    }
}

/// The item of one tool.
pub open spec fn tool_item(tool: ToolResult) -> Seq<Seq<Piece>> {
    seq![
        seq![
            bar(),
            Piece::Text(" "@),
            Piece::Painted(Role::Tool, "TOOL"@),
            Piece::Text("  "@),
            status_piece(tool.status),
            Piece::Text("  "@ + tool.id@ + version_suffix(tool.version)),
        ],
    ] + reason_lines(tool.reason)
}

/// The items of the tools, in order.
pub open spec fn tool_items(tools: Seq<ToolResult>) -> Seq<Seq<Seq<Piece>>> {
    Seq::new(tools.len(), |k: int| tool_item(tools[k]))
}

/// The item of one counted check.
pub open spec fn check_item(check: CheckExecutionResult) -> Seq<Seq<Piece>> {
    seq![
        seq![
            bar(),
            Piece::Text(" "@),
            Piece::Painted(Role::Check, "CHECK"@),
            Piece::Text(" "@),
            status_piece(check.status),
            Piece::Text("  "@ + check.check_id@ + "  "@),
            Piece::Duration(check.duration_ms),
        ],
    ] + failure_lines(check)
}

/// The item of the repository gate.
pub open spec fn gate_item(repository: RepositoryReport) -> Seq<Seq<Piece>> {
    seq![
        seq![
            bar(),
            Piece::Text(" "@),
            Piece::Painted(Role::Gate, "GATE"@),
            Piece::Text("  "@),
            status_piece(repository.integrity.status),
            Piece::Text("  "@ + repository.integrity.id@ + "  "@),
            Piece::Duration(repository.integrity.duration_ms),
        ],
    ] + reason_lines(repository.integrity.reason)
}

/// The counted outcomes: every check, then the repository gate.
pub open spec fn outcome_items(report: ValidationReport) -> Seq<Seq<Seq<Piece>>> {
    Seq::new(report.checks@.len(), |k: int| check_item(report.checks@[k])) + match report.repository {
        Some(repository) => seq![gate_item(repository)],
        None => Seq::empty(),
    }
}

/// The closing summary items.
pub open spec fn summary_items(report: ValidationReport) -> Seq<Seq<Seq<Piece>>> {
    seq![
        seq![
            seq![
                bar(),
                Piece::Text(
                    " Counted: "@ + decimal_text(report.checks@.len()) + " checks + "@ + decimal_text(
                        if report.repository is Some {
                            1
                        } else {
                            0
                        },
                    ) + " repository gate"@,
                ),
            ],
        ],
        seq![
            seq![
                bar(),
                Piece::Text(" "@),
                Piece::Painted(Role::Metadata, "Summary:"@),
                Piece::Text(" "@ + summary_text(report.summary)),
            ],
        ],
    ]
}

/// Tree rows one after another; between neighbours, `gap` connector rows
/// that continue the guides of the later row.
pub open spec fn tree_lines(items: Seq<(Seq<bool>, Seq<Piece>)>, gap: nat) -> Seq<Seq<Piece>>
    decreases items.len(),
{
    if items.len() == 0 {
        Seq::empty()
    } else if items.len() == 1 {
        seq![items[0].1]
    } else {
        tree_lines(items.drop_last(), gap) + Seq::new(
            gap,
            |i: int| seq![Piece::Painted(Role::Border, continuation_text(items.last().0))],
        ) + seq![items.last().1]
    }
}

/// All lines of a rendered report around the rows of its execution tree.
pub open spec fn report_lines(
    report: ValidationReport,
    section_gap: nat,
    item_gap: nat,
    tree: Seq<(Seq<bool>, Seq<Piece>)>,
) -> Seq<Seq<Piece>> {
    seq![frame_row("╭"@, "Workspace Validator · Result"@, Role::Heading)] + guide_lines(section_gap) + spaced(
        metadata_items(report),
        item_gap,
    ) + guide_lines(section_gap) + seq![frame_row("├"@, "Tools"@, Role::Section)] + guide_lines(section_gap)
        + spaced(tool_items(report.tools@), item_gap) + guide_lines(section_gap) + seq![
        frame_row("├"@, "Execution tree"@, Role::Section),
    ] + guide_lines(section_gap) + tree_lines(tree, item_gap) + guide_lines(section_gap) + seq![
        frame_row("├"@, "Counted outcomes"@, Role::Section),
    ] + guide_lines(section_gap) + spaced(outcome_items(report), item_gap) + guide_lines(section_gap) + spaced(
        summary_items(report),
        item_gap,
    ) + guide_lines(section_gap) + seq![frame_row("╰"@, "Validation complete"@, Role::Border)]
}

/// The lines of `report` rendered in `presentation`: the palette plays no part.
pub open spec fn rendered_lines(report: ValidationReport, presentation: PresentationProfile) -> Seq<Seq<Piece>> {
    report_lines(
        report,
        metrics_spec(presentation).section_gap as nat,
        metrics_spec(presentation).item_gap as nat,
        execution_tree(report),
    )
}

/// Text made only of frame borders and spaces.
pub open spec fn border_only(text: Seq<char>) -> bool {
    forall|i: int| 0 <= i < text.len() ==> text[i] == '│' || text[i] == ' '
}

/// A line that holds frame borders and spaces alone.
pub open spec fn blank_line(line: Seq<Piece>) -> bool {
    line.len() == 1 && (line[0] matches Piece::Painted(Role::Border, t) && border_only(t))
}

/// A line that shows something besides the frame.
pub open spec fn shows(line: Seq<Piece>) -> bool {
    !blank_line(line)
}

/// The lines that show something besides the frame, in order.
pub open spec fn content_lines(lines: Seq<Seq<Piece>>) -> Seq<Seq<Piece>> {
    lines.filter(|l: Seq<Piece>| shows(l))
}

proof fn lemma_all_blank(s: Seq<Seq<Piece>>)
    requires
        forall|i: int| 0 <= i < s.len() ==> blank_line(#[trigger] s[i]),
    ensures
        content_lines(s) == Seq::<Seq<Piece>>::empty(),
    decreases s.len(),
{
    if s.len() == 0 {
        reveal(Seq::filter);
        assert(content_lines(s) =~= Seq::<Seq<Piece>>::empty());
    } else {
        lemma_all_blank(s.drop_last());
        assert(s == s.drop_last().push(s.last()));
        s.drop_last().lemma_filter_push(s.last(), |l: Seq<Piece>| shows(l));
    }
}

proof fn lemma_guides_blank(n: nat)
    ensures
        content_lines(guide_lines(n)) == Seq::<Seq<Piece>>::empty(),
{
    reveal_strlit("│");
    assert forall|i: int| 0 <= i < guide_lines(n).len() implies blank_line(#[trigger] guide_lines(n)[i]) by {
        assert(guide_lines(n)[i] == seq![bar()]);
    }
    lemma_all_blank(guide_lines(n));
}

proof fn lemma_columns_border_only(ancestors: Seq<bool>)
    ensures
        border_only(ancestor_columns(ancestors)),
    decreases ancestors.len(),
{
    reveal_strlit("   ");
    reveal_strlit("│  ");
    if ancestors.len() > 0 {
        lemma_columns_border_only(ancestors.drop_last());
    }
}

proof fn lemma_continuations_blank(branches: Seq<bool>, n: nat)
    ensures
        content_lines(Seq::new(n, |i: int| seq![Piece::Painted(Role::Border, continuation_text(branches))]))
            == Seq::<Seq<Piece>>::empty(),
{
    reveal_strlit("│");
    reveal_strlit("│ ");
    if branches.len() > 0 {
        lemma_columns_border_only(branches.drop_last());
    }
    assert(border_only(continuation_text(branches)));
    let s = Seq::new(n, |i: int| seq![Piece::Painted(Role::Border, continuation_text(branches))]);
    assert forall|i: int| 0 <= i < s.len() implies blank_line(#[trigger] s[i]) by {}
    lemma_all_blank(s);
}

proof fn lemma_spaced_content(items: Seq<Seq<Seq<Piece>>>, gap: nat)
    ensures
        content_lines(spaced(items, gap)) == content_lines(spaced(items, 0)),
    decreases items.len(),
{
    broadcast use Seq::filter_distributes_over_add;

    if items.len() > 1 {
        lemma_spaced_content(items.drop_last(), gap);
        lemma_guides_blank(gap);
        lemma_guides_blank(0);
    }
}

proof fn lemma_tree_content(items: Seq<(Seq<bool>, Seq<Piece>)>, gap: nat)
    ensures
        content_lines(tree_lines(items, gap)) == content_lines(tree_lines(items, 0)),
    decreases items.len(),
{
    broadcast use Seq::filter_distributes_over_add;

    if items.len() > 1 {
        lemma_tree_content(items.drop_last(), gap);
        lemma_continuations_blank(items.last().0, gap);
        lemma_continuations_blank(items.last().0, 0);
    }
}

/// Palettes never change what a report shows: two themes of one
/// presentation render a report to the same lines, pieces and roles alike.
pub proof fn lemma_palettes_keep_lines(report: ValidationReport, a: Theme, b: Theme)
    requires
        a.presentation() == b.presentation(),
    ensures
        rendered_lines(report, a.presentation()) == rendered_lines(report, b.presentation()),
{
}

#[verifier::rlimit(40)]
proof fn lemma_gap_content(report: ValidationReport, section_gap: nat, item_gap: nat)
    ensures
        content_lines(report_lines(report, section_gap, item_gap, execution_tree(report))) == content_lines(
            report_lines(report, 0, 0, execution_tree(report)),
        ),
{
    broadcast use Seq::filter_distributes_over_add;

    let tree = execution_tree(report);
    lemma_guides_blank(section_gap);
    lemma_guides_blank(0);
    lemma_spaced_content(metadata_items(report), item_gap);
    lemma_spaced_content(tool_items(report.tools@), item_gap);
    lemma_spaced_content(outcome_items(report), item_gap);
    lemma_spaced_content(summary_items(report), item_gap);
    lemma_tree_content(tree, item_gap);
}

/// Spacing is all that tells presentations apart: leaving out the lines
/// made only of frame borders and spaces, every gap setting renders a
/// report to the same lines, so low vision shows what standard shows.
pub proof fn lemma_gaps_add_only_blank_lines(report: ValidationReport, section_gap: nat, item_gap: nat)
    ensures
        content_lines(report_lines(report, section_gap, item_gap, execution_tree(report))) == content_lines(
            report_lines(report, 0, 0, execution_tree(report)),
        ),
        content_lines(rendered_lines(report, PresentationProfile::LowVision)) == content_lines(
            rendered_lines(report, PresentationProfile::Standard),
        ),
{
    lemma_gap_content(report, section_gap, item_gap);
    lemma_gap_content(report, 2, 1);
}

/// The first position of `s` at which `matches` holds.
pub open spec fn first_where<T>(s: Seq<T>, matches: spec_fn(T) -> bool) -> Option<int>
    decreases s.len(),
{
    if s.len() == 0 {
        None
    } else {
        match first_where(s.drop_last(), matches) {
            Some(k) => Some(k),
            None => if matches(s.last()) {
                Some(s.len() - 1)
            } else {
                None
            },
        }
    }
}

/// The checks run in the suite `id`, in order.
pub open spec fn suite_checks(checks: Seq<CheckExecutionResult>, id: Seq<char>) -> Seq<CheckExecutionResult>
    decreases checks.len(),
{
    if checks.len() == 0 {
        Seq::empty()
    } else {
        let rest = suite_checks(checks.drop_last(), id);
        match checks.last().context {
            CheckContext::Suite { suite_id } => if suite_id@ == id {
                rest.push(checks.last())
            } else {
                rest
            },
            CheckContext::Direct => rest,
        }
    }
}

/// The tree rows of a suite's checks below a node at `parent`.
pub open spec fn suite_check_rows(checks: Seq<CheckExecutionResult>, id: Seq<char>, parent: Seq<bool>) -> Seq<
    (Seq<bool>, Seq<Piece>),
> {
    let own = suite_checks(checks, id);
    Seq::new(
        own.len(),
        |p: int| (parent.push(p + 1 == own.len()), check_row(own[p], parent.push(p + 1 == own.len()))),
    )
}

/// The execution tree of a check selection: the first result of the check.
pub open spec fn check_tree(report: ValidationReport, id: Seq<char>) -> Seq<(Seq<bool>, Seq<Piece>)> {
    match first_where(report.checks@, |c: CheckExecutionResult| c.check_id@ == id) {
        Some(k) => seq![(Seq::empty(), check_row(report.checks@[k], Seq::empty()))],
        None => Seq::empty(),
    }
}

/// The execution tree of a suite selection: the suite, then its checks.
pub open spec fn suite_tree(report: ValidationReport, id: Seq<char>) -> Seq<(Seq<bool>, Seq<Piece>)> {
    match first_where(report.suites@, |s: SuiteResult| s.id@ == id) {
        Some(k) => seq![(Seq::<bool>::empty(), suite_row(report.suites@[k], Seq::empty(), false))]
            + suite_check_rows(report.checks@, id, Seq::empty()),
        None => Seq::empty(),
    }
}

/// A group member as a node of the group walk: whether it is a group, its
/// identifier, and its position in the tree.
pub open spec fn member_node(member: GroupMemberRef, branches: Seq<bool>) -> (bool, Seq<char>, Seq<bool>) {
    match member {
        GroupMemberRef::Group { id } => (true, id@, branches),
        GroupMemberRef::Suite { id } => (false, id@, branches),
    }
}

/// The members of a group below `branches` as walk nodes, last member
/// first: the walk takes nodes from the end, so the first member is next.
pub open spec fn member_nodes(members: Seq<GroupMemberRef>, branches: Seq<bool>) -> Seq<
    (bool, Seq<char>, Seq<bool>),
> {
    Seq::new(
        members.len(),
        |j: int|
            {
                let m = members.len() - 1 - j;
                member_node(members[m], branches.push(m + 1 == members.len()))
            },
    )
}

/// The rows of a depth-first walk that takes its nodes from the end of
/// `stack`. A group or suite not seen before is shown and expanded (a
/// group into its members, a suite into its checks); one seen before is
/// shown as shared and not expanded. `expanded` counts the groups
/// expanded so far, which never reach the number of groups.
pub open spec fn walk_rows(
    report: ValidationReport,
    stack: Seq<(bool, Seq<char>, Seq<bool>)>,
    seen_groups: Seq<Seq<char>>,
    seen_suites: Seq<Seq<char>>,
    expanded: nat,
) -> Seq<(Seq<bool>, Seq<Piece>)>
    decreases report.groups@.len() - expanded, stack.len(),
{
    if stack.len() == 0 {
        Seq::empty()
    } else {
        let node = stack.last();
        let rest = stack.drop_last();
        if node.0 {
            match first_where(report.groups@, |g: GroupResult| g.id@ == node.1) {
                Some(g) => {
                    let reused = seen_groups.contains(node.1);
                    let seen = if reused {
                        seen_groups
                    } else {
                        seen_groups.push(node.1)
                    };
                    let expand = !reused && expanded < report.groups@.len();
                    let next = if expand {
                        rest + member_nodes(report.groups@[g].members@, node.2)
                    } else {
                        rest
                    };
                    seq![(node.2, group_row(report.groups@[g], node.2, reused))] + walk_rows(
                        report,
                        next,
                        seen,
                        seen_suites,
                        if expand {
                            expanded + 1
                        } else {
                            expanded
                        },
                    )
                },
                None => Seq::empty(),
            }
        } else {
            match first_where(report.suites@, |s: SuiteResult| s.id@ == node.1) {
                Some(k) => {
                    let reused = seen_suites.contains(node.1);
                    let seen = if reused {
                        seen_suites
                    } else {
                        seen_suites.push(node.1)
                    };
                    let checks = if reused {
                        Seq::empty()
                    } else {
                        suite_check_rows(report.checks@, node.1, node.2)
                    };
                    seq![(node.2, suite_row(report.suites@[k], node.2, reused))] + checks + walk_rows(
                        report,
                        rest,
                        seen_groups,
                        seen,
                        expanded,
                    )
                },
                None => Seq::empty(),
            }
        }
    }
}

/// The execution tree of a group selection: the root group, then the walk
/// over its members, with the root already seen.
pub open spec fn group_tree(report: ValidationReport, id: Seq<char>) -> Seq<(Seq<bool>, Seq<Piece>)> {
    match first_where(report.groups@, |g: GroupResult| g.id@ == id) {
        Some(g) => seq![(Seq::<bool>::empty(), group_row(report.groups@[g], Seq::empty(), false))] + walk_rows(
            report,
            member_nodes(report.groups@[g].members@, Seq::empty()),
            seq![id],
            Seq::empty(),
            1,
        ),
        None => Seq::empty(),
    }
}

/// The execution tree that a report shows for its selection.
pub open spec fn execution_tree(report: ValidationReport) -> Seq<(Seq<bool>, Seq<Piece>)> {
    match report.selection {
        ValidationSelection::Check { id } => check_tree(report, id@),
        ValidationSelection::Suite { id } => suite_tree(report, id@),
        ValidationSelection::Group { id } => group_tree(report, id@),
    }
}

/// The view of tree rows.
pub open spec fn rows_view(rows: Seq<(Vec<bool>, Vec<Segment>)>) -> Seq<(Seq<bool>, Seq<Piece>)> {
    Seq::new(rows.len(), |k: int| (rows[k].0@, line_view(rows[k].1)))
}

/// The view of a list of items, each a list of lines.
pub open spec fn items_view(items: Seq<Vec<Vec<Segment>>>) -> Seq<Seq<Seq<Piece>>> {
    Seq::new(items.len(), |k: int| lines_view(items[k]@))
}

proof fn lemma_spaced_push(items: Seq<Seq<Seq<Piece>>>, x: Seq<Seq<Piece>>, gap: nat)
    ensures
        spaced(items.push(x), gap) == (if items.len() == 0 {
            x
        } else {
            spaced(items, gap) + guide_lines(gap) + x
        }),
{
    assert(items.push(x).drop_last() =~= items);
}

proof fn lemma_tree_push(rows: Seq<(Seq<bool>, Seq<Piece>)>, x: (Seq<bool>, Seq<Piece>), gap: nat)
    ensures
        tree_lines(rows.push(x), gap) == (if rows.len() == 0 {
            seq![x.1]
        } else {
            tree_lines(rows, gap) + Seq::new(gap, |i: int| seq![Piece::Painted(Role::Border, continuation_text(x.0))])
                + seq![x.1]
        }),
{
    assert(rows.push(x).drop_last() =~= rows);
}

fn push_lines(out: &mut Vec<Vec<Segment>>, lines: Vec<Vec<Segment>>)
    ensures
        lines_view(final(out)@) == lines_view(old(out)@) + lines_view(lines@),
{
    let ghost start = lines_view(out@);
    let ghost all = lines_view(lines@);
    let mut rest = lines;
    let ghost mut k: int = 0;
    while rest.len() > 0
        invariant
            0 <= k <= all.len(),
            lines_view(rest@) == all.skip(k),
            lines_view(out@) == start + all.take(k),
        decreases rest@.len(),
    {
        let ghost rv = rest@;
        let line = rest.remove(0);
        proof {
            assert(lines_view(rv).len() == all.skip(k).len());
            assert(line == rv[0]);
            assert(lines_view(rv)[0] == line_view(rv[0]));
            assert(line_view(line) == all[k]) by {
                assert(lines_view(rv)[0] == all.skip(k)[0]);
            }
            assert(rest@ =~= rv.subrange(1, rv.len() as int));
            assert forall|j: int| 0 <= j < lines_view(rest@).len() implies #[trigger] lines_view(rest@)[j] == all.skip(k + 1)[j] by {
                assert(lines_view(rest@)[j] == line_view(rv[j + 1]));
                assert(lines_view(rv)[j + 1] == all.skip(k)[j + 1]);
            }
            assert(lines_view(rest@) =~= all.skip(k + 1));
        }
        push_line(out, line);
        proof {
            assert(start + all.take(k + 1) =~= (start + all.take(k)).push(all[k]));
            k = k + 1;
        }
    }
    assert(all.take(k) =~= all);
}

fn push_guides(out: &mut Vec<Vec<Segment>>, n: usize)
    ensures
        lines_view(final(out)@) == lines_view(old(out)@) + guide_lines(n as nat),
{
    let ghost start = lines_view(out@);
    let mut i: usize = 0;
    while i < n
        invariant
            i <= n,
            lines_view(out@) == start + guide_lines(i as nat),
        decreases n - i,
    {
        let line = vec![Segment::Painted(Role::Border, owned("│"))];
        assert(line_view(line) =~= seq![bar()]);
        push_line(out, line);
        assert(start + guide_lines((i + 1) as nat) =~= (start + guide_lines(i as nat)).push(seq![bar()]));
        i = i + 1;
    }
}

fn push_items(out: &mut Vec<Vec<Segment>>, items: Vec<Vec<Vec<Segment>>>, gap: usize)
    ensures
        lines_view(final(out)@) == lines_view(old(out)@) + spaced(items_view(items@), gap as nat),
{
    let ghost start = lines_view(out@);
    let ghost all = items_view(items@);
    let mut rest = items;
    let ghost mut k: int = 0;
    let mut first = true;
    while rest.len() > 0
        invariant
            0 <= k <= all.len(),
            first == (k == 0),
            items_view(rest@) == all.skip(k),
            lines_view(out@) == start + spaced(all.take(k), gap as nat),
        decreases rest@.len(),
    {
        let ghost rv = rest@;
        let item = rest.remove(0);
        proof {
            assert(items_view(rv).len() == all.skip(k).len());
            assert(item == rv[0]);
            assert(items_view(rv)[0] == lines_view(rv[0]@));
            assert(lines_view(item@) == all[k]) by {
                assert(items_view(rv)[0] == all.skip(k)[0]);
            }
            assert(rest@ =~= rv.subrange(1, rv.len() as int));
            assert forall|j: int| 0 <= j < items_view(rest@).len() implies #[trigger] items_view(rest@)[j] == all.skip(k + 1)[j] by {
                assert(items_view(rest@)[j] == lines_view(rv[j + 1]@));
                assert(items_view(rv)[j + 1] == all.skip(k)[j + 1]);
            }
            assert(items_view(rest@) =~= all.skip(k + 1));
            assert(all.take(k + 1) =~= all.take(k).push(all[k]));
            lemma_spaced_push(all.take(k), all[k], gap as nat);
        }
        if !first {
            push_guides(out, gap);
        }
        push_lines(out, item);
        proof {
            k = k + 1;
        }
        first = false;
    }
    assert(all.take(k) =~= all);
}

fn push_tree(out: &mut Vec<Vec<Segment>>, rows: Vec<(Vec<bool>, Vec<Segment>)>, gap: usize)
    ensures
        lines_view(final(out)@) == lines_view(old(out)@) + tree_lines(rows_view(rows@), gap as nat),
{
    let ghost start = lines_view(out@);
    let ghost all = rows_view(rows@);
    let mut rest = rows;
    let ghost mut k: int = 0;
    let mut first = true;
    while rest.len() > 0
        invariant
            0 <= k <= all.len(),
            first == (k == 0),
            rows_view(rest@) == all.skip(k),
            lines_view(out@) == start + tree_lines(all.take(k), gap as nat),
        decreases rest@.len(),
    {
        let ghost rv = rest@;
        let (branches, line) = rest.remove(0);
        proof {
            assert(rows_view(rv).len() == all.skip(k).len());
            assert((branches, line) == rv[0]);
            assert(rows_view(rv)[0] == (rv[0].0@, line_view(rv[0].1)));
            assert((branches@, line_view(line)) == all[k]) by {
                assert(rows_view(rv)[0] == all.skip(k)[0]);
            }
            assert(rest@ =~= rv.subrange(1, rv.len() as int));
            assert forall|j: int| 0 <= j < rows_view(rest@).len() implies #[trigger] rows_view(rest@)[j] == all.skip(k + 1)[j] by {
                assert(rows_view(rest@)[j] == (rv[j + 1].0@, line_view(rv[j + 1].1)));
                assert(rows_view(rv)[j + 1] == all.skip(k)[j + 1]);
            }
            assert(rows_view(rest@) =~= all.skip(k + 1));
            assert(all.take(k + 1) =~= all.take(k).push(all[k]));
            lemma_tree_push(all.take(k), all[k], gap as nat);
        }
        if !first {
            let ghost before = lines_view(out@);
            let text = continuation(branches.as_slice());
            let mut i: usize = 0;
            while i < gap
                invariant
                    i <= gap,
                    text@ == continuation_text(branches@),
                    lines_view(out@) == before + Seq::new(
                        i as nat,
                        |j: int| seq![Piece::Painted(Role::Border, continuation_text(branches@))],
                    ),
                decreases gap - i,
            {
                let row = vec![Segment::Painted(Role::Border, owned(text.as_str()))];
                assert(line_view(row) =~= seq![Piece::Painted(Role::Border, continuation_text(branches@))]);
                push_line(out, row);
                assert(before + Seq::new(
                    (i + 1) as nat,
                    |j: int| seq![Piece::Painted(Role::Border, continuation_text(branches@))],
                ) =~= (before + Seq::new(
                    i as nat,
                    |j: int| seq![Piece::Painted(Role::Border, continuation_text(branches@))],
                )).push(seq![Piece::Painted(Role::Border, continuation_text(branches@))]));
                i = i + 1;
            }
        }
        let ghost before_row = lines_view(out@);
        push_line(out, line);
        proof {
            if k == 0 {
                assert(tree_lines(all.take(0), gap as nat) =~= Seq::<Seq<Piece>>::empty());
                assert(lines_view(out@) =~= start + tree_lines(all.take(k + 1), gap as nat));
            } else {
                assert(lines_view(out@) =~= start + tree_lines(all.take(k + 1), gap as nat));
            }
            k = k + 1;
        }
        first = false;
    }
    assert(all.take(k) =~= all);
}

fn frame_line(theme: &Theme, edge: &str, label: &str, role: Role) -> (r: Vec<Segment>)
    requires
        edge@.len() == 1,
    ensures
        line_view(r) == frame_row(edge@, label@, role),
{
    let rule = theme.frame_rule(edge, label, role);
    let r = vec![
        Segment::Painted(Role::Border, rule.leading),
        Segment::Painted(rule.label_role, rule.label),
        Segment::Painted(Role::Border, rule.trailing),
    ];
    assert(line_view(r) =~= frame_row(edge@, label@, role));
    r
}

fn result_text(result: OverallResult) -> (r: &'static str)
    ensures
        r@ == result_name(result),
{
    match result {
        OverallResult::Pass => "Pass",
        OverallResult::Fail => "Fail",
        OverallResult::Blocked => "Blocked",
    }
}

fn one_line_item(line: Vec<Segment>) -> (r: Vec<Vec<Segment>>)
    ensures
        lines_view(r@) == seq![line_view(line)],
{
    let r = vec![line];
    assert(lines_view(r@) =~= seq![line_view(line)]);
    r
}

fn metadata_lines(report: &ValidationReport) -> (r: Vec<Vec<Vec<Segment>>>)
    ensures
        items_view(r@) == metadata_items(*report),
{
    let selection = vec![
        Segment::Painted(Role::Border, owned("│")),
        Segment::Text(owned(" ")),
        Segment::Painted(Role::Metadata, owned("Selection:")),
        Segment::Text(concat2(" ", format_selection(&report.selection).as_str())),
    ];
    let result = vec![
        Segment::Painted(Role::Border, owned("│")),
        Segment::Text(owned(" ")),
        Segment::Painted(Role::Metadata, owned("Result:")),
        Segment::Text(concat2(" ", result_text(report.summary.result))),
    ];
    let duration = vec![
        Segment::Painted(Role::Border, owned("│")),
        Segment::Text(owned(" ")),
        Segment::Painted(Role::Metadata, owned("Duration:")),
        Segment::Text(owned(" ")),
        Segment::Duration(report.duration_ms),
    ];
    assert(line_view(selection) =~= metadata_items(*report)[0][0]);
    assert(line_view(result) =~= metadata_items(*report)[1][0]);
    assert(line_view(duration) =~= metadata_items(*report)[2][0]);
    let r = vec![one_line_item(selection), one_line_item(result), one_line_item(duration)];
    assert(items_view(r@) =~= metadata_items(*report));
    r
}

fn push_reason(out: &mut Vec<Vec<Segment>>, reason: &Option<String>)
    ensures
        lines_view(final(out)@) == lines_view(old(out)@) + reason_lines(*reason),
{
    let ghost start = lines_view(out@);
    match reason {
        Some(text) => {
            let line = vec![
                Segment::Painted(Role::Border, owned("│")),
                Segment::Text(owned("       ")),
                Segment::Painted(Role::DiagnosticContent, owned(text.as_str())),
            ];
            assert(line_view(line) =~= reason_lines(*reason)[0]);
            push_line(out, line);
            assert(lines_view(out@) =~= start + reason_lines(*reason));
        },
        None => {
            assert(lines_view(out@) =~= start + reason_lines(*reason));
        },
    }
}

fn tool_lines(tools: &Vec<ToolResult>) -> (r: Vec<Vec<Vec<Segment>>>)
    ensures
        items_view(r@) == tool_items(tools@),
{
    let mut r: Vec<Vec<Vec<Segment>>> = Vec::new();
    let mut k: usize = 0;
    while k < tools.len()
        invariant
            k <= tools@.len(),
            items_view(r@) == tool_items(tools@).take(k as int),
        decreases tools@.len() - k,
    {
        let tool = &tools[k];
        let mut text = concat2("  ", tool.id.as_str());
        match &tool.version {
            Some(version) => {
                text.append(" (");
                text.append(version.as_str());
                text.append(")");
            },
            None => {},
        }
        assert(text@ =~= "  "@ + tool.id@ + version_suffix(tool.version));
        let head = vec![
            Segment::Painted(Role::Border, owned("│")),
            Segment::Text(owned(" ")),
            Segment::Painted(Role::Tool, owned("TOOL")),
            Segment::Text(owned("  ")),
            status_segment(tool.status),
            Segment::Text(text),
        ];
        assert(line_view(head) =~= tool_item(*tool)[0]);
        let mut item = one_line_item(head);
        push_reason(&mut item, &tool.reason);
        assert(lines_view(item@) =~= tool_item(*tool));
        let ghost before = items_view(r@);
        r.push(item);
        assert(items_view(r@) =~= before.push(tool_item(*tool)));
        assert(tool_items(tools@).take(k + 1) =~= tool_items(tools@).take(k as int).push(tool_item(tools@[k as int])));
        k = k + 1;
    }
    assert(tool_items(tools@).take(tools@.len() as int) =~= tool_items(tools@));
    r
}

fn outcome_lines(report: &ValidationReport) -> (r: Vec<Vec<Vec<Segment>>>)
    ensures
        items_view(r@) == outcome_items(*report),
{
    let mut r: Vec<Vec<Vec<Segment>>> = Vec::new();
    let ghost checks = Seq::new(report.checks@.len(), |k: int| check_item(report.checks@[k]));
    let mut k: usize = 0;
    while k < report.checks.len()
        invariant
            k <= report.checks@.len(),
            checks == Seq::new(report.checks@.len(), |k: int| check_item(report.checks@[k])),
            items_view(r@) == checks.take(k as int),
        decreases report.checks@.len() - k,
    {
        let check = &report.checks[k];
        let mut label = concat2("  ", check.check_id.as_str());
        label.append("  ");
        let head = vec![
            Segment::Painted(Role::Border, owned("│")),
            Segment::Text(owned(" ")),
            Segment::Painted(Role::Check, owned("CHECK")),
            Segment::Text(owned(" ")),
            status_segment(check.status),
            Segment::Text(label),
            Segment::Duration(check.duration_ms),
        ];
        assert(line_view(head) =~= check_item(*check)[0]);
        let mut item = one_line_item(head);
        push_failure(&mut item, check);
        assert(lines_view(item@) =~= check_item(*check));
        let ghost before = items_view(r@);
        r.push(item);
        assert(items_view(r@) =~= before.push(check_item(*check)));
        assert(checks.take(k + 1) =~= checks.take(k as int).push(checks[k as int]));
        k = k + 1;
    }
    assert(checks.take(report.checks@.len() as int) =~= checks);
    match &report.repository {
        Some(repository) => {
            let gate = &repository.integrity;
            let mut label = concat2("  ", gate.id.as_str());
            label.append("  ");
            let head = vec![
                Segment::Painted(Role::Border, owned("│")),
                Segment::Text(owned(" ")),
                Segment::Painted(Role::Gate, owned("GATE")),
                Segment::Text(owned("  ")),
                status_segment(gate.status),
                Segment::Text(label),
                Segment::Duration(gate.duration_ms),
            ];
            assert(line_view(head) =~= gate_item(*repository)[0]);
            let mut item = one_line_item(head);
            push_reason(&mut item, &gate.reason);
            assert(lines_view(item@) =~= gate_item(*repository));
            let ghost before = items_view(r@);
            r.push(item);
            assert(items_view(r@) =~= before.push(gate_item(*repository)));
        },
        None => {},
    }
    assert(items_view(r@) =~= outcome_items(*report));
    r
}

fn summary_lines(report: &ValidationReport) -> (r: Vec<Vec<Vec<Segment>>>)
    ensures
        items_view(r@) == summary_items(*report),
{
    let gates: u64 = match &report.repository {
        Some(_) => 1,
        None => 0,
    };
    let mut counted = owned(" Counted: ");
    counted.append(decimal(report.checks.len() as u64).as_str());
    counted.append(" checks + ");
    counted.append(decimal(gates).as_str());
    counted.append(" repository gate");
    let first = vec![Segment::Painted(Role::Border, owned("│")), Segment::Text(counted)];
    let second = vec![
        Segment::Painted(Role::Border, owned("│")),
        Segment::Text(owned(" ")),
        Segment::Painted(Role::Metadata, owned("Summary:")),
        Segment::Text(concat2(" ", format_summary(&report.summary).as_str())),
    ];
    assert(line_view(first) =~= summary_items(*report)[0][0]);
    assert(line_view(second) =~= summary_items(*report)[1][0]);
    let r = vec![one_line_item(first), one_line_item(second)];
    assert(items_view(r@) =~= summary_items(*report));
    r
}

pub proof fn lemma_first_where_step<T>(s: Seq<T>, matches: spec_fn(T) -> bool, i: int)
    requires
        0 <= i < s.len(),
    ensures
        first_where(s.take(i + 1), matches) == (match first_where(s.take(i), matches) {
            Some(k) => Some(k),
            None => if matches(s[i]) {
                Some(i)
            } else {
                None
            },
        }),
{
    assert(s.take(i + 1).drop_last() =~= s.take(i));
}

pub proof fn lemma_first_where_extend<T>(s: Seq<T>, matches: spec_fn(T) -> bool, n: int)
    requires
        0 <= n <= s.len(),
        first_where(s.take(n), matches) is Some,
    ensures
        first_where(s, matches) == first_where(s.take(n), matches),
    decreases s.len() - n,
{
    if n < s.len() {
        lemma_first_where_step(s, matches, n);
        lemma_first_where_extend(s, matches, n + 1);
    } else {
        assert(s.take(n) =~= s);
    }
}

pub proof fn lemma_first_where_found<T>(s: Seq<T>, matches: spec_fn(T) -> bool)
    ensures
        match first_where(s, matches) {
            Some(k) => 0 <= k < s.len() && matches(s[k]),
            None => forall|k: int| 0 <= k < s.len() ==> !matches(#[trigger] s[k]),
        },
    decreases s.len(),
{
    if s.len() > 0 {
        lemma_first_where_found(s.drop_last(), matches);
        match first_where(s.drop_last(), matches) {
            Some(k) => {
                assert(s.drop_last()[k] == s[k]);
            },
            None => {
                assert forall|k: int| 0 <= k < s.len() - 1 implies !matches(#[trigger] s[k]) by {
                    assert(s.drop_last()[k] == s[k]);
                }
            },
        }
    }
}

fn first_check_with(checks: &Vec<CheckExecutionResult>, id: &str) -> (r: Option<usize>)
    ensures
        match r {
            Some(k) => k < checks@.len() && first_where(checks@, |c: CheckExecutionResult| c.check_id@ == id@) == Some(
                k as int,
            ),
            None => first_where(checks@, |c: CheckExecutionResult| c.check_id@ == id@) is None,
        },
{
    let ghost matches = |c: CheckExecutionResult| c.check_id@ == id@;
    let mut i: usize = 0;
    assert(checks@.take(0) =~= Seq::<CheckExecutionResult>::empty());
    while i < checks.len()
        invariant
            i <= checks@.len(),
            matches == (|c: CheckExecutionResult| c.check_id@ == id@),
            first_where(checks@.take(i as int), matches) is None,
        decreases checks@.len() - i,
    {
        proof {
            lemma_first_where_step(checks@, matches, i as int);
        }
        if crate::text::text_eq(checks[i].check_id.as_str(), id) {
            proof {
                lemma_first_where_extend(checks@, matches, i + 1);
            }
            return Some(i);
        }
        i = i + 1;
    }
    assert(checks@.take(checks@.len() as int) =~= checks@);
    None
}

fn suite_position(suites: &Vec<SuiteResult>, id: &str) -> (r: Option<usize>)
    ensures
        match r {
            Some(k) => k < suites@.len() && suites@[k as int].id@ == id@ && first_where(
                suites@,
                |s: SuiteResult| s.id@ == id@,
            ) == Some(k as int),
            None => first_where(suites@, |s: SuiteResult| s.id@ == id@) is None && forall|k: int|
                0 <= k < suites@.len() ==> (#[trigger] suites@[k]).id@ != id@,
        },
{
    let ghost matches = |s: SuiteResult| s.id@ == id@;
    let mut i: usize = 0;
    assert(suites@.take(0) =~= Seq::<SuiteResult>::empty());
    while i < suites.len()
        invariant
            i <= suites@.len(),
            matches == (|s: SuiteResult| s.id@ == id@),
            first_where(suites@.take(i as int), matches) is None,
        decreases suites@.len() - i,
    {
        proof {
            lemma_first_where_step(suites@, matches, i as int);
        }
        if crate::text::text_eq(suites[i].id.as_str(), id) {
            proof {
                lemma_first_where_extend(suites@, matches, i + 1);
            }
            return Some(i);
        }
        i = i + 1;
    }
    assert(suites@.take(suites@.len() as int) =~= suites@);
    proof {
        lemma_first_where_found(suites@, matches);
    }
    None
}

fn group_position(groups: &Vec<GroupResult>, id: &str) -> (r: Option<usize>)
    ensures
        match r {
            Some(k) => k < groups@.len() && groups@[k as int].id@ == id@ && first_where(
                groups@,
                |g: GroupResult| g.id@ == id@,
            ) == Some(k as int),
            None => first_where(groups@, |g: GroupResult| g.id@ == id@) is None && forall|k: int|
                0 <= k < groups@.len() ==> (#[trigger] groups@[k]).id@ != id@,
        },
{
    let ghost matches = |g: GroupResult| g.id@ == id@;
    let mut i: usize = 0;
    assert(groups@.take(0) =~= Seq::<GroupResult>::empty());
    while i < groups.len()
        invariant
            i <= groups@.len(),
            matches == (|g: GroupResult| g.id@ == id@),
            first_where(groups@.take(i as int), matches) is None,
        decreases groups@.len() - i,
    {
        proof {
            lemma_first_where_step(groups@, matches, i as int);
        }
        if crate::text::text_eq(groups[i].id.as_str(), id) {
            proof {
                lemma_first_where_extend(groups@, matches, i + 1);
            }
            return Some(i);
        }
        i = i + 1;
    }
    assert(groups@.take(groups@.len() as int) =~= groups@);
    proof {
        lemma_first_where_found(groups@, matches);
    }
    None
}

fn extended(parent: &Vec<bool>, last: bool) -> (r: Vec<bool>)
    ensures
        r@ == parent@.push(last),
{
    let mut r: Vec<bool> = Vec::new();
    let mut i: usize = 0;
    while i < parent.len()
        invariant
            i <= parent@.len(),
            r@ == parent@.take(i as int),
        decreases parent@.len() - i,
    {
        r.push(parent[i]);
        assert(parent@.take(i + 1) =~= parent@.take(i as int).push(parent@[i as int]));
        i = i + 1;
    }
    r.push(last);
    assert(parent@.take(parent@.len() as int) =~= parent@);
    r
}

fn copy_bools(v: &Vec<bool>) -> (r: Vec<bool>)
    ensures
        r@ == v@,
{
    let mut r: Vec<bool> = Vec::new();
    let mut i: usize = 0;
    while i < v.len()
        invariant
            i <= v@.len(),
            r@ == v@.take(i as int),
        decreases v@.len() - i,
    {
        r.push(v[i]);
        assert(v@.take(i + 1) =~= v@.take(i as int).push(v@[i as int]));
        i = i + 1;
    }
    assert(v@.take(v@.len() as int) =~= v@);
    r
}

fn in_suite(check: &CheckExecutionResult, id: &str) -> (r: bool)
    ensures
        r == (match check.context {
            CheckContext::Suite { suite_id } => suite_id@ == id@,
            CheckContext::Direct => false,
        }),
{
    match &check.context {
        CheckContext::Suite { suite_id } => crate::text::text_eq(suite_id.as_str(), id),
        CheckContext::Direct => false,
    }
}

fn push_suite_check_rows(
    rows: &mut Vec<(Vec<bool>, Vec<Segment>)>,
    checks: &Vec<CheckExecutionResult>,
    id: &str,
    parent: &Vec<bool>,
)
    ensures
        rows_view(final(rows)@) == rows_view(old(rows)@) + suite_check_rows(checks@, id@, parent@),
{
    let mut own: Vec<usize> = Vec::new();
    let mut i: usize = 0;
    while i < checks.len()
        invariant
            i <= checks@.len(),
            forall|p: int| 0 <= p < own@.len() ==> own@[p] < checks@.len(),
            Seq::new(own@.len(), |p: int| checks@[own@[p] as int]) == suite_checks(checks@.take(i as int), id@),
        decreases checks@.len() - i,
    {
        assert(checks@.take(i + 1).drop_last() =~= checks@.take(i as int));
        let ghost before = own@;
        if in_suite(&checks[i], id) {
            own.push(i);
            assert(Seq::new(own@.len(), |p: int| checks@[own@[p] as int]) =~= Seq::new(
                before.len(),
                |p: int| checks@[before[p] as int],
            ).push(checks@[i as int]));
        }
        i = i + 1;
    }
    assert(checks@.take(checks@.len() as int) =~= checks@);
    let ghost sc = suite_checks(checks@, id@);
    let ghost start = rows_view(rows@);
    let n = own.len();
    let mut p: usize = 0;
    while p < n
        invariant
            n == own@.len(),
            p <= n,
            forall|q: int| 0 <= q < own@.len() ==> own@[q] < checks@.len(),
            Seq::new(own@.len(), |q: int| checks@[own@[q] as int]) == sc,
            sc == suite_checks(checks@, id@),
            rows_view(rows@) == start + suite_check_rows(checks@, id@, parent@).take(p as int),
        decreases n - p,
    {
        let branches = extended(parent, p + 1 == n);
        let check = &checks[own[p]];
        assert(*check == sc[p as int]);
        let line = check_row_line(check, &branches);
        let ghost before = rows@;
        rows.push((branches, line));
        proof {
            assert(rows_view(rows@) =~= rows_view(before).push((branches@, line_view(line))));
            assert(suite_check_rows(checks@, id@, parent@).take(p + 1) =~= suite_check_rows(checks@, id@, parent@).take(
                p as int,
            ).push(suite_check_rows(checks@, id@, parent@)[p as int]));
        }
        p = p + 1;
    }
    assert(suite_check_rows(checks@, id@, parent@).take(n as int) =~= suite_check_rows(checks@, id@, parent@));
}

/// A node of the group walk: whether it is a group, its identifier, and
/// its position in the tree.
struct PendingNode {
    is_group: bool,
    id: String,
    branches: Vec<bool>,
}

/// The pending nodes as walk nodes.
spec fn pending_view(stack: Seq<PendingNode>) -> Seq<(bool, Seq<char>, Seq<bool>)> {
    Seq::new(stack.len(), |j: int| (stack[j].is_group, stack[j].id@, stack[j].branches@))
}

fn push_members(report: &ValidationReport, stack: &mut Vec<PendingNode>, g: usize, branches: &Vec<bool>)
    requires
        g < report.groups@.len(),
    ensures
        pending_view(final(stack)@) == pending_view(old(stack)@) + member_nodes(
            report.groups@[g as int].members@,
            branches@,
        ),
{
    let members = &report.groups[g].members;
    let count = members.len();
    let ghost start = pending_view(stack@);
    let ghost nodes = member_nodes(members@, branches@);
    let mut m: usize = count;
    while m > 0
        invariant
            g < report.groups@.len(),
            members == &report.groups@[g as int].members,
            count == members@.len(),
            nodes == member_nodes(members@, branches@),
            m <= count,
            pending_view(stack@) == start + nodes.take(count - m),
        decreases m,
    {
        m = m - 1;
        let child = extended(branches, m + 1 == count);
        let node = match &members[m] {
            GroupMemberRef::Group { id } => PendingNode { is_group: true, id: owned(id.as_str()), branches: child },
            GroupMemberRef::Suite { id } => PendingNode { is_group: false, id: owned(id.as_str()), branches: child },
        };
        let ghost before = stack@;
        stack.push(node);
        assert((node.is_group, node.id@, node.branches@) == nodes[count - 1 - m]);
        assert(nodes.take(count - m) =~= nodes.take(count - 1 - m).push(nodes[count - 1 - m]));
        assert(pending_view(stack@) =~= pending_view(before).push((node.is_group, node.id@, node.branches@)));
    }
    assert(nodes.take(count as int) =~= nodes);
}

fn contains_text(list: &Vec<String>, id: &str) -> (r: bool)
    ensures
        r == views(list@).contains(id@),
{
    let mut i: usize = 0;
    while i < list.len()
        invariant
            i <= list@.len(),
            forall|k: int| 0 <= k < i ==> list@[k]@ != id@,
        decreases list@.len() - i,
    {
        if crate::text::text_eq(list[i].as_str(), id) {
            assert(views(list@)[i as int] == id@);
            return true;
        }
        i = i + 1;
    }
    false
}

/// The tree rows of a group selection: groups depth first, members in
/// order; a group or suite shown again is marked shared and not expanded.
#[verifier::spinoff_prover]
#[verifier::rlimit(60)]
fn group_rows(report: &ValidationReport, root: &str) -> (r: Vec<(Vec<bool>, Vec<Segment>)>)
    ensures
        rows_view(r@) == group_tree(*report, root@),
{
    let mut rows: Vec<(Vec<bool>, Vec<Segment>)> = Vec::new();
    let mut stack: Vec<PendingNode> = Vec::new();
    let mut seen_groups: Vec<String> = Vec::new();
    let mut seen_suites: Vec<String> = Vec::new();
    let g = match group_position(&report.groups, root) {
        Some(g) => g,
        None => {
            assert(rows_view(rows@) =~= Seq::empty());
            return rows;
        },
    };
    let empty: Vec<bool> = Vec::new();
    let line = group_row_line(&report.groups[g], &empty, false);
    rows.push((empty, line));
    seen_groups.push(owned(root));
    let no_branches: Vec<bool> = Vec::new();
    assert(pending_view(stack@) =~= Seq::empty());
    push_members(report, &mut stack, g, &no_branches);
    let mut expanded: usize = 1;
    let ghost target = group_tree(*report, root@);
    assert(views(seen_groups@) =~= seq![root@]);
    assert(views(seen_suites@) =~= Seq::<Seq<char>>::empty());
    assert(pending_view(stack@) =~= member_nodes(report.groups@[g as int].members@, Seq::empty()));
    assert(rows_view(rows@) =~= seq![(Seq::<bool>::empty(), group_row(report.groups@[g as int], Seq::empty(), false))]);
    while stack.len() > 0
        invariant
            target == group_tree(*report, root@),
            expanded <= report.groups@.len(),
            rows_view(rows@) + walk_rows(
                *report,
                pending_view(stack@),
                views(seen_groups@),
                views(seen_suites@),
                expanded as nat,
            ) == target,
        decreases report.groups@.len() - expanded, stack@.len(),
    {
        let ghost before_rows = rows_view(rows@);
        let ghost before_stack = pending_view(stack@);
        let ghost before_seen_groups = views(seen_groups@);
        let ghost before_seen_suites = views(seen_suites@);
        let ghost before_expanded = expanded as nat;
        let ghost before_pending = stack@;
        let node = stack.pop().unwrap();
        assert(pending_view(stack@) =~= before_stack.drop_last());
        assert(before_stack.last() == (node.is_group, node.id@, node.branches@));
        assert(before_pending[before_pending.len() - 1] == node);
        if node.is_group {
            let g = match group_position(&report.groups, node.id.as_str()) {
                Some(g) => g,
                None => {
                    assert(walk_rows(*report, before_stack, before_seen_groups, before_seen_suites, expanded as nat)
                        =~= Seq::empty());
                    assert(rows_view(rows@) + Seq::<(Seq<bool>, Seq<Piece>)>::empty() =~= rows_view(rows@));
                    return rows;
                },
            };
            let reused = contains_text(&seen_groups, node.id.as_str());
            if !reused {
                seen_groups.push(owned(node.id.as_str()));
                assert(views(seen_groups@) =~= before_seen_groups.push(node.id@));
            }
            let line = group_row_line(&report.groups[g], &node.branches, reused);
            // Each expansion is of a group not shown before, so expansions
            // never outnumber the groups.
            let expand = !reused && expanded < report.groups.len();
            if expand {
                push_members(report, &mut stack, g, &node.branches);
                expanded = expanded + 1;
            }
            let ghost row = (node.branches@, line_view(line));
            rows.push((node.branches, line));
            assert(rows_view(rows@) =~= before_rows.push(row));
            assert(before_rows.push(row) =~= before_rows + seq![row]);
        } else {
            let s = match suite_position(&report.suites, node.id.as_str()) {
                Some(s) => s,
                None => {
                    assert(walk_rows(*report, before_stack, before_seen_groups, before_seen_suites, expanded as nat)
                        =~= Seq::empty());
                    assert(rows_view(rows@) + Seq::<(Seq<bool>, Seq<Piece>)>::empty() =~= rows_view(rows@));
                    return rows;
                },
            };
            let reused = contains_text(&seen_suites, node.id.as_str());
            if !reused {
                seen_suites.push(owned(node.id.as_str()));
                assert(views(seen_suites@) =~= before_seen_suites.push(node.id@));
            }
            let line = suite_row_line(&report.suites[s], &node.branches, reused);
            let parent = copy_bools(&node.branches);
            let ghost row = (node.branches@, line_view(line));
            rows.push((node.branches, line));
            assert(rows_view(rows@) =~= before_rows.push(row));
            let ghost pushed = rows_view(rows@);
            if !reused {
                push_suite_check_rows(&mut rows, &report.checks, node.id.as_str(), &parent);
            } else {
                assert(pushed + Seq::<(Seq<bool>, Seq<Piece>)>::empty() =~= pushed);
            }
        }
        assert(rows_view(rows@) + walk_rows(
            *report,
            pending_view(stack@),
            views(seen_groups@),
            views(seen_suites@),
            expanded as nat,
        ) =~= target);
    }
    assert(pending_view(stack@) =~= Seq::empty());
    assert(rows_view(rows@) + Seq::<(Seq<bool>, Seq<Piece>)>::empty() =~= rows_view(rows@));
    rows
}

/// The execution tree of a report, decided by its selection.
fn tree_rows(report: &ValidationReport) -> (r: Vec<(Vec<bool>, Vec<Segment>)>)
    ensures
        rows_view(r@) == execution_tree(*report),
{
    let mut rows: Vec<(Vec<bool>, Vec<Segment>)> = Vec::new();
    match &report.selection {
        ValidationSelection::Check { id } => {
            match first_check_with(&report.checks, id.as_str()) {
                Some(k) => {
                    let empty: Vec<bool> = Vec::new();
                    let line = check_row_line(&report.checks[k], &empty);
                    rows.push((empty, line));
                    assert(rows_view(rows@) =~= check_tree(*report, id@));
                },
                None => {
                    assert(rows_view(rows@) =~= check_tree(*report, id@));
                },
            }
            rows
        },
        ValidationSelection::Suite { id } => {
            match suite_position(&report.suites, id.as_str()) {
                Some(k) => {
                    let empty: Vec<bool> = Vec::new();
                    let parent: Vec<bool> = Vec::new();
                    let line = suite_row_line(&report.suites[k], &empty, false);
                    rows.push((empty, line));
                    let ghost head = rows_view(rows@);
                    push_suite_check_rows(&mut rows, &report.checks, id.as_str(), &parent);
                    assert(parent@ =~= Seq::<bool>::empty());
                    assert(rows_view(rows@) =~= suite_tree(*report, id@));
                },
                None => {
                    assert(rows_view(rows@) =~= suite_tree(*report, id@));
                },
            }
            rows
        },
        ValidationSelection::Group { id } => group_rows(report, id.as_str()),
    }
}

/// Renders a completed report with the spacing of the selected theme.
///
/// The lines are the result frame: the selection, result and duration;
/// each tool; the execution tree; each counted outcome with diagnostics
/// for those that did not pass; and the counts. A check selection shows
/// the first result of the check as its tree, a suite selection the suite
/// and its checks, and a group selection the group tree from the root.
pub fn render(report: &ValidationReport, theme: &Theme) -> (r: Vec<Vec<Segment>>)
    ensures
        lines_view(r@) == rendered_lines(*report, theme.presentation()),
{
    let section = theme.section_gap();
    let item = theme.item_gap();
    let mut out: Vec<Vec<Segment>> = Vec::new();
    proof {
        reveal_strlit("╭");
        reveal_strlit("├");
        reveal_strlit("╰");
    }
    let ghost sg = section as nat;
    let ghost ig = item as nat;
    push_line(&mut out, frame_line(theme, "╭", "Workspace Validator · Result", Role::Heading));
    push_guides(&mut out, section);
    push_items(&mut out, metadata_lines(report), item);
    push_guides(&mut out, section);
    push_line(&mut out, frame_line(theme, "├", "Tools", Role::Section));
    push_guides(&mut out, section);
    push_items(&mut out, tool_lines(&report.tools), item);
    push_guides(&mut out, section);
    push_line(&mut out, frame_line(theme, "├", "Execution tree", Role::Section));
    push_guides(&mut out, section);
    let rows = tree_rows(report);
    let ghost tree = rows_view(rows@);
    push_tree(&mut out, rows, item);
    push_guides(&mut out, section);
    push_line(&mut out, frame_line(theme, "├", "Counted outcomes", Role::Section));
    push_guides(&mut out, section);
    push_items(&mut out, outcome_lines(report), item);
    push_guides(&mut out, section);
    push_items(&mut out, summary_lines(report), item);
    push_guides(&mut out, section);
    push_line(&mut out, frame_line(theme, "╰", "Validation complete", Role::Border));
    assert(lines_view(out@) =~= report_lines(*report, sg, ig, tree));
    out
}

} // verus!
