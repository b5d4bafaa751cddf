//! The content of interactive execution progress.
//!
//! Progress bars and their timing belong to the terminal; this module
//! decides what each line says, in which roles, where it sits in the tree,
//! and how its progress template is written.

use vstd::prelude::*;
use crate::contracts::report::{OverallResult, Status, Summary, ValidationSelection};
use crate::execution::progress::{phase_label, phase_text, ProgressPhase};
use crate::planning::ExecutionNodeRef;
use crate::reporting::format::{format_selection, format_summary, selection_text, status_label, status_text, summary_text};
use crate::reporting::result::{line_view, piece_of, status_role, Piece, Segment};
use crate::reporting::theme::{metrics_spec, Role, Theme};
use crate::text::{char_vec, concat2, decimal, decimal_text, owned, text_of, views};

verus! {

/// The status shown for an overall result.
pub open spec fn result_status(result: OverallResult) -> Status {
    match result {
        OverallResult::Pass => Status::Pass,
        OverallResult::Fail => Status::Fail,
        OverallResult::Blocked => Status::Blocked,
    }
}

/// Returns the status shown for an overall result.
pub fn summary_status(result: OverallResult) -> (r: Status)
    ensures
        r == result_status(result),
{
    match result {
        OverallResult::Pass => Status::Pass,
        OverallResult::Fail => Status::Fail,
        OverallResult::Blocked => Status::Blocked,
    }
}

/// Returns the role a status is painted in.
pub fn role_of_status(status: Status) -> (r: Role)
    ensures
        r == status_role(status),
{
    match status {
        Status::Pass => Role::Success,
        Status::Fail => Role::Failure,
        Status::Blocked => Role::Blocked,
        Status::Skipped => Role::Skipped,
    }
}

/// Guide lines before a tree item: the stage gap at the top level, the
/// item gap below it.
pub fn tree_gap_size(theme: &Theme, branches: &[bool]) -> (r: usize)
    ensures
        r == (if branches@.len() == 0 {
            metrics_spec(theme.presentation()).execution_gap
        } else {
            metrics_spec(theme.presentation()).item_gap
        }),
{
    if branches.len() == 0 {
        theme.execution_gap()
    } else {
        theme.item_gap()
    }
}

/// A progress-template placeholder, with its style modifier when there is one.
pub open spec fn placeholder_text(field: Seq<char>, modifier: Seq<char>) -> Seq<char> {
    if modifier.len() == 0 {
        "{"@ + field + "}"@
    } else {
        "{"@ + field + ":"@ + modifier + "}"@
    }
}

/// Writes a progress-template placeholder, with its style modifier when there is one.
pub fn styled_placeholder(field: &str, modifier: &str) -> (r: String)
    ensures
        r@ == placeholder_text(field@, modifier@),
{
    let mut r = concat2("{", field);
    if modifier.unicode_len() != 0 {
        r.append(":");
        r.append(modifier);
    }
    r.append("}");
    r
}

/// `s` without leading dots.
pub open spec fn trim_dots(s: Seq<char>) -> Seq<char>
    decreases s.len(),
{
    if s.len() > 0 && s[0] == '.' {
        trim_dots(s.drop_first())
    } else {
        s
    }
}

proof fn lemma_trim_dots(s: Seq<char>, a: int)
    requires
        0 <= a <= s.len(),
        forall|k: int| 0 <= k < a ==> #[trigger] s[k] == '.',
        a == s.len() || s[a] != '.',
    ensures
        trim_dots(s) == s.skip(a),
    decreases a,
{
    if a > 0 {
        assert forall|k: int| 0 <= k < a - 1 implies #[trigger] s.drop_first()[k] == '.' by {
            assert(s.drop_first()[k] == s[k + 1]);
        }
        lemma_trim_dots(s.drop_first(), a - 1);
        assert(s.drop_first().skip(a - 1) =~= s.skip(a));
    } else {
        assert(s.skip(0) =~= s);
    }
}

/// The progress-bar placeholder of a width, with its complete and pending styles.
pub open spec fn bar_text(width: usize, complete: Seq<char>, pending: Seq<char>) -> Seq<char> {
    if complete.len() == 0 && pending.len() == 0 {
        "{bar:"@ + decimal_text(width as nat) + "}"@
    } else {
        "{bar:"@ + decimal_text(width as nat) + complete + "/"@ + trim_dots(pending) + "}"@
    }
}

/// Writes the progress-bar placeholder of a width, with its complete and
/// pending styles.
pub fn bar_placeholder(width: usize, complete: &str, pending: &str) -> (r: String)
    ensures
        r@ == bar_text(width, complete@, pending@),
{
    let mut r = owned("{bar:");
    r.append(decimal(width as u64).as_str());
    if complete.unicode_len() == 0 && pending.unicode_len() == 0 {
        r.append("}");
        return r;
    }
    r.append(complete);
    r.append("/");
    let cs = char_vec(pending);
    let mut a: usize = 0;
    while a < cs.len() && cs[a] == '.'
        invariant
            a <= cs@.len(),
            forall|k: int| 0 <= k < a ==> #[trigger] cs@[k] == '.',
        decreases cs@.len() - a,
    {
        a = a + 1;
    }
    proof {
        lemma_trim_dots(pending@, a as int);
        assert(cs@.skip(a as int) =~= cs@.subrange(a as int, cs@.len() as int));
    }
    r.append(text_of(&cs, a, cs.len()).as_str());
    r.append("}");
    r
}

/// The ASCII lower-case form of a character.
pub open spec fn ascii_lower(c: char) -> char {
    if 'A' <= c && c <= 'Z' {
        ((c as u8) + 32) as char
    } else {
        c
    }
}

/// Two texts are equal once ASCII letters are lower-cased.
pub open spec fn same_ignoring_ascii_case(a: Seq<char>, b: Seq<char>) -> bool {
    a.len() == b.len() && forall|k: int| 0 <= k < a.len() ==> ascii_lower(#[trigger] a[k]) == ascii_lower(b[k])
}

fn lower(c: char) -> (r: char)
    ensures
        r == ascii_lower(c),
{
    if 'A' <= c && c <= 'Z' {
        let code: u8 = (c as u8) + 32;
        code as char
    } else {
        c
    }
}

/// Compares two texts ignoring the case of ASCII letters.
pub fn eq_ignore_ascii_case(a: &str, b: &str) -> (r: bool)
    ensures
        r == same_ignoring_ascii_case(a@, b@),
{
    let ca = char_vec(a);
    let cb = char_vec(b);
    if ca.len() != cb.len() {
        return false;
    }
    let mut i: usize = 0;
    while i < ca.len()
        invariant
            ca@ == a@,
            cb@ == b@,
            ca@.len() == cb@.len(),
            i <= ca@.len(),
            forall|k: int| 0 <= k < i ==> ascii_lower(#[trigger] ca@[k]) == ascii_lower(cb@[k]),
        decreases ca@.len() - i,
    {
        if lower(ca[i]) != lower(cb[i]) {
            return false;
        }
        i = i + 1;
    }
    true
}

/// The message of a suite line while one of its checks runs: the check
/// alone when the labels agree, else the suite, an arrow, and the check.
pub open spec fn active_check_pieces(suite_label: Seq<char>, check_label: Seq<char>) -> Seq<Piece> {
    if same_ignoring_ascii_case(suite_label, check_label) {
        seq![Piece::Painted(Role::Check, suite_label)]
    } else {
        seq![Piece::Text(suite_label + " › "@), Piece::Painted(Role::Check, check_label)]
    }
}

/// The message of a suite line while one of its checks runs.
pub fn active_check_message(suite_label: &str, check_label: &str) -> (r: Vec<Segment>)
    ensures
        line_view(r) == active_check_pieces(suite_label@, check_label@),
{
    let r = if eq_ignore_ascii_case(suite_label, check_label) {
        vec![Segment::Painted(Role::Check, owned(suite_label))]
    } else {
        vec![Segment::Text(concat2(suite_label, " › ")), Segment::Painted(Role::Check, owned(check_label))]
    };
    assert(line_view(r) =~= active_check_pieces(suite_label@, check_label@));
    r
}

/// The key of a node of the execution tree: its membership path.
pub open spec fn node_key_text(path: Seq<ExecutionNodeRef>) -> Seq<char>
    decreases path.len(),
{
    if path.len() == 0 {
        Seq::empty()
    } else {
        let step = match path.last() {
            ExecutionNodeRef::Group { id } => "g:"@ + id@,
            ExecutionNodeRef::Suite { id } => "s:"@ + id@,
        };
        if path.len() == 1 {
            step
        } else {
            node_key_text(path.drop_last()) + "/"@ + step
        }
    }
}

/// Returns the key of a node of the execution tree: each step of its
/// membership path, `g:` or `s:` and the identifier, joined by `/`.
pub fn key(path: &[ExecutionNodeRef]) -> (r: String)
    ensures
        r@ == node_key_text(path@),
{
    let mut r = String::new();
    let mut i: usize = 0;
    while i < path.len()
        invariant
            i <= path@.len(),
            r@ == node_key_text(path@.take(i as int)),
        decreases path@.len() - i,
    {
        assert(path@.take(i + 1).drop_last() =~= path@.take(i as int));
        if i > 0 {
            r.append("/");
        }
        match &path[i] {
            ExecutionNodeRef::Group { id } => {
                r.append("g:");
                r.append(id.as_str());
            },
            ExecutionNodeRef::Suite { id } => {
                r.append("s:");
                r.append(id.as_str());
            },
        }
        i = i + 1;
    }
    assert(path@.take(path@.len() as int) =~= path@);
    r
}

/// The tree position of a node given its parent's, when the parent is
/// shown: the parent's position and whether the parent's bar is on its
/// last unit; `false` at every level when the parent is not shown.
pub open spec fn child_position(
    depth: nat,
    parent: Option<(Seq<bool>, u64, Option<u64>)>,
) -> Seq<bool> {
    if depth <= 1 {
        Seq::empty()
    } else {
        match parent {
            None => Seq::new((depth - 1) as nat, |i: int| false),
            Some((branches, position, length)) => branches.push(
                match length {
                    None => true,
                    Some(total) => position + 1 >= total,
                },
            ),
        }
    }
}

/// Derives a tree position from the parent's progress before the child
/// advances it, so that presentation follows the declared member order.
pub fn branches_for(depth: usize, parent: Option<(&Vec<bool>, u64, Option<u64>)>) -> (r: Vec<bool>)
    ensures
        r@ == child_position(
            depth as nat,
            match parent {
                Some((b, p, l)) => Some((b@, p, l)),
                None => None,
            },
        ),
{
    let mut r: Vec<bool> = Vec::new();
    if depth <= 1 {
        assert(r@ =~= Seq::<bool>::empty());
        return r;
    }
    match parent {
        None => {
            let mut i: usize = 0;
            while i < depth - 1
                invariant
                    depth > 1,
                    i <= depth - 1,
                    r@ == Seq::new(i as nat, |k: int| false),
                decreases depth - 1 - i,
            {
                r.push(false);
                assert(r@ =~= Seq::new((i + 1) as nat, |k: int| false));
                i = i + 1;
            }
            r
        },
        Some((branches, position, length)) => {
            let mut i: usize = 0;
            while i < branches.len()
                invariant
                    i <= branches@.len(),
                    r@ == branches@.take(i as int),
                decreases branches@.len() - i,
            {
                r.push(branches[i]);
                assert(branches@.take(i + 1) =~= branches@.take(i as int).push(branches@[i as int]));
                i = i + 1;
            }
            assert(branches@.take(branches@.len() as int) =~= branches@);
            let last = match length {
                None => true,
                Some(total) => position >= total || total - position <= 1,
            };
            r.push(last);
            r
        },
    }
}

/// The heading of the execution frame.
pub open spec fn execution_heading_text(selection: ValidationSelection) -> Seq<char> {
    "Workspace Validator · Execution · "@ + selection_text(selection)
}

/// Returns the heading of the execution frame.
pub fn execution_heading(selection: &ValidationSelection) -> (r: String)
    ensures
        r@ == execution_heading_text(*selection),
{
    concat2("Workspace Validator · Execution · ", format_selection(selection).as_str())
}

/// What an active node line says: its kind and label.
pub open spec fn started_pieces(is_group: bool, label: Seq<char>) -> Seq<Piece> {
    seq![
        if is_group {
            Piece::Painted(Role::Group, "GROUP"@)
        } else {
            Piece::Painted(Role::Suite, "SUITE"@)
        },
        Piece::Text(" "@ + label),
    ]
}

fn kind_segment(is_group: bool) -> (r: Segment)
    ensures
        piece_of(r) == started_pieces(is_group, Seq::empty())[0],
{
    if is_group {
        Segment::Painted(Role::Group, owned("GROUP"))
    } else {
        Segment::Painted(Role::Suite, owned("SUITE"))
    }
}

/// Returns what an active node line says: its kind and label.
pub fn started_message(is_group: bool, label: &str) -> (r: Vec<Segment>)
    ensures
        line_view(r) == started_pieces(is_group, label@),
{
    let r = vec![kind_segment(is_group), Segment::Text(concat2(" ", label))];
    assert(line_view(r) =~= started_pieces(is_group, label@));
    r
}

/// What the line of a node shown again says: its kind, label, and summary.
pub open spec fn reused_pieces(is_group: bool, label: Seq<char>, summary: Summary) -> Seq<Piece> {
    seq![
        started_pieces(is_group, Seq::empty())[0],
        Piece::Text(" "@ + label + "  "@),
        Piece::Painted(Role::Shared, "reused"@),
        Piece::Text(" · "@ + summary_text(summary)),
    ]
}

/// Returns what the line of a node shown again says.
pub fn reused_message(is_group: bool, label: &str, summary: &Summary) -> (r: Vec<Segment>)
    ensures
        line_view(r) == reused_pieces(is_group, label@, *summary),
{
    let mut name = concat2(" ", label);
    name.append("  ");
    let r = vec![
        kind_segment(is_group),
        Segment::Text(name),
        Segment::Painted(Role::Shared, owned("reused")),
        Segment::Text(concat2(" · ", format_summary(summary).as_str())),
    ];
    assert(line_view(r) =~= reused_pieces(is_group, label@, *summary));
    r
}

/// What the line of a finished node says: its kind, label, summary, and
/// the duration of its checks.
pub open spec fn finished_pieces(is_group: bool, label: Seq<char>, summary: Summary, duration_ms: u64) -> Seq<Piece> {
    seq![
        started_pieces(is_group, Seq::empty())[0],
        Piece::Text(" "@ + label + "  "@ + summary_text(summary) + " · "@),
        Piece::Duration(duration_ms),
    ]
}

/// Returns what the line of a finished node says.
pub fn finished_message(is_group: bool, label: &str, summary: &Summary, duration_ms: u64) -> (r: Vec<Segment>)
    ensures
        line_view(r) == finished_pieces(is_group, label@, *summary, duration_ms),
{
    let mut text = concat2(" ", label);
    text.append("  ");
    text.append(format_summary(summary).as_str());
    text.append(" · ");
    let r = vec![kind_segment(is_group), Segment::Text(text), Segment::Duration(duration_ms)];
    assert(line_view(r) =~= finished_pieces(is_group, label@, *summary, duration_ms));
    r
}

/// What the line of a running direct check says: its position and label.
pub open spec fn direct_started_pieces(position: usize, total: usize, label: Seq<char>) -> Seq<Piece> {
    seq![
        Piece::Text("["@ + decimal_text(position as nat) + "/"@ + decimal_text(total as nat) + "] "@),
        Piece::Painted(Role::Check, label),
    ]
}

/// Returns what the line of a running direct check says.
pub fn direct_started_message(position: usize, total: usize, label: &str) -> (r: Vec<Segment>)
    ensures
        line_view(r) == direct_started_pieces(position, total, label@),
{
    let mut text = owned("[");
    text.append(decimal(position as u64).as_str());
    text.append("/");
    text.append(decimal(total as u64).as_str());
    text.append("] ");
    let r = vec![Segment::Text(text), Segment::Painted(Role::Check, owned(label))];
    assert(line_view(r) =~= direct_started_pieces(position, total, label@));
    r
}

/// What a finished direct check or phase says: its label and duration.
pub open spec fn labelled_duration_pieces(label: Piece, duration_ms: u64) -> Seq<Piece> {
    seq![label, Piece::Text("  "@), Piece::Duration(duration_ms)]
}

/// Returns what the line of a finished direct check says.
pub fn direct_finished_message(label: &str, duration_ms: u64) -> (r: Vec<Segment>)
    ensures
        line_view(r) == labelled_duration_pieces(Piece::Painted(Role::Check, label@), duration_ms),
{
    let r = vec![Segment::Painted(Role::Check, owned(label)), Segment::Text(owned("  ")), Segment::Duration(duration_ms)];
    assert(line_view(r) =~= labelled_duration_pieces(Piece::Painted(Role::Check, label@), duration_ms));
    r
}

/// Returns what the line of a finished phase says.
pub fn phase_finished_message(phase: ProgressPhase, duration_ms: u64) -> (r: Vec<Segment>)
    ensures
        line_view(r) == labelled_duration_pieces(Piece::Text(phase_text(phase)), duration_ms),
{
    let r = vec![Segment::Text(owned(phase_label(phase))), Segment::Text(owned("  ")), Segment::Duration(duration_ms)];
    assert(line_view(r) =~= labelled_duration_pieces(Piece::Text(phase_text(phase)), duration_ms));
    r
}

} // verus!
