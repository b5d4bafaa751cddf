//! Pure formatting shared by execution and result presentation.
//!
//! Durations are written with fractional seconds, which is floating-point
//! formatting; that stays with the code that prints them.

use vstd::prelude::*;
use crate::contracts::report::{Status, Summary, ValidationSelection};
use crate::text::{concat2, decimal, decimal_text, join_strings, join_texts, owned, views};

verus! {

/// How a selection is named in headings.
pub open spec fn selection_text(selection: ValidationSelection) -> Seq<char> {
    match selection {
        ValidationSelection::Group { id } => "group "@ + id@,
        ValidationSelection::Suite { id } => "suite "@ + id@,
        ValidationSelection::Check { id } => "check "@ + id@,
    }
}

/// Names a selection for headings.
pub fn format_selection(selection: &ValidationSelection) -> (r: String)
    ensures
        r@ == selection_text(*selection),
{
    match selection {
        ValidationSelection::Group { id } => concat2("group ", id.as_str()),
        ValidationSelection::Suite { id } => concat2("suite ", id.as_str()),
        ValidationSelection::Check { id } => concat2("check ", id.as_str()),
    }
}

/// The stable upper-case label of a status.
pub open spec fn status_text(status: Status) -> Seq<char> {
    match status {
        Status::Pass => "PASS"@,
        Status::Fail => "FAIL"@,
        Status::Blocked => "BLOCKED"@,
        Status::Skipped => "SKIPPED"@,
    }
}

/// Returns the stable upper-case label of a status.
pub fn status_label(status: Status) -> (r: &'static str)
    ensures
        r@ == status_text(status),
{
    match status {
        Status::Pass => "PASS",
        Status::Fail => "FAIL",
        Status::Blocked => "BLOCKED",
        Status::Skipped => "SKIPPED",
    }
}

/// `count label`, or nothing for a zero count.
pub open spec fn count_part(count: usize, label: Seq<char>) -> Seq<Seq<char>> {
    if count > 0 {
        seq![decimal_text(count as nat) + " "@ + label]
    } else {
        Seq::empty()
    }
}

/// The text of a summary: the plain check count when every check passed,
/// otherwise the non-zero counts of each status, in a fixed order.
pub open spec fn summary_text(summary: Summary) -> Seq<char> {
    if summary.fail == 0 && summary.blocked == 0 && summary.skipped == 0 {
        decimal_text(summary.pass as nat) + (if summary.pass == 1 {
            " check"@
        } else {
            " checks"@
        })
    } else {
        join_texts(
            count_part(summary.pass, "pass"@) + count_part(summary.fail, "fail"@) + count_part(summary.blocked, "blocked"@)
                + count_part(summary.skipped, "skipped"@),
            " · "@,
        )
    }
}

/// `part` appears in `text` as a contiguous run of characters.
pub open spec fn has_infix(text: Seq<char>, part: Seq<char>) -> bool {
    exists|i: int| 0 <= i && i + part.len() <= text.len() && #[trigger] text.subrange(i, i + part.len()) == part
}

proof fn lemma_join_holds_parts(parts: Seq<Seq<char>>, sep: Seq<char>, k: int)
    requires
        0 <= k < parts.len(),
    ensures
        has_infix(join_texts(parts, sep), parts[k]),
    decreases parts.len(),
{
    let t = join_texts(parts, sep);
    if parts.len() == 1 {
        let i: int = 0;
        assert(t.subrange(i, i + parts[k].len()) =~= parts[k]);
    } else {
        let head = parts.drop_last();
        let j = join_texts(head, sep);
        assert(t == j + sep + parts.last());
        if k == parts.len() - 1 {
            let i = (j.len() + sep.len()) as int;
            assert(t.subrange(i, i + parts[k].len()) =~= parts[k]);
        } else {
            lemma_join_holds_parts(head, sep, k);
            let i = choose|i: int| 0 <= i && i + head[k].len() <= j.len() && #[trigger] j.subrange(i, i + head[k].len()) == head[k];
            assert(t.subrange(i, i + parts[k].len()) =~= j.subrange(i, i + head[k].len()));
        }
    }
}

proof fn lemma_join_ends(parts: Seq<Seq<char>>, sep: Seq<char>)
    requires
        parts.len() > 0,
    ensures
        join_texts(parts, sep).len() >= parts[0].len(),
        join_texts(parts, sep).subrange(0, parts[0].len() as int) == parts[0],
        join_texts(parts, sep).len() >= parts.last().len(),
        join_texts(parts, sep).subrange(join_texts(parts, sep).len() - parts.last().len(), join_texts(parts, sep).len() as int)
            == parts.last(),
    decreases parts.len(),
{
    let t = join_texts(parts, sep);
    if parts.len() == 1 {
        assert(t.subrange(0, parts[0].len() as int) =~= parts[0]);
        assert(t.subrange(t.len() - parts.last().len(), t.len() as int) =~= parts.last());
    } else {
        let head = parts.drop_last();
        lemma_join_ends(head, sep);
        let j = join_texts(head, sep);
        assert(t == j + sep + parts.last());
        assert(head[0] == parts[0]);
        assert(t.subrange(0, parts[0].len() as int) =~= j.subrange(0, head[0].len() as int));
        assert(t.subrange(t.len() - parts.last().len(), t.len() as int) =~= parts.last());
    }
}

/// A summary line with some count other than pass lists its counts in a
/// fixed order: it opens with the pass count when there is one, and closes
/// with the skipped count when there is one.
pub proof fn lemma_summary_count_order(summary: Summary)
    requires
        summary.fail > 0 || summary.blocked > 0 || summary.skipped > 0,
    ensures
        summary.pass > 0 ==> {
            let part = decimal_text(summary.pass as nat) + " "@ + "pass"@;
            summary_text(summary).len() >= part.len() && summary_text(summary).subrange(0, part.len() as int) == part
        },
        summary.skipped > 0 ==> {
            let part = decimal_text(summary.skipped as nat) + " "@ + "skipped"@;
            let t = summary_text(summary);
            t.len() >= part.len() && t.subrange(t.len() - part.len(), t.len() as int) == part
        },
{
    let p = count_part(summary.pass, "pass"@);
    let f = count_part(summary.fail, "fail"@);
    let b = count_part(summary.blocked, "blocked"@);
    let k = count_part(summary.skipped, "skipped"@);
    let parts = p + f + b + k;
    assert(summary_text(summary) == join_texts(parts, " · "@));
    assert(parts.len() > 0);
    lemma_join_ends(parts, " · "@);
    if summary.pass > 0 {
        assert(parts[0] == decimal_text(summary.pass as nat) + " "@ + "pass"@);
    }
    if summary.skipped > 0 {
        assert(parts.last() == decimal_text(summary.skipped as nat) + " "@ + "skipped"@);
    }
}

/// A summary line names every non-zero count: when every counted result
/// passed it is the check count, and otherwise each non-zero count of pass,
/// fail, blocked and skipped appears as the number and its label.
pub proof fn lemma_summary_names_counts(summary: Summary)
    ensures
        summary.fail == 0 && summary.blocked == 0 && summary.skipped == 0 ==> summary_text(summary)
            == decimal_text(summary.pass as nat) + (if summary.pass == 1 {
            " check"@
        } else {
            " checks"@
        }),
        summary.fail > 0 || summary.blocked > 0 || summary.skipped > 0 ==> {
            &&& summary.pass > 0 ==> has_infix(summary_text(summary), decimal_text(summary.pass as nat) + " "@ + "pass"@)
            &&& summary.fail > 0 ==> has_infix(summary_text(summary), decimal_text(summary.fail as nat) + " "@ + "fail"@)
            &&& summary.blocked > 0 ==> has_infix(summary_text(summary), decimal_text(summary.blocked as nat) + " "@ + "blocked"@)
            &&& summary.skipped > 0 ==> has_infix(summary_text(summary), decimal_text(summary.skipped as nat) + " "@ + "skipped"@)
        },
{
    if summary.fail > 0 || summary.blocked > 0 || summary.skipped > 0 {
        let p = count_part(summary.pass, "pass"@);
        let f = count_part(summary.fail, "fail"@);
        let b = count_part(summary.blocked, "blocked"@);
        let k = count_part(summary.skipped, "skipped"@);
        let parts = p + f + b + k;
        assert(summary_text(summary) == join_texts(parts, " · "@));
        if summary.pass > 0 {
            assert(parts[0] == decimal_text(summary.pass as nat) + " "@ + "pass"@);
            lemma_join_holds_parts(parts, " · "@, 0);
        }
        if summary.fail > 0 {
            assert(parts[p.len() as int] == decimal_text(summary.fail as nat) + " "@ + "fail"@);
            lemma_join_holds_parts(parts, " · "@, p.len() as int);
        }
        if summary.blocked > 0 {
            assert(parts[(p.len() + f.len()) as int] == decimal_text(summary.blocked as nat) + " "@ + "blocked"@);
            lemma_join_holds_parts(parts, " · "@, (p.len() + f.len()) as int);
        }
        if summary.skipped > 0 {
            assert(parts[(p.len() + f.len() + b.len()) as int] == decimal_text(summary.skipped as nat) + " "@ + "skipped"@);
            lemma_join_holds_parts(parts, " · "@, (p.len() + f.len() + b.len()) as int);
        }
    }
}

fn push_count(parts: &mut Vec<String>, count: usize, label: &str)
    ensures
        views(final(parts)@) == views(old(parts)@) + count_part(count, label@),
{
    if count > 0 {
        let mut part = decimal(count as u64);
        part.append(" ");
        part.append(label);
        let ghost before = parts@;
        parts.push(part);
        assert(parts@ == before.push(part));
        assert(views(parts@) =~= views(before) + count_part(count, label@));
    } else {
        assert(views(parts@) =~= views(parts@) + count_part(count, label@));
    }
}

/// Renders a summary, omitting zero counts.
pub fn format_summary(summary: &Summary) -> (r: String)
    ensures
        r@ == summary_text(*summary),
{
    if summary.fail == 0 && summary.blocked == 0 && summary.skipped == 0 {
        let mut r = decimal(summary.pass as u64);
        if summary.pass == 1 {
            r.append(" check");
        } else {
            r.append(" checks");
        }
        return r;
    }
    let mut parts: Vec<String> = Vec::new();
    push_count(&mut parts, summary.pass, "pass");
    push_count(&mut parts, summary.fail, "fail");
    push_count(&mut parts, summary.blocked, "blocked");
    push_count(&mut parts, summary.skipped, "skipped");
    assert(views(parts@) =~= count_part(summary.pass, "pass"@) + count_part(summary.fail, "fail"@) + count_part(
        summary.blocked,
        "blocked"@,
    ) + count_part(summary.skipped, "skipped"@));
    join_strings(&parts, " · ")
}

} // verus!
