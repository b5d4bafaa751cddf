//! Shared terminal tree geometry for execution and completed results.
//!
//! A node's position is described by one boolean per ancestry level, from the
//! root down: whether the node at that level is its parent's last child.

use vstd::prelude::*;
use crate::text::owned;

verus! {

/// The guide columns drawn for ancestors: a continuing line below an
/// ancestor that has later siblings, blank space below a last child.
pub open spec fn ancestor_columns(ancestors: Seq<bool>) -> Seq<char>
    decreases ancestors.len(),
{
    if ancestors.len() == 0 {
        Seq::empty()
    } else {
        ancestor_columns(ancestors.drop_last()) + (if ancestors.last() {
            "   "@
        } else {
            "│  "@
        })
    }
}

/// The visible prefix of a node at position `branches`.
pub open spec fn prefix_text(branches: Seq<bool>) -> Seq<char> {
    if branches.len() == 0 {
        "│ "@
    } else {
        "│ "@ + ancestor_columns(branches.drop_last()) + (if branches.last() {
            "└─ "@
        } else {
            "├─ "@
        })
    }
}

/// The connector-only row shown between spaced nodes at position `branches`.
pub open spec fn continuation_text(branches: Seq<bool>) -> Seq<char> {
    if branches.len() == 0 {
        "│"@
    } else {
        "│ "@ + ancestor_columns(branches.drop_last()) + "│"@
    }
}

fn push_ancestor_columns(out: &mut String, branches: &[bool], n: usize)
    requires
        n <= branches@.len(),
    ensures
        final(out)@ == old(out)@ + ancestor_columns(branches@.take(n as int)),
{
    let ghost start = out@;
    let mut i: usize = 0;
    while i < n
        invariant
            n <= branches@.len(),
            i <= n,
            out@ == start + ancestor_columns(branches@.take(i as int)),
        decreases n - i,
    {
        assert(branches@.take(i + 1).drop_last() =~= branches@.take(i as int));
        if branches[i] {
            out.append("   ");
        } else {
            out.append("│  ");
        }
        i = i + 1;
    }
}

/// Builds the visible prefix for one node from its position at each ancestry
/// level.
pub fn prefix(branches: &[bool]) -> (r: String)
    ensures
        r@ == prefix_text(branches@),
{
    let mut prefix = owned("│ ");
    let n = branches.len();
    if n == 0 {
        return prefix;
    }
    push_ancestor_columns(&mut prefix, branches, n - 1);
    assert(branches@.take(n - 1) =~= branches@.drop_last());
    if branches[n - 1] {
        prefix.append("└─ ");
    } else {
        prefix.append("├─ ");
    }
    prefix
}

/// Builds the connector-only row shown between spaced tree nodes.
pub fn continuation(branches: &[bool]) -> (r: String)
    ensures
        r@ == continuation_text(branches@),
{
    let n = branches.len();
    if n == 0 {
        return owned("│");
    }
    let mut continuation = owned("│ ");
    push_ancestor_columns(&mut continuation, branches, n - 1);
    assert(branches@.take(n - 1) =~= branches@.drop_last());
    continuation.append("│");
    continuation
}

} // verus!
