//! Iterative dependency-graph operations over identifier graphs.
//!
//! A graph is given as strictly sorted node identifiers and a strictly sorted
//! list of `(node, dependencies)` entries. Traversals are iterative so that
//! deeply nested user configuration cannot exhaust the call stack.

use vstd::prelude::*;
use crate::text::{
    join_strings, join_texts, keys_of, lemma_text_lt_irreflexive, owned, strictly_sorted, text_lt, views,
    find_key, insert_sorted, Keyed, entry_of, lemma_sorted_distinct,
};

verus! {

// ---------------------------------------------------------------------------
// Index graphs: node `i` has the ordered successors `adj[i]`.
// ---------------------------------------------------------------------------

/// Every successor in `adj` names a node of the graph.
pub open spec fn idx_closed(adj: Seq<Vec<usize>>) -> bool {
    forall|u: int, j: int| 0 <= u < adj.len() && 0 <= j < adj[u]@.len() ==> #[trigger] adj[u]@[j] < adj.len()
}

/// `b` is one of the successors of `a`.
pub open spec fn idx_edge(adj: Seq<Vec<usize>>, a: usize, b: usize) -> bool {
    &&& a < adj.len()
    &&& exists|j: int| 0 <= j < adj[a as int]@.len() && #[trigger] adj[a as int]@[j] == b
}

/// Consecutive elements of `p` are joined by edges.
pub open spec fn idx_path(adj: Seq<Vec<usize>>, p: Seq<usize>) -> bool {
    forall|k: int, l: int|
        0 <= k && l == k + 1 && l < p.len() ==> #[trigger] idx_edge(adj, p[k], p[l])
}

/// `p` is a closed walk of at least one edge.
pub open spec fn idx_cycle(adj: Seq<Vec<usize>>, p: Seq<usize>) -> bool {
    &&& p.len() >= 2
    &&& p[0] == p[p.len() - 1]
    &&& idx_path(adj, p)
}

/// No closed walk exists.
pub open spec fn idx_acyclic(adj: Seq<Vec<usize>>) -> bool {
    forall|p: Seq<usize>| !#[trigger] idx_cycle(adj, p)
}

/// Number of positions of `s` holding `v`.
pub open spec fn count_of(s: Seq<u8>, v: u8) -> nat
    decreases s.len(),
{
    if s.len() == 0 {
        0
    } else {
        count_of(s.drop_last(), v) + (if s.last() == v { 1nat } else { 0nat })
    }
}

pub proof fn lemma_count_update(s: Seq<u8>, i: int, b: u8, v: u8)
    requires
        0 <= i < s.len(),
    ensures
        count_of(s.update(i, b), v) + (if s[i] == v { 1int } else { 0int }) == count_of(s, v) + (
        if b == v { 1int } else { 0int }),
    decreases s.len(),
{
    let t = s.update(i, b);
    if i == s.len() - 1 {
        assert(t.drop_last() =~= s.drop_last());
    } else {
        assert(t.drop_last() =~= s.drop_last().update(i, b));
        lemma_count_update(s.drop_last(), i, b, v);
    }
}

/// Work left in one open traversal frame.
pub open spec fn frame_work(adj: Seq<Vec<usize>>, f: (usize, usize)) -> nat {
    let deg: int = if f.0 < adj.len() { adj[f.0 as int]@.len() as int } else { 0int };
    if f.1 > 0 && f.1 <= deg { (deg - f.1) as nat } else { 0nat }
}

/// Work left in the open frames of a traversal stack.
pub open spec fn pending_work(adj: Seq<Vec<usize>>, stack: Seq<(usize, usize)>) -> nat
    decreases stack.len(),
{
    if stack.len() == 0 {
        0
    } else {
        pending_work(adj, stack.drop_last()) + frame_work(adj, stack.last())
    }
}

pub proof fn lemma_pending_push(adj: Seq<Vec<usize>>, s: Seq<(usize, usize)>, f: (usize, usize))
    ensures
        pending_work(adj, s.push(f)) == pending_work(adj, s) + frame_work(adj, f),
{
    assert(s.push(f).drop_last() =~= s);
}

proof fn lemma_finish_decreases_along_path(
    adj: Seq<Vec<usize>>,
    state: Seq<u8>,
    finish: Seq<int>,
    p: Seq<usize>,
)
    requires
        idx_closed(adj),
        idx_path(adj, p),
        p.len() >= 2,
        state.len() == adj.len(),
        finish.len() == adj.len(),
        p[0] < adj.len(),
        state[p[0] as int] == 2,
        forall|u: int, j: int|
            0 <= u < adj.len() && 0 <= j < adj[u]@.len() && state[u] == 2 ==> state[
                #[trigger] adj[u]@[j] as int] == 2 && finish[adj[u]@[j] as int] < finish[u],
    ensures
        p[p.len() - 1] < adj.len(),
        finish[p[p.len() - 1] as int] < finish[p[0] as int],
        state[p[p.len() - 1] as int] == 2,
    decreases p.len(),
{
    assert(idx_edge(adj, p[0], p[1]));
    let j = choose|j: int| 0 <= j < adj[p[0] as int]@.len() && #[trigger] adj[p[0] as int]@[j] == p[1];
    assert(state[adj[p[0] as int]@[j] as int] == 2);
    assert(p[1] < adj.len());
    if p.len() > 2 {
        let q = p.drop_first();
        assert forall|k: int, l: int| 0 <= k && l == k + 1 && l < q.len() implies #[trigger] idx_edge(adj, q[k], q[l]) by {
            assert(idx_edge(adj, p[k + 1], p[l + 1]));
        }
        lemma_finish_decreases_along_path(adj, state, finish, q);
    }
}

/// The position of `x` in `path`, which holds it once.
pub open spec fn position_in(path: Seq<usize>, x: usize) -> int {
    choose|i: int| 0 <= i < path.len() && path[i] == x
}

/// One depth-first search for a closed walk, taking frames `(node, next
/// successor)` from the end of `stack`; `path` holds the nodes being
/// visited and `state` marks each node unvisited (0), being visited (1) or
/// done (2). A node is marked when its frame is first taken; each frame
/// then looks at its next successor: an unvisited one is visited next, one
/// being visited closes the walk from it along `path` back to it, which is
/// the result; after the last successor the node is done. Returns the final
/// marks and the closed walk found, if any. A frame that breaks these
/// rules ends the search.
pub open spec fn search_frames(
    adj: Seq<Vec<usize>>,
    state: Seq<u8>,
    stack: Seq<(usize, usize)>,
    path: Seq<usize>,
) -> (Seq<u8>, Option<Seq<usize>>)
    decreases count_of(state, 0), count_of(state, 1), pending_work(adj, stack),
{
    if stack.len() == 0 {
        (state, None)
    } else {
        let (id, index) = stack.last();
        let popped = stack.drop_last();
        if id >= state.len() || id >= adj.len() || (index == 0 && state[id as int] != 0) || (index > 0
            && state[id as int] != 1) {
            (state, None)
        } else {
            let entered = if index == 0 {
                state.update(id as int, 1)
            } else {
                state
            };
            let walk = if index == 0 {
                path.push(id)
            } else {
                path
            };
            let degree = adj[id as int]@.len();
            if index < degree {
                let child = adj[id as int]@[index as int];
                if child >= entered.len() || index + 1 > usize::MAX {
                    (entered, None)
                } else if entered[child as int] == 0 {
                    proof {
                        if index == 0 {
                            lemma_count_update(state, id as int, 1, 0);
                            lemma_count_update(state, id as int, 1, 1);
                        }
                        lemma_pending_push(adj, popped, (id, (index + 1) as usize));
                        lemma_pending_push(adj, popped.push((id, (index + 1) as usize)), (child, 0usize));
                        lemma_pending_push(adj, popped, (id, index));
                        assert(popped.push((id, index)) =~= stack);
                    }
                    search_frames(adj, entered, popped.push((id, (index + 1) as usize)).push((child, 0)), walk)
                } else if entered[child as int] == 1 {
                    (entered, Some(walk.subrange(position_in(walk, child), walk.len() as int).push(child)))
                } else {
                    proof {
                        if index == 0 {
                            lemma_count_update(state, id as int, 1, 0);
                            lemma_count_update(state, id as int, 1, 1);
                        }
                        lemma_pending_push(adj, popped, (id, (index + 1) as usize));
                        lemma_pending_push(adj, popped, (id, index));
                        assert(popped.push((id, index)) =~= stack);
                    }
                    search_frames(adj, entered, popped.push((id, (index + 1) as usize)), walk)
                }
            } else {
                proof {
                    if index == 0 {
                        assert(entered.update(id as int, 2) =~= state.update(id as int, 2));
                        lemma_count_update(state, id as int, 2, 0);
                        lemma_count_update(state, id as int, 2, 1);
                    } else {
                        lemma_count_update(state, id as int, 2, 0);
                        lemma_count_update(state, id as int, 2, 1);
                    }
                    lemma_pending_push(adj, popped, (id, index));
                    assert(popped.push((id, index)) =~= stack);
                }
                search_frames(adj, entered.update(id as int, 2), popped, walk.drop_last())
            }
        }
    }
}

/// The closed walk found by searching from each unvisited node in turn,
/// starting at `start`, if any.
pub open spec fn search_from(adj: Seq<Vec<usize>>, state: Seq<u8>, start: int) -> Option<Seq<usize>>
    decreases adj.len() - start,
{
    if start < 0 || start >= adj.len() || start >= state.len() {
        None
    } else if state[start] != 0 {
        search_from(adj, state, start + 1)
    } else {
        match search_frames(adj, state, seq![(start as usize, 0usize)], Seq::empty()) {
            (_, Some(cycle)) => Some(cycle),
            (marks, None) => search_from(adj, marks, start + 1),
        }
    }
}

/// The closed walk a depth-first search finds: nodes are tried in order,
/// successors in order, and the first successor met that is still being
/// visited closes the walk.
pub open spec fn first_cycle(adj: Seq<Vec<usize>>) -> Option<Seq<usize>> {
    search_from(adj, Seq::new(adj.len(), |i: int| 0u8), 0)
}

/// Searches the graph for a closed walk.
///
/// Returns a cycle, written as a closed walk whose first and last nodes agree,
/// or `None` exactly when the graph has none.
#[verifier::rlimit(60)]
pub fn find_cycle(adj: &Vec<Vec<usize>>) -> (r: Option<Vec<usize>>)
    requires
        idx_closed(adj@),
    ensures
        r is None <==> idx_acyclic(adj@),
        r matches Some(c) ==> idx_cycle(adj@, c@),
        first_cycle(adj@) == match r {
            Some(c) => Some(c@),
            None => None::<Seq<usize>>,
        },
{
    let n = adj.len();
    let mut state: Vec<u8> = Vec::new();
    let mut fill: usize = 0;
    while fill < n
        invariant
            fill <= n,
            state@.len() == fill,
            forall|u: int| 0 <= u < fill ==> state@[u] == 0,
        decreases n - fill,
    {
        state.push(0);
        fill = fill + 1;
    }
    let ghost mut finish: Seq<int> = Seq::new(n as nat, |i: int| 0int);
    let ghost mut clock: int = 0;
    let ghost target = first_cycle(adj@);
    assert(state@ =~= Seq::new(adj@.len(), |i: int| 0u8));
    let mut start: usize = 0;
    while start < n
        invariant
            target == first_cycle(adj@),
            search_from(adj@, state@, start as int) == target,
            n == adj@.len(),
            idx_closed(adj@),
            start <= n,
            state@.len() == n,
            finish.len() == n,
            forall|u: int| 0 <= u < n ==> state@[u] == 0 || state@[u] == 2,
            forall|u: int| 0 <= u < start ==> state@[u] == 2,
            forall|u: int, j: int|
                0 <= u < n && 0 <= j < adj@[u]@.len() && state@[u] == 2 ==> state@[
                    #[trigger] adj@[u]@[j] as int] == 2 && finish[adj@[u]@[j] as int] < finish[u],
            forall|u: int| 0 <= u < n && state@[u] == 2 ==> finish[u] < clock,
        decreases n - start,
    {
        if state[start] != 0 {
            start = start + 1;
            continue;
        }
        let mut stack: Vec<(usize, usize)> = Vec::new();
        stack.push((start, 0));
        let mut path: Vec<usize> = Vec::new();
        assert(stack@ =~= seq![(start, 0usize)]);
        assert(path@ =~= Seq::<usize>::empty());
        loop
            invariant_except_break
                target == first_cycle(adj@),
                match search_frames(adj@, state@, stack@, path@) {
                    (_, Some(cycle)) => Some(cycle),
                    (marks, None) => search_from(adj@, marks, start + 1),
                } == target,
                n == adj@.len(),
                idx_closed(adj@),
                start < n,
                state@.len() == n,
                finish.len() == n,
                forall|u: int| 0 <= u < n ==> state@[u] <= 2,
                forall|u: int| 0 <= u < start ==> state@[u] == 2,
                forall|u: int, j: int|
                    0 <= u < n && 0 <= j < adj@[u]@.len() && state@[u] == 2 ==> state@[
                        #[trigger] adj@[u]@[j] as int] == 2 && finish[adj@[u]@[j] as int]
                        < finish[u],
                forall|u: int| 0 <= u < n && state@[u] == 2 ==> finish[u] < clock,
                forall|u: int| 0 <= u < n && state@[u] == 1 ==> path@.contains(u as usize),
                path@.no_duplicates(),
                idx_path(adj@, path@),
                forall|i: int| 0 <= i < path@.len() ==> #[trigger] path@[i] < n && state@[path@[i] as int] == 1,
                stack@.len() == path@.len() || stack@.len() == path@.len() + 1,
                forall|i: int|
                    0 <= i < path@.len() ==> (#[trigger] stack@[i]).0 == path@[i] && 1 <= stack@[i].1
                        <= adj@[path@[i] as int]@.len(),
                forall|i: int, j: int|
                    0 <= i < path@.len() && 0 <= j < stack@[i].1 - 1 ==> state@[#[trigger] adj@[
                        path@[i] as int]@[j] as int] == 2,
                forall|i: int|
                    0 <= i < stack@.len() - 1 ==> adj@[path@[i] as int]@[(#[trigger] stack@[i]).1
                        - 1] == stack@[i + 1].0,
                stack@.len() == path@.len() && path@.len() > 0 ==> state@[adj@[path@.last() as int]@[
                    stack@.last().1 - 1] as int] == 2,
                stack@.len() == path@.len() + 1 ==> stack@.last().1 == 0 && stack@.last().0 < n
                    && state@[stack@.last().0 as int] == 0,
                stack@.len() == path@.len() + 1 && path@.len() == 0 ==> stack@.last().0 == start,
                state@[start as int] != 0 || (stack@.len() == 1 && stack@[0] == (start, 0usize)),
            ensures
                search_from(adj@, state@, start + 1) == target,
                state@.len() == n,
                finish.len() == n,
                forall|u: int| 0 <= u < n ==> state@[u] == 0 || state@[u] == 2,
                forall|u: int| 0 <= u <= start ==> state@[u] == 2,
                forall|u: int, j: int|
                    0 <= u < n && 0 <= j < adj@[u]@.len() && state@[u] == 2 ==> state@[
                        #[trigger] adj@[u]@[j] as int] == 2 && finish[adj@[u]@[j] as int]
                        < finish[u],
                forall|u: int| 0 <= u < n && state@[u] == 2 ==> finish[u] < clock,
            decreases count_of(state@, 0), count_of(state@, 1), pending_work(adj@, stack@),
        {
            let ghost old_stack = stack@;
            let ghost old_marks = state@;
            let ghost old_walk = path@;
            let frame = match stack.pop() {
                Some(frame) => frame,
                None => {
                    break;
                },
            };
            let ghost popped = stack@;
            let id = frame.0;
            let index = frame.1;
            proof {
                assert(old_stack =~= popped.push(frame));
                lemma_pending_push(adj@, popped, frame);
                if index > 0 {
                    assert(old_stack.len() == path@.len());
                    assert(old_stack[path@.len() - 1] == frame);
                } else {
                    if old_stack.len() == path@.len() {
                        assert(old_stack[path@.len() - 1].1 >= 1);
                    }
                    assert(old_stack.len() == path@.len() + 1);
                    assert(state@[id as int] == 0);
                }
            }
            let ghost old_state = state@;
            if index == 0 {
                proof {
                    lemma_count_update(state@, id as int, 1, 0);
                    lemma_count_update(state@, id as int, 1, 1);
                }
                state.set(id, 1);
                let ghost old_path = path@;
                assert(!path@.contains(id)) by {
                    if path@.contains(id) {
                        let i = choose|i: int| 0 <= i < path@.len() && path@[i] == id;
                        assert(state@[path@[i] as int] == 1);
                    }
                }
                path.push(id);
                assert forall|u: int| 0 <= u < n && state@[u] == 1 implies path@.contains(u as usize) by {
                    if u != id as int {
                        assert(old_state[u] == 1);
                        let i = choose|i: int| 0 <= i < old_path.len() && old_path[i] == u as usize;
                        assert(path@[i] == u as usize);
                    } else {
                        assert(path@[path@.len() - 1] == id);
                    }
                }
                assert(idx_path(adj@, path@)) by {
                    assert forall|k: int, l: int| 0 <= k && l == k + 1 && l < path@.len() implies #[trigger] idx_edge(
                        adj@,
                        path@[k],
                        path@[l],
                    ) by {
                        if k == path@.len() - 2 {
                            let f = stack@[k];
                            assert(adj@[path@[k] as int]@[f.1 - 1] == id);
                        } else {
                            assert(path@[k] == path@.drop_last()[k]);
                        }
                    }
                }
            }
            assert(path@.last() == id);
            let degree = adj[id].len();
            if index < degree {
                stack.push((id, index + 1));
                proof {
                    lemma_pending_push(adj@, popped, (id, (index + 1) as usize));
                }
                let child = adj[id][index];
                let color = state[child];
                assert(child < n);
                if color == 0 {
                    let ghost one = stack@;
                    stack.push((child, 0));
                    proof {
                        lemma_pending_push(adj@, one, (child, 0usize));
                    }
                } else if color == 1 {
                    assert(path@.contains(child));
                    let mut at: usize = 0;
                    while at < path.len() && path[at] != child
                        invariant
                            at <= path@.len(),
                            path@.contains(child),
                            forall|k: int| 0 <= k < at ==> path@[k] != child,
                        decreases path@.len() - at,
                    {
                        at = at + 1;
                    }
                    assert(at < path@.len());
                    let mut cycle: Vec<usize> = Vec::new();
                    let mut k: usize = at;
                    while k < path.len()
                        invariant
                            at <= k <= path@.len(),
                            cycle@ =~= path@.subrange(at as int, k as int),
                        decreases path@.len() - k,
                    {
                        cycle.push(path[k]);
                        k = k + 1;
                    }
                    cycle.push(child);
                    assert(idx_cycle(adj@, cycle@)) by {
                        assert forall|m: int, l: int| 0 <= m && l == m + 1 && l < cycle@.len() implies #[trigger] idx_edge(
                            adj@,
                            cycle@[m],
                            cycle@[l],
                        ) by {
                            if m == cycle@.len() - 2 {
                                assert(adj@[id as int]@[index as int] == child);
                            } else {
                                assert(idx_edge(adj@, path@[at + m], path@[at + l]));
                            }
                        }
                    }
                    return Some(cycle);
                }
            } else {
                proof {
                    lemma_count_update(state@, id as int, 2, 0);
                    lemma_count_update(state@, id as int, 2, 1);
                    finish = finish.update(id as int, clock);
                    clock = clock + 1;
                }
                state.set(id, 2);
                let ghost before_pop = path@;
                path.pop();
                assert forall|u: int| 0 <= u < n && state@[u] == 1 implies path@.contains(u as usize) by {
                    assert(before_pop.contains(u as usize));
                    let i = choose|i: int| 0 <= i < before_pop.len() && before_pop[i] == u as usize;
                    assert(i != before_pop.len() - 1);
                    assert(path@[i] == u as usize);
                }
            }
        }
        start = start + 1;
    }
    proof {
        assert forall|p: Seq<usize>| !#[trigger] idx_cycle(adj@, p) by {
            if idx_cycle(adj@, p) {
                assert(idx_edge(adj@, p[0], p[1]));
                lemma_finish_decreases_along_path(adj@, state@, finish, p);
            }
        }
    }
    None
}

// ---------------------------------------------------------------------------
// Identifier graphs.
// ---------------------------------------------------------------------------

/// The dependencies of entry `i`, as character sequences.
pub open spec fn entry_children(deps: Seq<(String, Vec<String>)>, i: int) -> Seq<Seq<char>> {
    views(deps[i].1@)
}

/// `b` is a declared dependency of `a`.
pub open spec fn text_edge(deps: Seq<(String, Vec<String>)>, a: Seq<char>, b: Seq<char>) -> bool {
    exists|i: int, j: int|
        0 <= i < deps.len() && 0 <= j < deps[i].1@.len() && deps[i].0@ == a && #[trigger] deps[i].1@[j]@ == b
}

/// Consecutive identifiers of `p` are joined by declared dependencies.
pub open spec fn text_path(deps: Seq<(String, Vec<String>)>, p: Seq<Seq<char>>) -> bool {
    forall|k: int, l: int| 0 <= k && l == k + 1 && l < p.len() ==> #[trigger] text_edge(deps, p[k], p[l])
}

/// `p` is a closed dependency walk of at least one edge.
pub open spec fn text_cycle(deps: Seq<(String, Vec<String>)>, p: Seq<Seq<char>>) -> bool {
    &&& p.len() >= 2
    &&& p[0] == p[p.len() - 1]
    &&& text_path(deps, p)
}

/// No closed walk passes through an identifier reachable from `target`.
pub open spec fn acyclic_from(deps: Seq<(String, Vec<String>)>, target: Seq<char>) -> bool {
    forall|p: Seq<Seq<char>>| #[trigger] text_cycle(deps, p) ==> !reaches(deps, target, p[0])
}

/// The dependency relation has no closed walk.
pub open spec fn text_acyclic(deps: Seq<(String, Vec<String>)>) -> bool {
    forall|p: Seq<Seq<char>>| !#[trigger] text_cycle(deps, p)
}

/// Every declared dependency names a known identifier.
pub open spec fn references_present(ids: Seq<String>, deps: Seq<(String, Vec<String>)>) -> bool {
    forall|i: int, j: int|
        0 <= i < deps.len() && 0 <= j < deps[i].1@.len() ==> keys_of(ids).contains(#[trigger] deps[i].1@[j]@)
}

/// Dependency `j` of entry `i` is the first unknown one in declaration order.
pub open spec fn first_missing(ids: Seq<String>, deps: Seq<(String, Vec<String>)>, i: int, j: int) -> bool {
    &&& 0 <= i < deps.len()
    &&& 0 <= j < deps[i].1@.len()
    &&& !keys_of(ids).contains(deps[i].1@[j]@)
    &&& forall|a: int, b: int|
        0 <= a < deps.len() && 0 <= b < deps[a].1@.len() && (a < i || (a == i && b < j))
            ==> keys_of(ids).contains(#[trigger] deps[a].1@[b]@)
}

/// Diagnostic for an unknown dependency.
pub open spec fn missing_message(label: Seq<char>, id: Seq<char>, dependency: Seq<char>) -> Seq<char> {
    label + " "@ + id + " references missing dependency "@ + dependency
}

/// Diagnostic for a dependency cycle.
pub open spec fn cycle_message(label: Seq<char>, cycle: Seq<Seq<char>>) -> Seq<char> {
    "cycle in "@ + label + " graph: "@ + join_texts(cycle, " -> "@)
}

/// `adj` is the index form of the dependency relation restricted to `ids`.
pub open spec fn adjacency_of(ids: Seq<String>, deps: Seq<(String, Vec<String>)>, adj: Seq<Vec<usize>>) -> bool {
    &&& adj.len() == ids.len()
    &&& forall|u: int| #![trigger adj[u]] 0 <= u < ids.len() ==> {
        if keys_of(deps).contains(ids[u]@) {
            let e = entry_of(deps, ids[u]@);
            &&& adj[u]@.len() == deps[e].1@.len()
            &&& forall|j: int| 0 <= j < adj[u]@.len() ==> #[trigger] adj[u]@[j] < ids.len() && ids[adj[u]@[j] as int]@ == deps[e].1@[j]@
        } else {
            adj[u]@.len() == 0
        }
    }
}

proof fn lemma_index_cycle_names(ids: Seq<String>, deps: Seq<(String, Vec<String>)>, adj: Seq<Vec<usize>>, c: Seq<usize>)
    requires
        adjacency_of(ids, deps, adj),
        strictly_sorted(keys_of(deps)),
        idx_cycle(adj, c),
    ensures
        text_cycle(deps, Seq::new(c.len(), |k: int| ids[c[k] as int]@)),
{
    let names = Seq::new(c.len(), |k: int| ids[c[k] as int]@);
    assert forall|k: int, l: int| 0 <= k && l == k + 1 && l < names.len() implies #[trigger] text_edge(deps, names[k], names[l]) by {
        assert(idx_edge(adj, c[k], c[l]));
        let u = c[k] as int;
        let j = choose|j: int| 0 <= j < adj[u]@.len() && #[trigger] adj[u]@[j] == c[l];
        assert(adj[u]@.len() > 0);
        assert(keys_of(deps).contains(ids[u]@));
        let e = entry_of(deps, ids[u]@);
        assert(keys_of(deps)[e] == deps[e].key_view());
        assert(ids[adj[u]@[j] as int]@ == deps[e].1@[j]@);
        assert(deps[e].0@ == names[k]);
        assert(deps[e].1@[j]@ == names[l]);
    }
}

proof fn lemma_text_cycle_indices(ids: Seq<String>, deps: Seq<(String, Vec<String>)>, adj: Seq<Vec<usize>>, t: Seq<Seq<char>>)
    requires
        adjacency_of(ids, deps, adj),
        strictly_sorted(keys_of(ids)),
        strictly_sorted(keys_of(deps)),
        references_present(ids, deps),
        text_cycle(deps, t),
        ids.len() <= usize::MAX,
    ensures
        !idx_acyclic(adj),
{
    assert forall|k: int| 0 <= k < t.len() implies keys_of(ids).contains(#[trigger] t[k]) by {
        let m = if k == 0 { t.len() - 1 } else { k };
        assert(text_edge(deps, t[m - 1], t[m]));
        let (i, j) = choose|i: int, j: int|
            0 <= i < deps.len() && 0 <= j < deps[i].1@.len() && deps[i].0@ == t[m - 1] && #[trigger] deps[i].1@[j]@ == t[m];
        assert(keys_of(ids).contains(deps[i].1@[j]@));
    }
    let c = Seq::new(t.len(), |k: int| entry_of(ids, t[k]) as usize);
    assert forall|k: int| 0 <= k < t.len() implies #[trigger] c[k] < ids.len() && ids[c[k] as int]@ == t[k] by {
        assert(keys_of(ids).contains(t[k]));
        let w = choose|w: int| 0 <= w < keys_of(ids).len() && keys_of(ids)[w] == t[k];
        assert(ids[w].key_view() == t[k]);
        let e = entry_of(ids, t[k]);
        assert(0 <= e < ids.len() && ids[e].key_view() == t[k]);
        assert(c[k] as int == e);
    }
    assert forall|k: int, l: int| 0 <= k && l == k + 1 && l < c.len() implies #[trigger] idx_edge(adj, c[k], c[l]) by {
        assert(text_edge(deps, t[k], t[l]));
        let (i, j) = choose|i: int, j: int|
            0 <= i < deps.len() && 0 <= j < deps[i].1@.len() && deps[i].0@ == t[k] && #[trigger] deps[i].1@[j]@ == t[l];
        let u = c[k] as int;
        assert(c[k] < ids.len() && ids[u]@ == t[k]);
        assert(keys_of(deps)[i] == deps[i].0@);
        assert(keys_of(deps).contains(ids[u]@));
        let e = entry_of(deps, ids[u]@);
        assert(keys_of(deps)[e] == keys_of(deps)[i]);
        if e != i {
            lemma_sorted_distinct(keys_of(deps), e, i);
        }
        let v = adj[u]@[j] as int;
        assert(ids[v]@ == t[l]);
        assert(c[l] < ids.len() && ids[c[l] as int]@ == t[l]);
        if v != c[l] as int {
            assert(keys_of(ids)[v] == keys_of(ids)[c[l] as int]);
            lemma_sorted_distinct(keys_of(ids), v, c[l] as int);
        }
        assert(adj[u]@[j] == c[l]);
    }
    assert(c[0] == c[c.len() - 1]);
    assert(idx_cycle(adj, c));
}

/// The identifiers along the closed walk that the depth-first search over
/// the index form of the graph finds, if any.
pub open spec fn cycle_names(ids: Seq<String>, adj: Seq<Vec<usize>>) -> Option<Seq<Seq<char>>> {
    match first_cycle(adj) {
        Some(c) => Some(Seq::new(c.len(), |k: int| ids[c[k] as int]@)),
        None => None,
    }
}

/// Validates references and rejects cycles in a dependency graph.
///
/// Succeeds exactly when every dependency names an identifier of `ids` and
/// the dependency relation has no cycle. The first unknown dependency, in
/// declaration order, is reported before any cycle; a reported cycle is a
/// genuine closed walk of the relation.
pub fn validate_graph(ids: &Vec<String>, dependencies: &Vec<(String, Vec<String>)>, label: &str) -> (r: Result<(), String>)
    requires
        strictly_sorted(keys_of(ids@)),
        strictly_sorted(keys_of(dependencies@)),
    ensures
        r is Ok <==> references_present(ids@, dependencies@) && text_acyclic(dependencies@),
        !references_present(ids@, dependencies@) ==> exists|i: int, j: int|
            first_missing(ids@, dependencies@, i, j) && (r matches Err(m) && m@ == missing_message(
                label@,
                dependencies@[i].0@,
                dependencies@[i].1@[j]@,
            )),
        references_present(ids@, dependencies@) && !text_acyclic(dependencies@) ==> (r matches Err(m)
            && exists|c: Seq<Seq<char>>| text_cycle(dependencies@, c) && m@ == cycle_message(label@, c)),
        references_present(ids@, dependencies@) && !text_acyclic(dependencies@) ==> (r matches Err(m)
            && exists|adj: Seq<Vec<usize>>|
            #[trigger] adjacency_of(ids@, dependencies@, adj) && (cycle_names(ids@, adj) matches Some(names) && m@
                == cycle_message(label@, names))),
{
    let mut i: usize = 0;
    while i < dependencies.len()
        invariant
            i <= dependencies@.len(),
            strictly_sorted(keys_of(ids@)),
            forall|a: int, b: int|
                0 <= a < i && 0 <= b < dependencies@[a].1@.len() ==> keys_of(ids@).contains(
                    #[trigger] dependencies@[a].1@[b]@,
                ),
        decreases dependencies@.len() - i,
    {
        let required = &dependencies[i].1;
        let mut j: usize = 0;
        while j < required.len()
            invariant
                i < dependencies@.len(),
                required == dependencies@[i as int].1,
                j <= required@.len(),
                strictly_sorted(keys_of(ids@)),
                forall|a: int, b: int|
                    0 <= a < dependencies@.len() && 0 <= b < dependencies@[a].1@.len() && (a < i || (a
                        == i && b < j)) ==> keys_of(ids@).contains(#[trigger] dependencies@[a].1@[b]@),
            decreases required@.len() - j,
        {
            match find_key(ids, required[j].as_str()) {
                None => {
                    let mut m = owned(label);
                    m.append(" ");
                    m.append(dependencies[i].0.as_str());
                    m.append(" references missing dependency ");
                    m.append(required[j].as_str());
                    assert(first_missing(ids@, dependencies@, i as int, j as int));
                    return Err(m);
                },
                Some(_) => {},
            }
            j = j + 1;
        }
        i = i + 1;
    }
    assert(references_present(ids@, dependencies@));
    let mut adj: Vec<Vec<usize>> = Vec::new();
    let mut u: usize = 0;
    while u < ids.len()
        invariant
            u <= ids@.len(),
            adj@.len() == u,
            strictly_sorted(keys_of(ids@)),
            strictly_sorted(keys_of(dependencies@)),
            references_present(ids@, dependencies@),
            forall|w: int| #![trigger adj@[w]] 0 <= w < u ==> {
                if keys_of(dependencies@).contains(ids@[w]@) {
                    let e = entry_of(dependencies@, ids@[w]@);
                    &&& adj@[w]@.len() == dependencies@[e].1@.len()
                    &&& forall|j: int| 0 <= j < adj@[w]@.len() ==> #[trigger] adj@[w]@[j] < ids@.len()
                        && ids@[adj@[w]@[j] as int]@ == dependencies@[e].1@[j]@
                } else {
                    adj@[w]@.len() == 0
                }
            },
        decreases ids@.len() - u,
    {
        let mut successors: Vec<usize> = Vec::new();
        match find_key(dependencies, ids[u].as_str()) {
            Some(e) => {
                proof {
                    assert(keys_of(dependencies@)[e as int] == ids@[u as int]@);
                    let f = entry_of(dependencies@, ids@[u as int]@);
                    if f != e as int {
                        lemma_sorted_distinct(keys_of(dependencies@), f, e as int);
                    }
                }
                let required = &dependencies[e].1;
                let mut j: usize = 0;
                while j < required.len()
                    invariant
                        e < dependencies@.len(),
                        required == dependencies@[e as int].1,
                        j <= required@.len(),
                        successors@.len() == j,
                        strictly_sorted(keys_of(ids@)),
                        references_present(ids@, dependencies@),
                        forall|k: int| 0 <= k < j ==> #[trigger] successors@[k] < ids@.len()
                            && ids@[successors@[k] as int]@ == required@[k]@,
                    decreases required@.len() - j,
                {
                    assert(keys_of(ids@).contains(dependencies@[e as int].1@[j as int]@));
                    match find_key(ids, required[j].as_str()) {
                        Some(v) => {
                            successors.push(v);
                        },
                        None => {
                            proof {
                                assert(false);
                            }
                        },
                    }
                    j = j + 1;
                }
            },
            None => {},
        }
        adj.push(successors);
        u = u + 1;
    }
    assert(adjacency_of(ids@, dependencies@, adj@));
    proof {
        assert(idx_closed(adj@)) by {
            assert forall|w: int, j: int| 0 <= w < adj@.len() && 0 <= j < adj@[w]@.len() implies #[trigger] adj@[w]@[j] < adj@.len() by {
                assert(adj@[w] == adj@[w]);
            }
        }
    }
    match find_cycle(&adj) {
        None => {
            proof {
                assert forall|t: Seq<Seq<char>>| !#[trigger] text_cycle(dependencies@, t) by {
                    if text_cycle(dependencies@, t) {
                        assert(ids@.len() <= usize::MAX);
                        lemma_text_cycle_indices(ids@, dependencies@, adj@, t);
                    }
                }
            }
            Ok(())
        },
        Some(cycle) => {
            let mut names: Vec<String> = Vec::new();
            let mut k: usize = 0;
            while k < cycle.len()
                invariant
                    k <= cycle@.len(),
                    idx_closed(adj@),
                    adj@.len() == ids@.len(),
                    idx_cycle(adj@, cycle@),
                    names@.len() == k,
                    forall|m: int| 0 <= m < k ==> #[trigger] names@[m]@ == ids@[cycle@[m] as int]@,
                decreases cycle@.len() - k,
            {
                assert(cycle@[k as int] < ids@.len()) by {
                    if k == 0 {
                        assert(idx_edge(adj@, cycle@[0], cycle@[1]));
                    } else {
                        assert(idx_edge(adj@, cycle@[k - 1], cycle@[k as int]));
                        let j = choose|j: int| 0 <= j < adj@[cycle@[k - 1] as int]@.len() && #[trigger] adj@[cycle@[k - 1] as int]@[j] == cycle@[k as int];
                    }
                }
                names.push(ids[cycle[k]].clone());
                k = k + 1;
            }
            proof {
                lemma_index_cycle_names(ids@, dependencies@, adj@, cycle@);
                assert(views(names@) =~= Seq::new(cycle@.len(), |m: int| ids@[cycle@[m] as int]@));
                assert(cycle_names(ids@, adj@) == Some(views(names@)));
            }
            let mut m = owned("cycle in ");
            m.append(label);
            m.append(" graph: ");
            let joined = join_strings(&names, " -> ");
            m.append(joined.as_str());
            Err(m)
        },
    }
}

// ---------------------------------------------------------------------------
// Dependency closure.
// ---------------------------------------------------------------------------

/// The declared dependencies of `x`, empty when `x` has no entry.
pub open spec fn children_of(deps: Seq<(String, Vec<String>)>, x: Seq<char>) -> Seq<Seq<char>> {
    if keys_of(deps).contains(x) {
        entry_children(deps, entry_of(deps, x))
    } else {
        Seq::empty()
    }
}

/// `b` can be reached from `a` by following zero or more declared dependencies.
pub open spec fn reaches(deps: Seq<(String, Vec<String>)>, a: Seq<char>, b: Seq<char>) -> bool {
    exists|p: Seq<Seq<char>>| #![trigger text_path(deps, p)]
        p.len() >= 1 && p[0] == a && p[p.len() - 1] == b && text_path(deps, p)
}

/// Every dependency listed by any entry.
pub open spec fn all_children(deps: Seq<(String, Vec<String>)>) -> Seq<Seq<char>>
    decreases deps.len(),
{
    if deps.len() == 0 {
        Seq::empty()
    } else {
        all_children(deps.drop_last()) + views(deps.last().1@)
    }
}

proof fn lemma_edge_in_all_children(deps: Seq<(String, Vec<String>)>, i: int, j: int)
    requires
        0 <= i < deps.len(),
        0 <= j < deps[i].1@.len(),
    ensures
        all_children(deps).contains(deps[i].1@[j]@),
    decreases deps.len(),
{
    let rest = deps.drop_last();
    if i == deps.len() - 1 {
        let w = all_children(rest).len() + j;
        assert(all_children(deps)[w] == deps[i].1@[j]@);
    } else {
        assert(rest[i] == deps[i]);
        lemma_edge_in_all_children(rest, i, j);
        let w = choose|w: int| 0 <= w < all_children(rest).len() && all_children(rest)[w] == deps[i].1@[j]@;
        assert(all_children(deps)[w] == deps[i].1@[j]@);
    }
}

pub proof fn lemma_children_edge(deps: Seq<(String, Vec<String>)>, a: Seq<char>, j: int)
    requires
        0 <= j < children_of(deps, a).len(),
    ensures
        text_edge(deps, a, children_of(deps, a)[j]),
        all_children(deps).contains(children_of(deps, a)[j]),
{
    let e = entry_of(deps, a);
    assert(keys_of(deps)[e] == deps[e].key_view());
    assert(deps[e].1@[j]@ == children_of(deps, a)[j]);
    lemma_edge_in_all_children(deps, e, j);
}

pub proof fn lemma_edge_children(deps: Seq<(String, Vec<String>)>, a: Seq<char>, b: Seq<char>)
    requires
        strictly_sorted(keys_of(deps)),
        text_edge(deps, a, b),
    ensures
        children_of(deps, a).contains(b),
{
    let (i, j) = choose|i: int, j: int|
        0 <= i < deps.len() && 0 <= j < deps[i].1@.len() && deps[i].0@ == a && #[trigger] deps[i].1@[j]@ == b;
    assert(keys_of(deps)[i] == a);
    assert(keys_of(deps).contains(a));
    let e = entry_of(deps, a);
    if e != i {
        lemma_sorted_distinct(keys_of(deps), e, i);
    }
    assert(children_of(deps, a)[j] == b);
}

pub proof fn lemma_reaches_step(deps: Seq<(String, Vec<String>)>, a: Seq<char>, b: Seq<char>, c: Seq<char>)
    requires
        reaches(deps, a, b),
        text_edge(deps, b, c),
    ensures
        reaches(deps, a, c),
{
    let p = choose|p: Seq<Seq<char>>| #![trigger text_path(deps, p)]
        p.len() >= 1 && p[0] == a && p[p.len() - 1] == b && text_path(deps, p);
    let q = p.push(c);
    assert forall|k: int, l: int| 0 <= k && l == k + 1 && l < q.len() implies #[trigger] text_edge(deps, q[k], q[l]) by {
        if l < p.len() {
            assert(text_edge(deps, p[k], p[l]));
        }
    }
    assert(text_path(deps, q));
}

/// Reachability composes: what `b` reaches, `a` reaches when it reaches `b`.
pub proof fn lemma_reaches_transitive(deps: Seq<(String, Vec<String>)>, a: Seq<char>, b: Seq<char>, c: Seq<char>)
    requires
        reaches(deps, a, b),
        reaches(deps, b, c),
    ensures
        reaches(deps, a, c),
{
    let p = choose|p: Seq<Seq<char>>| #![trigger text_path(deps, p)]
        p.len() >= 1 && p[0] == a && p[p.len() - 1] == b && text_path(deps, p);
    let q = choose|q: Seq<Seq<char>>| #![trigger text_path(deps, q)]
        q.len() >= 1 && q[0] == b && q[q.len() - 1] == c && text_path(deps, q);
    let r = p + q.drop_first();
    assert forall|k: int, l: int| 0 <= k && l == k + 1 && l < r.len() implies #[trigger] text_edge(deps, r[k], r[l]) by {
        if l < p.len() {
            assert(text_edge(deps, p[k], p[l]));
        } else if k == p.len() - 1 {
            assert(r[k] == q[0]);
            assert(r[l] == q[1]);
            assert(text_edge(deps, q[0], q[1]));
        } else {
            let m = k - p.len() + 1;
            assert(r[k] == q[m]);
            assert(r[l] == q[m + 1]);
            assert(text_edge(deps, q[m], q[m + 1]));
        }
    }
    assert(text_path(deps, r));
    if q.len() == 1 {
        assert(r =~= p);
    } else {
        assert(r[r.len() - 1] == q[q.len() - 1]);
    }
}

/// The character sequences of the nodes held by traversal frames.
pub open spec fn frame_nodes(frames: Seq<(String, usize)>) -> Seq<Seq<char>> {
    Seq::new(frames.len(), |i: int| frames[i].0@)
}

pub proof fn lemma_closed_set_contains_reachable(
    deps: Seq<(String, Vec<String>)>,
    done: Seq<Seq<char>>,
    p: Seq<Seq<char>>,
)
    requires
        strictly_sorted(keys_of(deps)),
        p.len() >= 1,
        text_path(deps, p),
        done.contains(p[0]),
        forall|x: Seq<char>, c: Seq<char>| done.contains(x) && children_of(deps, x).contains(c) ==> done.contains(c),
    ensures
        done.contains(p[p.len() - 1]),
    decreases p.len(),
{
    if p.len() > 1 {
        let q = p.drop_last();
        assert forall|k: int, l: int| 0 <= k && l == k + 1 && l < q.len() implies #[trigger] text_edge(deps, q[k], q[l]) by {
            assert(text_edge(deps, p[k], p[l]));
        }
        lemma_closed_set_contains_reachable(deps, done, q);
        assert(text_edge(deps, p[p.len() - 2], p[p.len() - 1]));
        lemma_edge_children(deps, p[p.len() - 2], p[p.len() - 1]);
    }
}


/// Dependencies not yet examined by open traversal frames.
pub open spec fn pending_children(deps: Seq<(String, Vec<String>)>, frames: Seq<(String, usize)>) -> nat
    decreases frames.len(),
{
    if frames.len() == 0 {
        0
    } else {
        let f = frames.last();
        let open_work: nat = if f.1 <= children_of(deps, f.0@).len() { (children_of(deps, f.0@).len() - f.1) as nat } else { 0nat };
        pending_children(deps, frames.drop_last()) + open_work
    }
}

proof fn lemma_pending_children_push(deps: Seq<(String, Vec<String>)>, frames: Seq<(String, usize)>, f: (String, usize))
    ensures
        pending_children(deps, frames.push(f)) == pending_children(deps, frames) + (if f.1 <= children_of(deps, f.0@).len() { (children_of(deps, f.0@).len() - f.1) as nat } else { 0nat }),
{
    assert(frames.push(f).drop_last() =~= frames);
}

pub proof fn lemma_distinct_within(a: Seq<Seq<char>>, u: Seq<Seq<char>>)
    requires
        a.no_duplicates(),
        forall|x: Seq<char>| a.contains(x) ==> u.contains(x),
    ensures
        a.len() <= u.len(),
{
    broadcast use vstd::seq_lib::seq_to_set_is_finite;
    a.unique_seq_to_set();
    u.lemma_cardinality_of_set();
    assert(a.to_set().subset_of(u.to_set()));
    vstd::set_lib::lemma_len_subset(a.to_set(), u.to_set());
}

pub proof fn lemma_sorted_no_duplicates(s: Seq<Seq<char>>)
    requires
        strictly_sorted(s),
    ensures
        s.no_duplicates(),
{
    assert forall|i: int, j: int| 0 <= i < s.len() && 0 <= j < s.len() && i != j implies s[i] != s[j] by {
        lemma_sorted_distinct(s, i, j);
    }
}

proof fn lemma_frames_path(deps: Seq<(String, Vec<String>)>, frames: Seq<(String, usize)>, from: int)
    requires
        0 <= from < frames.len(),
        forall|i: int| 0 <= i < frames.len() - 1 ==> (#[trigger] frames[i]).1 >= 1 && frames[i + 1].0@ == children_of(deps, frames[i].0@)[frames[i].1 - 1],
        forall|i: int| 0 <= i < frames.len() ==> (#[trigger] frames[i]).1 <= children_of(deps, frames[i].0@).len(),
    ensures
        text_path(deps, frame_nodes(frames).subrange(from, frames.len() as int)),
{
    let q = frame_nodes(frames).subrange(from, frames.len() as int);
    assert forall|k: int, l: int| 0 <= k && l == k + 1 && l < q.len() implies #[trigger] text_edge(deps, q[k], q[l]) by {
        let i = from + k;
        assert(frames[i].1 >= 1);
        lemma_children_edge(deps, frames[i].0@, frames[i].1 - 1);
    }
}

#[verifier::opaque]
spec fn order_inv(
    deps: Seq<(String, Vec<String>)>,
    target: Seq<char>,
    universe: Seq<Seq<char>>,
    seen: Seq<String>,
    result: Seq<String>,
    frames: Seq<(String, usize)>,
) -> bool {
    &&& frames.len() > 0 ==> frames[0].0@ == target
    &&& frames.len() == 0 ==> result.len() >= 1 && result[result.len() - 1]@ == target
    &&& forall|i: int| 0 <= i < frames.len() ==> (#[trigger] frames[i]).1 <= children_of(deps, frames[i].0@).len()
    &&& forall|i: int| 0 <= i < frames.len() - 1 ==> (#[trigger] frames[i]).1 >= 1 && frames[i + 1].0@ == children_of(deps, frames[i].0@)[frames[i].1 - 1]
    &&& forall|i: int, j: int| 0 <= i < frames.len() && 0 <= j < frames[i].1 ==> keys_of(seen).contains(#[trigger] children_of(deps, frames[i].0@)[j])
    &&& forall|x: Seq<char>| keys_of(seen).contains(x) <==> (views(result).contains(x) || frame_nodes(frames).contains(x))
    &&& views(result).no_duplicates()
    &&& frame_nodes(frames).no_duplicates()
    &&& forall|x: Seq<char>| !(views(result).contains(x) && frame_nodes(frames).contains(x))
    &&& forall|i: int, c: Seq<char>| 0 <= i < result.len() && children_of(deps, result[i]@).contains(c) ==> keys_of(seen).contains(c)
    &&& acyclic_from(deps, target) ==> forall|i: int, c: Seq<char>|
        0 <= i < result.len() && children_of(deps, result[i]@).contains(c) ==> exists|k: int|
            0 <= k < i && #[trigger] result[k]@ == c
    &&& forall|x: Seq<char>| #[trigger] keys_of(seen).contains(x) ==> reaches(deps, target, x) && universe.contains(x)
}

proof fn lemma_order_top(
    deps: Seq<(String, Vec<String>)>,
    target: Seq<char>,
    universe: Seq<Seq<char>>,
    seen: Seq<String>,
    result: Seq<String>,
    frames: Seq<(String, usize)>,
)
    requires
        order_inv(deps, target, universe, seen, result, frames),
        frames.len() > 0,
    ensures
        keys_of(seen).contains(frames[frames.len() - 1].0@),
        reaches(deps, target, frames[frames.len() - 1].0@),
        frames[frames.len() - 1].1 <= children_of(deps, frames[frames.len() - 1].0@).len(),
{
    reveal(order_inv);
    assert(frame_nodes(frames)[frames.len() - 1] == frames[frames.len() - 1].0@);
}

#[verifier::spinoff_prover]
#[verifier::rlimit(40)]
proof fn lemma_order_advance(
    deps: Seq<(String, Vec<String>)>,
    target: Seq<char>,
    universe: Seq<Seq<char>>,
    old_seen: Seq<String>,
    seen: Seq<String>,
    result: Seq<String>,
    old_frames: Seq<(String, usize)>,
    frames: Seq<(String, usize)>,
    child: Seq<char>,
    inserted: bool,
)
    requires
        strictly_sorted(keys_of(deps)),
        strictly_sorted(keys_of(seen)),
        universe == seq![target] + all_children(deps),
        order_inv(deps, target, universe, old_seen, result, old_frames),
        old_frames.len() > 0,
        ({
            let top = old_frames.len() - 1;
            let x = old_frames[top].0@;
            &&& old_frames[top].1 < children_of(deps, x).len()
            &&& child == children_of(deps, x)[old_frames[top].1 as int]
            &&& inserted == !keys_of(old_seen).contains(child)
            &&& forall|y: Seq<char>| keys_of(seen).contains(y) <==> (keys_of(old_seen).contains(y) || y == child)
            &&& frames.len() == old_frames.len() + (if inserted { 1int } else { 0int })
            &&& forall|i: int| 0 <= i < top ==> frames[i] == old_frames[i]
            &&& frames[top].0 == old_frames[top].0
            &&& frames[top].1 == old_frames[top].1 + 1
            &&& inserted ==> frames[top + 1].0@ == child && frames[top + 1].1 == 0
        }),
    ensures
        order_inv(deps, target, universe, seen, result, frames),
        seen.len() <= universe.len(),
{
    reveal(order_inv);
    let top = old_frames.len() - 1;
    let x = old_frames[top].0@;
    let index = old_frames[top].1 as int;
    assert(frame_nodes(old_frames)[top] == x);
    lemma_children_edge(deps, x, index);
    assert(universe.contains(child)) by {
        let w = choose|w: int| 0 <= w < all_children(deps).len() && all_children(deps)[w] == child;
        assert(universe[w + 1] == child);
    }
    assert(frame_nodes(old_frames).contains(x));
    assert(keys_of(old_seen).contains(x));
    assert(reaches(deps, target, x));
    lemma_reaches_step(deps, target, x, child);
    assert forall|y: Seq<char>| #[trigger] keys_of(seen).contains(y) implies reaches(deps, target, y) && universe.contains(y) by {
        if y != child {
            assert(keys_of(old_seen).contains(y));
        }
    }
    lemma_sorted_no_duplicates(keys_of(seen));
    lemma_distinct_within(keys_of(seen), universe);
    assert forall|i: int| 0 <= i < frames.len() implies (#[trigger] frames[i]).1 <= children_of(deps, frames[i].0@).len() by {
        if i < top {
            assert(frames[i] == old_frames[i]);
        }
    }
    assert forall|i: int| 0 <= i < frames.len() - 1 implies (#[trigger] frames[i]).1 >= 1 && frames[i + 1].0@ == children_of(deps, frames[i].0@)[frames[i].1 - 1] by {
        if i < top {
            assert(frames[i] == old_frames[i]);
            assert(frames[i + 1].0 == old_frames[i + 1].0);
        }
    }
    assert forall|i: int, j: int| 0 <= i < frames.len() && 0 <= j < frames[i].1 implies keys_of(seen).contains(#[trigger] children_of(deps, frames[i].0@)[j]) by {
        if i < top {
            assert(frames[i] == old_frames[i]);
            assert(keys_of(old_seen).contains(children_of(deps, old_frames[i].0@)[j]));
        } else if i == top {
            if j < index {
                assert(keys_of(old_seen).contains(children_of(deps, old_frames[top].0@)[j]));
            }
        }
    }
    if inserted {
        assert(frame_nodes(frames) =~= frame_nodes(old_frames).push(child)) by {
            assert forall|k: int| 0 <= k < old_frames.len() implies frame_nodes(frames)[k] == frame_nodes(old_frames)[k] by {
                if k < top {
                    assert(frames[k] == old_frames[k]);
                }
            }
        }
        assert(!frame_nodes(old_frames).contains(child));
        assert(!views(result).contains(child));
    } else {
        assert(frame_nodes(frames) =~= frame_nodes(old_frames)) by {
            assert forall|k: int| 0 <= k < old_frames.len() implies frame_nodes(frames)[k] == frame_nodes(old_frames)[k] by {
                if k < top {
                    assert(frames[k] == old_frames[k]);
                }
            }
        }
        assert(keys_of(old_seen).contains(child));
    }
    assert forall|y: Seq<char>| keys_of(seen).contains(y) <==> (views(result).contains(y) || frame_nodes(frames).contains(y)) by {
        if inserted && y == child {
            assert(frame_nodes(frames)[frames.len() - 1] == y);
        }
        if y != child {
            assert(keys_of(seen).contains(y) <==> keys_of(old_seen).contains(y));
            if frame_nodes(frames).contains(y) {
                let k = choose|k: int| 0 <= k < frames.len() && frame_nodes(frames)[k] == y;
                if inserted {
                    assert(k < old_frames.len());
                }
                assert(frame_nodes(old_frames)[k] == y);
            }
            if frame_nodes(old_frames).contains(y) {
                let k = choose|k: int| 0 <= k < old_frames.len() && frame_nodes(old_frames)[k] == y;
                assert(frame_nodes(frames)[k] == y);
            }
        } else {
            assert(keys_of(seen).contains(y));
            if !inserted {
                assert(keys_of(old_seen).contains(y));
            }
        }
    }
    assert forall|i: int, c: Seq<char>| 0 <= i < result.len() && children_of(deps, result[i]@).contains(c) implies keys_of(seen).contains(c) by {
        assert(keys_of(old_seen).contains(c));
    }
}

proof fn lemma_order_emit(
    deps: Seq<(String, Vec<String>)>,
    target: Seq<char>,
    universe: Seq<Seq<char>>,
    seen: Seq<String>,
    old_result: Seq<String>,
    result: Seq<String>,
    old_frames: Seq<(String, usize)>,
    frames: Seq<(String, usize)>,
)
    requires
        strictly_sorted(keys_of(deps)),
        order_inv(deps, target, universe, seen, old_result, old_frames),
        old_frames.len() > 0,
        old_frames[old_frames.len() - 1].1 == children_of(deps, old_frames[old_frames.len() - 1].0@).len(),
        frames == old_frames.drop_last(),
        result == old_result.push(old_frames[old_frames.len() - 1].0),
    ensures
        order_inv(deps, target, universe, seen, result, frames),
{
    reveal(order_inv);
    let top = old_frames.len() - 1;
    let x = old_frames[top].0@;
    assert(views(result) =~= views(old_result).push(x));
    assert(frame_nodes(old_frames) =~= frame_nodes(frames).push(x));
    assert(frame_nodes(old_frames)[top] == x);
    assert(!frame_nodes(frames).contains(x)) by {
        if frame_nodes(frames).contains(x) {
            let k = choose|k: int| 0 <= k < frames.len() && frame_nodes(frames)[k] == x;
            assert(frame_nodes(old_frames)[k] == x);
        }
    }
    assert(!views(old_result).contains(x));
    assert(views(result).no_duplicates()) by {
        assert forall|i: int, j: int| 0 <= i < views(result).len() && 0 <= j < views(result).len() && i != j implies views(result)[i] != views(result)[j] by {
            if i < old_result.len() && j < old_result.len() {
                assert(views(result)[i] == views(old_result)[i]);
                assert(views(result)[j] == views(old_result)[j]);
            } else if i < old_result.len() {
                assert(views(result)[i] == views(old_result)[i]);
            } else if j < old_result.len() {
                assert(views(result)[j] == views(old_result)[j]);
            }
        }
    }
    assert(frame_nodes(frames).no_duplicates()) by {
        assert forall|i: int, j: int| 0 <= i < frames.len() && 0 <= j < frames.len() && i != j implies frame_nodes(frames)[i] != frame_nodes(frames)[j] by {
            assert(frame_nodes(frames)[i] == frame_nodes(old_frames)[i]);
            assert(frame_nodes(frames)[j] == frame_nodes(old_frames)[j]);
        }
    }
    assert forall|y: Seq<char>| !(views(result).contains(y) && frame_nodes(frames).contains(y)) by {
        if views(result).contains(y) && frame_nodes(frames).contains(y) {
            let k = choose|k: int| 0 <= k < frames.len() && frame_nodes(frames)[k] == y;
            assert(frame_nodes(old_frames)[k] == y);
            if y != x {
                let m = choose|m: int| 0 <= m < result.len() && views(result)[m] == y;
                assert(views(result)[old_result.len() as int] == x);
                assert(m < old_result.len());
                assert(views(old_result)[m] == y);
                assert(views(old_result).contains(y));
                assert(frame_nodes(old_frames).contains(y));
            }
        }
    }
    assert forall|y: Seq<char>| keys_of(seen).contains(y) <==> (views(result).contains(y) || frame_nodes(frames).contains(y)) by {
        if y == x {
            assert(views(result)[result.len() - 1] == y);
        }
        if views(old_result).contains(y) {
            let k = choose|k: int| 0 <= k < old_result.len() && views(old_result)[k] == y;
            assert(views(result)[k] == y);
        }
        if views(result).contains(y) && y != x {
            let k = choose|k: int| 0 <= k < result.len() && views(result)[k] == y;
            assert(views(old_result)[k] == y);
        }
        if frame_nodes(old_frames).contains(y) && y != x {
            let k = choose|k: int| 0 <= k < old_frames.len() && frame_nodes(old_frames)[k] == y;
            assert(frame_nodes(frames)[k] == y);
        }
        if frame_nodes(frames).contains(y) {
            let k = choose|k: int| 0 <= k < frames.len() && frame_nodes(frames)[k] == y;
            assert(frame_nodes(old_frames)[k] == y);
        }
    }
    assert forall|c: Seq<char>| children_of(deps, x).contains(c) implies keys_of(seen).contains(c) by {
        let j = choose|j: int| 0 <= j < children_of(deps, x).len() && children_of(deps, x)[j] == c;
        assert(keys_of(seen).contains(children_of(deps, old_frames[top].0@)[j]));
    }
    assert forall|i: int, c: Seq<char>| 0 <= i < result.len() && children_of(deps, result[i]@).contains(c) implies keys_of(seen).contains(c) by {
        if i < old_result.len() {
            assert(result[i] == old_result[i]);
        }
    }
    assert forall|i: int| 0 <= i < frames.len() implies (#[trigger] frames[i]).1 <= children_of(deps, frames[i].0@).len() by {
        assert(frames[i] == old_frames[i]);
    }
    assert forall|i: int| 0 <= i < frames.len() - 1 implies (#[trigger] frames[i]).1 >= 1 && frames[i + 1].0@ == children_of(deps, frames[i].0@)[frames[i].1 - 1] by {
        assert(frames[i] == old_frames[i]);
        assert(frames[i + 1] == old_frames[i + 1]);
    }
    assert forall|i: int, j: int| 0 <= i < frames.len() && 0 <= j < frames[i].1 implies keys_of(seen).contains(#[trigger] children_of(deps, frames[i].0@)[j]) by {
        assert(frames[i] == old_frames[i]);
    }
    if frames.len() == 0 {
        assert(old_frames[0].0@ == target);
    } else {
        assert(frames[0] == old_frames[0]);
    }
    if acyclic_from(deps, target) {
        assert forall|i: int, c: Seq<char>|
            0 <= i < result.len() && children_of(deps, result[i]@).contains(c) implies exists|k: int|
                0 <= k < i && #[trigger] result[k]@ == c by {
            if i < old_result.len() {
                assert(result[i] == old_result[i]);
                let k = choose|k: int| 0 <= k < i && #[trigger] old_result[k]@ == c;
                assert(result[k] == old_result[k]);
            } else {
                assert(result[i]@ == x);
                assert(keys_of(seen).contains(c));
                if views(old_result).contains(c) {
                    let k = choose|k: int| 0 <= k < views(old_result).len() && views(old_result)[k] == c;
                    assert(result[k]@ == c);
                } else {
                    assert(frame_nodes(old_frames).contains(c));
                    let p = choose|p: int| 0 <= p < frame_nodes(old_frames).len() && frame_nodes(old_frames)[p] == c;
                    lemma_frames_path(deps, old_frames, p);
                    let stem = frame_nodes(old_frames).subrange(p, old_frames.len() as int);
                    let walk = stem.push(c);
                    let j = choose|j: int| 0 <= j < children_of(deps, x).len() && children_of(deps, x)[j] == c;
                    lemma_children_edge(deps, x, j);
                    assert forall|k: int, l: int| 0 <= k && l == k + 1 && l < walk.len() implies #[trigger] text_edge(deps, walk[k], walk[l]) by {
                        if l < walk.len() - 1 {
                            assert(text_edge(deps, stem[k], stem[l]));
                        } else {
                            assert(walk[k] == x);
                        }
                    }
                    assert(text_cycle(deps, walk));
                    assert(keys_of(seen).contains(c));
                    assert(walk[0] == c);
                }
            }
        }
    }
}

/// Pending markers for `ids`, last first: the walk takes markers from the
/// end, so `ids[0]` is taken next. A marker that is not expanded yet asks
/// for its identifier to be visited.
pub open spec fn visit_markers(ids: Seq<Seq<char>>) -> Seq<(Seq<char>, bool)> {
    Seq::new(ids.len(), |j: int| (ids[ids.len() - 1 - j], false))
}

/// The identifiers that a depth-first walk emits, taking markers from the
/// end of `stack`. An expanded marker emits its identifier. A marker to
/// visit is skipped when its identifier was seen; otherwise the identifier
/// is marked seen and its expanded marker goes below markers to visit its
/// dependencies, so each identifier is emitted after what it depends on.
/// `bound` limits how many identifiers are ever seen; walks from a target
/// with a bound of at least the number of identifiers mentioned never reach it.
pub open spec fn walk_emits(
    deps: Seq<(String, Vec<String>)>,
    stack: Seq<(Seq<char>, bool)>,
    seen: Seq<Seq<char>>,
    bound: nat,
) -> Seq<Seq<char>>
    decreases bound - seen.len(), stack.len(),
{
    if stack.len() == 0 {
        Seq::empty()
    } else {
        let (x, expanded) = stack.last();
        let rest = stack.drop_last();
        if expanded {
            seq![x] + walk_emits(deps, rest, seen, bound)
        } else if seen.contains(x) || seen.len() >= bound {
            walk_emits(deps, rest, seen, bound)
        } else {
            walk_emits(deps, rest.push((x, true)) + visit_markers(children_of(deps, x)), seen.push(x), bound)
        }
    }
}

/// The dependency-first order of `target`: the depth-first walk from it,
/// dependencies visited in declaration order.
pub open spec fn walk_order(deps: Seq<(String, Vec<String>)>, target: Seq<char>) -> Seq<Seq<char>> {
    walk_emits(deps, seq![(target, false)], Seq::empty(), (1 + all_children(deps).len()) as nat)
}

/// The pending markers of one frame: its expanded marker below markers to
/// visit the dependencies it has not reached yet.
spec fn frame_markers(deps: Seq<(String, Vec<String>)>, f: (String, usize)) -> Seq<(Seq<char>, bool)> {
    seq![(f.0@, true)] + visit_markers(children_of(deps, f.0@).skip(f.1 as int))
}

/// The pending markers of a stack of frames, bottom first.
spec fn frames_markers(deps: Seq<(String, Vec<String>)>, frames: Seq<(String, usize)>) -> Seq<(Seq<char>, bool)>
    decreases frames.len(),
{
    if frames.len() == 0 {
        Seq::empty()
    } else {
        frames_markers(deps, frames.drop_last()) + frame_markers(deps, frames.last())
    }
}

proof fn lemma_frames_markers_push(deps: Seq<(String, Vec<String>)>, frames: Seq<(String, usize)>, f: (String, usize))
    ensures
        frames_markers(deps, frames.push(f)) == frames_markers(deps, frames) + frame_markers(deps, f),
{
    assert(frames.push(f).drop_last() =~= frames);
}

/// Advancing the top frame past its next dependency takes the marker that
/// visits that dependency off the pending markers.
proof fn lemma_frames_markers_advance(deps: Seq<(String, Vec<String>)>, frames: Seq<(String, usize)>)
    requires
        frames.len() > 0,
        frames.last().1 < children_of(deps, frames.last().0@).len(),
        frames.last().1 < usize::MAX,
    ensures
        frames_markers(deps, frames) == frames_markers(
            deps,
            frames.drop_last().push((frames.last().0, (frames.last().1 + 1) as usize)),
        ).push((children_of(deps, frames.last().0@)[frames.last().1 as int], false)),
{
    let f = frames.last();
    let g = (f.0, (f.1 + 1) as usize);
    let kids = children_of(deps, f.0@);
    lemma_frames_markers_push(deps, frames.drop_last(), g);
    assert(frames.drop_last().push(f) =~= frames);
    lemma_frames_markers_push(deps, frames.drop_last(), f);
    let m = (kids[f.1 as int], false);
    assert(visit_markers(kids.skip(f.1 as int)) =~= visit_markers(kids.skip(f.1 + 1)).push(m));
    assert(frame_markers(deps, f) =~= frame_markers(deps, g).push(m));
    let a = frames_markers(deps, frames.drop_last());
    assert(a + frame_markers(deps, g).push(m) =~= (a + frame_markers(deps, g)).push(m));
}

/// Returns the transitive dependency closure of `target` in dependency-first order.
///
/// The order is that of the depth-first walk from `target` that visits
/// dependencies in declaration order and emits each identifier after them.
/// Each reachable identifier, `target` included, occurs exactly once, and
/// `target` comes last. When no closed walk passes through an identifier
/// reachable from `target`, every dependency of an identifier occurs before
/// it.
#[verifier::spinoff_prover]
#[verifier::rlimit(40)]
pub fn dependency_order(target: &str, dependencies: &Vec<(String, Vec<String>)>) -> (result: Vec<String>)
    requires
        strictly_sorted(keys_of(dependencies@)),
    ensures
        views(result@) == walk_order(dependencies@, target@),
        views(result@).no_duplicates(),
        forall|x: Seq<char>| views(result@).contains(x) <==> reaches(dependencies@, target@, x),
        result@.len() >= 1 && result@[result@.len() - 1]@ == target@,
        acyclic_from(dependencies@, target@) ==> forall|i: int, c: Seq<char>|
            0 <= i < result@.len() && children_of(dependencies@, result@[i]@).contains(c) ==> exists|k: int|
                0 <= k < i && #[trigger] result@[k]@ == c,
{
    let ghost deps = dependencies@;
    let ghost universe = seq![target@] + all_children(deps);
    let mut result: Vec<String> = Vec::new();
    let mut seen: Vec<String> = Vec::new();
    seen.push(owned(target));
    let mut frames: Vec<(String, usize)> = Vec::new();
    frames.push((owned(target), 0));
    proof {
        reveal(order_inv);
        let p = seq![target@];
        assert(text_path(deps, p));
        assert(reaches(deps, target@, target@));
        assert(universe[0] == target@);
        assert(keys_of(seen@) =~= seq![target@]);
        assert(frame_nodes(frames@) =~= seq![target@]);
        assert(views(result@) =~= Seq::<Seq<char>>::empty());
    }
    let ghost bound = universe.len();
    let ghost mut seen_order: Seq<Seq<char>> = seq![target@];
    let ghost out = walk_order(deps, target@);
    proof {
        let first = seq![(target@, false)];
        assert(first.drop_last() =~= Seq::<(Seq<char>, bool)>::empty());
        assert(!Seq::<Seq<char>>::empty().contains(target@));
        assert(Seq::<(Seq<char>, bool)>::empty().push((target@, true)) + visit_markers(children_of(deps, target@))
            =~= frames_markers(deps, frames@)) by {
            assert(frames@ =~= Seq::<(String, usize)>::empty().push(frames@[0]));
            lemma_frames_markers_push(deps, Seq::empty(), frames@[0]);
            assert(children_of(deps, target@).skip(0) =~= children_of(deps, target@));
        }
        assert(Seq::<Seq<char>>::empty().push(target@) =~= seen_order);
        assert(views(result@) + walk_emits(deps, frames_markers(deps, frames@), seen_order, bound) =~= out);
    }
    while frames.len() > 0
        invariant
            deps == dependencies@,
            universe == seq![target@] + all_children(deps),
            strictly_sorted(keys_of(deps)),
            strictly_sorted(keys_of(seen@)),
            seen@.len() <= universe.len(),
            order_inv(deps, target@, universe, seen@, result@, frames@),
            bound == universe.len(),
            seen_order.no_duplicates(),
            seen_order.len() == seen@.len(),
            forall|x: Seq<char>| seen_order.contains(x) <==> keys_of(seen@).contains(x),
            out == walk_order(deps, target@),
            views(result@) + walk_emits(deps, frames_markers(deps, frames@), seen_order, bound) == out,
        decreases universe.len() - seen@.len(), pending_children(deps, frames@), frames@.len(),
    {
        let top = frames.len() - 1;
        let entry = find_key(dependencies, frames[top].0.as_str());
        let count: usize = match entry {
            Some(e) => dependencies[e].1.len(),
            None => 0,
        };
        let index = frames[top].1;
        let ghost x = frames@[top as int].0@;
        let ghost old_frames = frames@;
        let ghost old_seen = seen@;
        let ghost old_result = result@;
        proof {
            lemma_order_top(deps, target@, universe, seen@, result@, frames@);
            match entry {
                Some(e) => {
                    assert(keys_of(deps)[e as int] == x);
                    let f = entry_of(deps, x);
                    if f != e as int {
                        lemma_sorted_distinct(keys_of(deps), f, e as int);
                    }
                    assert(children_of(deps, x).len() == count);
                },
                None => {
                    assert(children_of(deps, x).len() == 0);
                },
            }
            assert(old_frames =~= old_frames.drop_last().push(old_frames[top as int]));
            lemma_pending_children_push(deps, old_frames.drop_last(), old_frames[top as int]);
        }
        if index < count {
            let e = match entry {
                Some(e) => e,
                None => 0,
            };
            let child = dependencies[e].1[index].clone();
            assert(child@ == children_of(deps, x)[index as int]);
            let (node, _) = frames.pop().unwrap();
            frames.push((node, index + 1));
            proof {
                assert(frames@.drop_last() =~= old_frames.drop_last());
                lemma_pending_children_push(deps, old_frames.drop_last(), frames@[top as int]);
            }
            let ghost mid_frames = frames@;
            proof {
                assert(mid_frames =~= old_frames.drop_last().push((old_frames[top as int].0, (index + 1) as usize)));
                lemma_frames_markers_advance(deps, old_frames);
            }
            let inserted = insert_sorted(&mut seen, child.clone());
            if inserted {
                frames.push((child, 0));
                proof {
                    lemma_pending_children_push(deps, mid_frames, (child, 0usize));
                    lemma_frames_markers_push(deps, mid_frames, (child, 0usize));
                    assert(children_of(deps, child@).skip(0) =~= children_of(deps, child@));
                    assert(frames_markers(deps, mid_frames).push((child@, true)) + visit_markers(children_of(deps, child@))
                        =~= frames_markers(deps, frames@));
                }
            }
            proof {
                lemma_order_advance(deps, target@, universe, old_seen, seen@, result@, old_frames, frames@, children_of(deps, x)[index as int], inserted);
                let m = frames_markers(deps, mid_frames);
                assert(m.push((child@, false)).drop_last() =~= m);
                if inserted {
                    let before = seen_order;
                    assert(!before.contains(child@));
                    assert(before.len() < bound);
                    seen_order = before.push(child@);
                    assert forall|y: Seq<char>| seen_order.contains(y) <==> keys_of(seen@).contains(y) by {
                        if y == child@ {
                            assert(seen_order[before.len() as int] == y);
                        } else if before.contains(y) {
                            let w = choose|w: int| 0 <= w < before.len() && before[w] == y;
                            assert(seen_order[w] == y);
                        } else if seen_order.contains(y) {
                            let w = choose|w: int| 0 <= w < seen_order.len() && seen_order[w] == y;
                            assert(w < before.len());
                            assert(before[w] == y);
                        }
                    }
                    assert(walk_emits(deps, m.push((child@, false)), before, bound) == walk_emits(
                        deps,
                        m.push((child@, true)) + visit_markers(children_of(deps, child@)),
                        seen_order,
                        bound,
                    ));
                } else {
                    assert(seen_order.contains(child@));
                    assert(walk_emits(deps, m.push((child@, false)), seen_order, bound) == walk_emits(deps, m, seen_order, bound));
                }
                assert(frames_markers(deps, old_frames) == m.push((child@, false)));
                assert(views(result@) + walk_emits(deps, frames_markers(deps, frames@), seen_order, bound) == out);
            }
        } else {
            let (node, _) = frames.pop().unwrap();
            let ghost emitted = node@;
            result.push(node);
            proof {
                assert(frames@ =~= old_frames.drop_last());
                assert(old_frames =~= frames@.push(old_frames[top as int]));
                lemma_frames_markers_push(deps, frames@, old_frames[top as int]);
                assert(children_of(deps, x).skip(index as int) =~= Seq::<Seq<char>>::empty());
                assert(frames_markers(deps, old_frames) =~= frames_markers(deps, frames@).push((x, true)));
                assert(views(result@) =~= views(old_result).push(x));
                let m = frames_markers(deps, frames@);
                assert(m.push((x, true)).drop_last() =~= m);
                let w = walk_emits(deps, m, seen_order, bound);
                assert(walk_emits(deps, m.push((x, true)), seen_order, bound) == seq![x] + w);
                assert(views(old_result) + (seq![x] + w) =~= views(result@) + w);
                lemma_order_emit(deps, target@, universe, seen@, old_result, result@, old_frames, frames@);
            }
        }
    }
    proof {
        reveal(order_inv);
        assert forall|x: Seq<char>| views(result@).contains(x) implies reaches(deps, target@, x) by {
            assert(keys_of(seen@).contains(x));
        }
        assert forall|x: Seq<char>| reaches(deps, target@, x) implies views(result@).contains(x) by {
            let p = choose|p: Seq<Seq<char>>| #![trigger text_path(deps, p)]
                p.len() >= 1 && p[0] == target@ && p[p.len() - 1] == x && text_path(deps, p);
            assert(views(result@)[result@.len() - 1] == target@);
            assert forall|y: Seq<char>, c: Seq<char>| views(result@).contains(y) && children_of(deps, y).contains(c) implies views(result@).contains(c) by {
                let k = choose|k: int| 0 <= k < result@.len() && views(result@)[k] == y;
                assert(children_of(deps, result@[k]@).contains(c));
            }
            lemma_closed_set_contains_reachable(deps, views(result@), p);
        }
    }
    result
}

} // verus!
