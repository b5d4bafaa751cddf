//! Required-tool closure, dependency ordering, and version preflight.

use vstd::prelude::*;
use crate::config::validation::{check_named, CheckedConfig};
use crate::dag::{children_of, dependency_order, lemma_reaches_transitive, reaches, text_path, walk_order};
use crate::execution::checks::needed_tools;
use crate::text::{
    concat2, char_is_white_space, entry_of, extend_strings, insert_sorted, is_white_space, joined, keys_of, lemma_joined_take,
    lemma_sorted_unique, owned, strictly_sorted, views, Keyed,
};
use crate::versions::{parse_requirement, parse_version, requirement_matches, semver_matches, semver_requirement, semver_version};
use crate::contracts::config::ToolConfig;
use crate::contracts::report::{Status, ToolResult};
use crate::execution::checks::{lookup_status, set_status, status_of};
use crate::execution::run::CommandRequest;
use crate::execution::ProcessOutput;
use crate::config::validation::ValidatedConfig;

verus! {

/// A character kept at the ends of a version candidate.
pub open spec fn version_char(c: char) -> bool {
    ||| ('a' <= c <= 'z')
    ||| ('A' <= c <= 'Z')
    ||| ('0' <= c <= '9')
    ||| c == '.'
    ||| c == '-'
    ||| c == '+'
}

fn is_version_char(c: char) -> (r: bool)
    ensures
        r == version_char(c),
{
    ('a' <= c && c <= 'z') || ('A' <= c && c <= 'Z') || ('0' <= c && c <= '9') || c == '.' || c == '-' || c == '+'
}

/// The end of the run of non-white-space characters starting at `i`.
pub open spec fn run_end(s: Seq<char>, i: int) -> int
    decreases s.len() - i,
{
    if i < 0 || i >= s.len() || is_white_space(s[i]) {
        i
    } else {
        run_end(s, i + 1)
    }
}

/// A white-space-separated token of `s` starts at `i`.
pub open spec fn token_start(s: Seq<char>, i: int) -> bool {
    &&& 0 <= i < s.len()
    &&& !is_white_space(s[i])
    &&& (i == 0 || is_white_space(s[i - 1]))
}

/// The token starting at `i`.
pub open spec fn token_at(s: Seq<char>, i: int) -> Seq<char> {
    s.subrange(i, run_end(s, i))
}

/// The first position of `t` from `i` on holding a kept character.
pub open spec fn first_kept(t: Seq<char>, i: int) -> int
    decreases t.len() - i,
{
    if i < 0 || i >= t.len() || version_char(t[i]) {
        i
    } else {
        first_kept(t, i + 1)
    }
}

/// The end of `t` before its trailing characters that are not kept, not
/// going below `lo`.
pub open spec fn last_kept_end(t: Seq<char>, lo: int, e: int) -> int
    decreases e - lo,
{
    if e <= lo || version_char(t[e - 1]) {
        e
    } else {
        last_kept_end(t, lo, e - 1)
    }
}

/// A token without the characters at its ends that cannot belong to a
/// version, and without a leading `v`.
pub open spec fn version_candidate(t: Seq<char>) -> Seq<char> {
    let s = first_kept(t, 0);
    let e = last_kept_end(t, s, t.len() as int);
    let trimmed = t.subrange(s, e);
    if trimmed.len() > 0 && trimmed[0] == 'v' {
        trimmed.subrange(1, trimmed.len() as int)
    } else {
        trimmed
    }
}

/// The token at `i` yields a semantic version.
pub open spec fn token_versioned(s: Seq<char>, i: int) -> bool {
    semver_version(version_candidate(token_at(s, i))) is Some
}

proof fn lemma_run_end(s: Seq<char>, i: int)
    requires
        0 <= i <= s.len(),
    ensures
        i <= run_end(s, i) <= s.len(),
        forall|k: int| i <= k < run_end(s, i) ==> !is_white_space(#[trigger] s[k]),
        run_end(s, i) < s.len() ==> is_white_space(s[run_end(s, i)]),
    decreases s.len() - i,
{
    if i < s.len() && !is_white_space(s[i]) {
        lemma_run_end(s, i + 1);
    }
}

proof fn lemma_first_kept(t: Seq<char>, i: int)
    requires
        0 <= i <= t.len(),
    ensures
        i <= first_kept(t, i) <= t.len(),
        forall|k: int| i <= k < first_kept(t, i) ==> !version_char(#[trigger] t[k]),
        first_kept(t, i) < t.len() ==> version_char(t[first_kept(t, i)]),
    decreases t.len() - i,
{
    if i < t.len() && !version_char(t[i]) {
        lemma_first_kept(t, i + 1);
    }
}

proof fn lemma_last_kept_end(t: Seq<char>, lo: int, e: int)
    requires
        0 <= lo <= e <= t.len(),
    ensures
        lo <= last_kept_end(t, lo, e) <= e,
    decreases e - lo,
{
    if e > lo && !version_char(t[e - 1]) {
        lemma_last_kept_end(t, lo, e - 1);
    }
}

/// Strips a token to its version candidate.
fn candidate(token: &str) -> (r: &str)
    ensures
        r@ == version_candidate(token@),
{
    let n = token.unicode_len();
    let mut s: usize = 0;
    while s < n && !is_version_char(token.get_char(s))
        invariant
            n == token@.len(),
            s <= n,
            first_kept(token@, 0) == first_kept(token@, s as int),
        decreases n - s,
    {
        s = s + 1;
    }
    let mut e: usize = n;
    proof {
        lemma_first_kept(token@, 0);
    }
    while e > s && !is_version_char(token.get_char(e - 1))
        invariant
            n == token@.len(),
            s <= e <= n,
            s == first_kept(token@, 0),
            last_kept_end(token@, s as int, n as int) == last_kept_end(token@, s as int, e as int),
        decreases e - s,
    {
        e = e - 1;
    }
    let trimmed = token.substring_char(s, e);
    if e > s && trimmed.get_char(0) == 'v' {
        trimmed.substring_char(1, e - s)
    } else {
        trimmed
    }
}

/// The token starting at `i` is the first one of `s` that holds a
/// semantic version.
pub open spec fn first_versioned_at(s: Seq<char>, i: int) -> bool {
    &&& token_start(s, i)
    &&& token_versioned(s, i)
    &&& forall|j: int| 0 <= j < i && token_start(s, j) ==> !token_versioned(s, j)
}

/// The candidate text and canonical display of the first semantic version
/// among the tokens of `s`, if any token holds one.
pub open spec fn version_found(s: Seq<char>) -> Option<(Seq<char>, Seq<char>)> {
    if exists|i: int| first_versioned_at(s, i) {
        let i = choose|i: int| first_versioned_at(s, i);
        let text = version_candidate(token_at(s, i));
        Some((text, semver_version(text)->0))
    } else {
        None
    }
}

/// Only one token is the first to hold a semantic version.
pub proof fn lemma_first_versioned_unique(s: Seq<char>, i: int, j: int)
    requires
        first_versioned_at(s, i),
        first_versioned_at(s, j),
    ensures
        i == j,
{
}

/// Finds the first white-space-separated token of `output` that holds a
/// semantic version, returning that version's candidate text and its
/// canonical display.
pub fn first_semver_candidate(output: &str) -> (r: Option<(String, String)>)
    ensures
        version_found(output@) == match r {
            Some((text, version)) => Some((text@, version@)),
            None => None,
        },
        match r {
            Some((text, version)) => exists|i: int|
                token_start(output@, i) && text@ == version_candidate(#[trigger] token_at(output@, i))
                    && semver_version(text@) == Some(version@) && forall|j: int|
                    0 <= j < i && token_start(output@, j) ==> !token_versioned(output@, j),
            None => forall|i: int| token_start(output@, i) ==> !token_versioned(output@, i),
        },
{
    let n = output.unicode_len();
    let mut i: usize = 0;
    while i < n
        invariant
            n == output@.len(),
            i <= n,
            forall|j: int| 0 <= j < i && token_start(output@, j) ==> !token_versioned(output@, j),
            i < n && !is_white_space(output@[i as int]) ==> (i == 0 || is_white_space(output@[i - 1])),
        decreases n - i,
    {
        if char_is_white_space(output.get_char(i)) {
            i = i + 1;
            continue;
        }
        let start = i;
        let mut end = i;
        proof {
            lemma_run_end(output@, start as int);
        }
        while end < n && !char_is_white_space(output.get_char(end))
            invariant
                n == output@.len(),
                start <= end <= n,
                run_end(output@, start as int) == run_end(output@, end as int),
            decreases n - end,
        {
            end = end + 1;
        }
        let token = output.substring_char(start, end);
        let text = candidate(token);
        proof {
            assert(token_start(output@, start as int));
            assert(run_end(output@, end as int) == end);
            assert(token@ == token_at(output@, start as int));
        }
        match parse_version(text) {
            Some(version) => {
                proof {
                    assert(first_versioned_at(output@, start as int));
                    let w = choose|w: int| first_versioned_at(output@, w);
                    lemma_first_versioned_unique(output@, start as int, w);
                }
                return Some((owned(text), version));
            },
            None => {},
        }
        proof {
            assert(!token_versioned(output@, start as int));
            assert forall|j: int| 0 <= j < end && token_start(output@, j) implies !token_versioned(output@, j) by {
                if start < j && j < end {
                    assert(!is_white_space(output@[j - 1]));
                }
            }
        }
        i = end;
    }
    None
}

/// Extracts the first complete semantic version token from command output,
/// in its canonical display form.
pub fn first_semver(output: &str) -> (r: Option<String>)
    ensures
        match r {
            Some(version) => exists|i: int|
                token_start(output@, i) && semver_version(version_candidate(#[trigger] token_at(output@, i)))
                    == Some(version@) && forall|j: int|
                    0 <= j < i && token_start(output@, j) ==> !token_versioned(output@, j),
            None => forall|i: int| token_start(output@, i) ==> !token_versioned(output@, i),
        },
{
    match first_semver_candidate(output) {
        Some((_, version)) => Some(version),
        None => None,
    }
}

/// The tools a declared check needs directly; nothing for an unknown check.
pub open spec fn check_roots(c: CheckedConfig, id: Seq<char>) -> Seq<Seq<char>> {
    if keys_of(c.config.checks@).contains(id) {
        needed_tools(check_named(c.config, id))
    } else {
        Seq::empty()
    }
}

/// The tools the selected checks and the repository provider need directly.
pub open spec fn tool_roots(c: CheckedConfig, check_ids: Seq<String>) -> Seq<Seq<char>> {
    joined(Seq::new(check_ids.len(), |k: int| check_roots(c, check_ids[k]@))) + match c.config.repository {
        Some(repository) => seq![repository.tool_id@],
        None => Seq::empty(),
    }
}

/// `x` is required, directly or through tool requirements, by some root.
pub open spec fn needed_tool(c: CheckedConfig, roots: Seq<Seq<char>>, x: Seq<char>) -> bool {
    exists|k: int| 0 <= k < roots.len() && reaches(c.tool_graph@, #[trigger] roots[k], x)
}

fn tool_root_list(c: &CheckedConfig, check_ids: &Vec<String>) -> (r: Vec<String>)
    requires
        c.wf(),
    ensures
        views(r@) == tool_roots(*c, check_ids@),
{
    let ghost parts = Seq::new(check_ids@.len(), |k: int| check_roots(*c, check_ids@[k]@));
    let mut roots: Vec<String> = Vec::new();
    let mut k: usize = 0;
    while k < check_ids.len()
        invariant
            c.wf(),
            k <= check_ids@.len(),
            parts == Seq::new(check_ids@.len(), |k: int| check_roots(*c, check_ids@[k]@)),
            views(roots@) == joined(parts.take(k as int)),
        decreases check_ids@.len() - k,
    {
        let ghost before = views(roots@);
        match c.check_position(check_ids[k].as_str()) {
            Some(p) => {
                let check = &c.config.checks[p];
                let ghost prev = roots@;
                let item = owned(check.tool_id.as_str());
                roots.push(item);
                assert(roots@ == prev.push(item));
                assert(views(roots@) =~= before.push(item@));
                extend_strings(&mut roots, &check.requires_tools);
                assert(views(roots@) =~= before + needed_tools(*check));
                assert(keys_of(c.config.checks@)[p as int] == check_ids@[k as int]@);
                assert(parts[k as int] == needed_tools(*check));
            },
            None => {
                assert(views(roots@) =~= before + Seq::<Seq<char>>::empty());
            },
        }
        proof {
            lemma_joined_take(parts, k as int);
        }
        k = k + 1;
    }
    assert(parts.take(parts.len() as int) =~= parts);
    let ghost before = views(roots@);
    match &c.config.repository {
        Some(repository) => {
            roots.push(owned(repository.tool_id.as_str()));
            assert(views(roots@) =~= before + seq![repository.tool_id@]);
        },
        None => {
            assert(views(roots@) =~= before + Seq::<Seq<char>>::empty());
        },
    }
    roots
}

fn contains_text(items: &Vec<String>, x: &str) -> (r: bool)
    requires
        strictly_sorted(keys_of(items@)),
    ensures
        r == keys_of(items@).contains(x@),
{
    crate::text::find_key(items, x).is_some()
}

/// Each identifier of `items` once, where it first occurs.
pub open spec fn first_occurrences(items: Seq<Seq<char>>) -> Seq<Seq<char>>
    decreases items.len(),
{
    if items.len() == 0 {
        Seq::empty()
    } else {
        let rest = first_occurrences(items.drop_last());
        if rest.contains(items.last()) {
            rest
        } else {
            rest.push(items.last())
        }
    }
}

/// The needed tools in identifier order.
pub open spec fn needed_sorted(c: CheckedConfig, roots: Seq<Seq<char>>) -> Seq<Seq<char>> {
    choose|s: Seq<Seq<char>>| strictly_sorted(s) && forall|x: Seq<char>| s.contains(x) <==> needed_tool(c, roots, x)
}

/// The order in which the tools needed by `check_ids` are listed and
/// checked: the dependency-first order of each needed tool, the tools taken
/// in identifier order, each tool where it first occurs.
pub open spec fn tool_order(c: CheckedConfig, check_ids: Seq<String>) -> Seq<Seq<char>> {
    let sorted = needed_sorted(c, tool_roots(c, check_ids));
    first_occurrences(joined(Seq::new(sorted.len(), |k: int| walk_order(c.tool_graph@, sorted[k]))))
}

/// Computes the deterministic dependency-first tool closure without execution.
///
/// The result holds each tool needed by the selected checks or by the
/// repository provider once; every tool comes after the tools it requires.
pub fn necessary_tool_ids(c: &CheckedConfig, check_ids: &Vec<String>) -> (r: Vec<String>)
    requires
        c.wf(),
    ensures
        views(r@) == tool_order(*c, check_ids@),
        views(r@).no_duplicates(),
        forall|x: Seq<char>| views(r@).contains(x) <==> needed_tool(*c, tool_roots(*c, check_ids@), x),
        forall|i: int, ch: Seq<char>|
            0 <= i < r@.len() && children_of(c.tool_graph@, r@[i]@).contains(ch) ==> exists|k: int|
                0 <= k < i && #[trigger] r@[k]@ == ch,
{
    let g = &c.tool_graph;
    let roots = tool_root_list(c, check_ids);
    let ghost rv = views(roots@);
    let mut relevant: Vec<String> = Vec::new();
    let mut k: usize = 0;
    while k < roots.len()
        invariant
            c.wf(),
            g == &c.tool_graph,
            rv == views(roots@),
            k <= roots@.len(),
            strictly_sorted(keys_of(relevant@)),
            forall|x: Seq<char>| #[trigger] keys_of(relevant@).contains(x) <==> exists|q: int| 0 <= q < k && reaches(g@, #[trigger] rv[q], x),
        decreases roots@.len() - k,
    {
        let closure = dependency_order(roots[k].as_str(), g);
        let ghost before = keys_of(relevant@);
        let mut m: usize = 0;
        while m < closure.len()
            invariant
                k < roots@.len(),
                rv == views(roots@),
                m <= closure@.len(),
                strictly_sorted(keys_of(relevant@)),
                forall|x: Seq<char>| views(closure@).contains(x) <==> reaches(g@, roots@[k as int]@, x),
                forall|x: Seq<char>| #[trigger] keys_of(relevant@).contains(x) <==> (before.contains(x) || exists|a: int| 0 <= a < m && #[trigger] closure@[a]@ == x),
            decreases closure@.len() - m,
        {
            let ghost prev = keys_of(relevant@);
            let item = owned(closure[m].as_str());
            assert(item.key_view() == closure@[m as int]@);
            insert_sorted(&mut relevant, item);
            assert forall|x: Seq<char>| keys_of(relevant@).contains(x) <==> (before.contains(x) || exists|a: int| 0 <= a < m + 1 && #[trigger] closure@[a]@ == x) by {
                if exists|a: int| 0 <= a < m + 1 && #[trigger] closure@[a]@ == x {
                    let a = choose|a: int| 0 <= a < m + 1 && #[trigger] closure@[a]@ == x;
                    if a < m {
                        assert(exists|b: int| 0 <= b < m && #[trigger] closure@[b]@ == x);
                        assert(prev.contains(x));
                    }
                }
                if keys_of(relevant@).contains(x) && x != closure@[m as int]@ {
                    assert(prev.contains(x));
                    if !before.contains(x) {
                        let b = choose|b: int| 0 <= b < m && #[trigger] closure@[b]@ == x;
                        assert(0 <= b < m + 1 && closure@[b]@ == x);
                    }
                }
                if before.contains(x) {
                    assert(prev.contains(x));
                }
            }
            m = m + 1;
        }
        assert forall|x: Seq<char>| keys_of(relevant@).contains(x) <==> exists|q: int| 0 <= q < k + 1 && reaches(g@, #[trigger] rv[q], x) by {
            if keys_of(relevant@).contains(x) {
                if before.contains(x) {
                    let q = choose|q: int| 0 <= q < k && reaches(g@, #[trigger] rv[q], x);
                    assert(0 <= q < k + 1 && reaches(g@, rv[q], x));
                } else {
                    let a = choose|a: int| 0 <= a < closure@.len() && #[trigger] closure@[a]@ == x;
                    assert(views(closure@)[a] == x);
                    assert(views(closure@).contains(x));
                    assert(rv[k as int] == roots@[k as int]@);
                    assert(reaches(g@, rv[k as int], x));
                }
            }
            if exists|q: int| 0 <= q < k + 1 && reaches(g@, #[trigger] rv[q], x) {
                let q = choose|q: int| 0 <= q < k + 1 && reaches(g@, #[trigger] rv[q], x);
                if q == k {
                    assert(rv[q] == roots@[k as int]@);
                    assert(views(closure@).contains(x));
                    let a = choose|a: int| 0 <= a < views(closure@).len() && views(closure@)[a] == x;
                    assert(closure@[a]@ == x);
                    assert(exists|b: int| 0 <= b < closure@.len() && #[trigger] closure@[b]@ == x);
                } else {
                    assert(exists|p: int| 0 <= p < k && reaches(g@, #[trigger] rv[p], x));
                    assert(before.contains(x));
                }
            }
        }
        k = k + 1;
    }
    let mut ordered: Vec<String> = Vec::new();
    let mut seen: Vec<String> = Vec::new();
    let ghost rel = views(relevant@);
    let ghost walks = Seq::new(rel.len(), |q: int| walk_order(g@, rel[q]));
    assert(views(ordered@) =~= first_occurrences(joined(walks.take(0))));
    let mut k: usize = 0;
    while k < relevant.len()
        invariant
            rel == views(relevant@),
            walks == Seq::new(rel.len(), |q: int| walk_order(g@, rel[q])),
            views(ordered@) == first_occurrences(joined(walks.take(k as int))),
            c.wf(),
            g == &c.tool_graph,
            rv == views(roots@),
            k <= relevant@.len(),
            strictly_sorted(keys_of(relevant@)),
            strictly_sorted(keys_of(seen@)),
            forall|x: Seq<char>| keys_of(relevant@).contains(x) <==> exists|q: int| 0 <= q < rv.len() && reaches(g@, #[trigger] rv[q], x),
            forall|x: Seq<char>| keys_of(seen@).contains(x) <==> views(ordered@).contains(x),
            forall|x: Seq<char>| #[trigger] views(ordered@).contains(x) ==> keys_of(relevant@).contains(x),
            forall|q: int| 0 <= q < k ==> keys_of(seen@).contains(#[trigger] keys_of(relevant@)[q]),
            views(ordered@).no_duplicates(),
            forall|i: int, ch: Seq<char>|
                0 <= i < ordered@.len() && children_of(g@, ordered@[i]@).contains(ch) ==> exists|q: int|
                    0 <= q < i && #[trigger] ordered@[q]@ == ch,
        decreases relevant@.len() - k,
    {
        let closure = dependency_order(relevant[k].as_str(), g);
        let ghost id = relevant@[k as int]@;
        proof {
            assert(keys_of(relevant@)[k as int] == id);
            assert(keys_of(relevant@).contains(id));
        }
        let ghost done = joined(walks.take(k as int));
        assert(views(closure@) == walks[k as int]);
        assert(done + views(closure@).take(0) =~= done);
        let mut m: usize = 0;
        while m < closure.len()
            invariant
                rel == views(relevant@),
                walks == Seq::new(rel.len(), |q: int| walk_order(g@, rel[q])),
                done == joined(walks.take(k as int)),
                views(closure@) == walks[k as int],
                views(ordered@) == first_occurrences(done + views(closure@).take(m as int)),
                c.wf(),
                g == &c.tool_graph,
                rv == views(roots@),
                k < relevant@.len(),
                id == relevant@[k as int]@,
                m <= closure@.len(),
                strictly_sorted(keys_of(relevant@)),
                strictly_sorted(keys_of(seen@)),
                forall|x: Seq<char>| keys_of(relevant@).contains(x) <==> exists|q: int| 0 <= q < rv.len() && reaches(g@, #[trigger] rv[q], x),
                keys_of(relevant@).contains(id),
                forall|x: Seq<char>| views(closure@).contains(x) <==> reaches(g@, id, x),
                forall|i: int, ch: Seq<char>|
                    0 <= i < closure@.len() && children_of(g@, closure@[i]@).contains(ch) ==> exists|q: int|
                        0 <= q < i && #[trigger] closure@[q]@ == ch,
                forall|x: Seq<char>| keys_of(seen@).contains(x) <==> views(ordered@).contains(x),
                forall|x: Seq<char>| #[trigger] views(ordered@).contains(x) ==> keys_of(relevant@).contains(x),
                forall|q: int| 0 <= q < k ==> keys_of(seen@).contains(#[trigger] keys_of(relevant@)[q]),
                forall|a: int| 0 <= a < m ==> keys_of(seen@).contains(#[trigger] closure@[a]@),
                views(ordered@).no_duplicates(),
                forall|i: int, ch: Seq<char>|
                    0 <= i < ordered@.len() && children_of(g@, ordered@[i]@).contains(ch) ==> exists|q: int|
                        0 <= q < i && #[trigger] ordered@[q]@ == ch,
            decreases closure@.len() - m,
        {
            let dep = closure[m].as_str();
            proof {
                assert(views(closure@)[m as int] == dep@);
                assert(views(closure@).contains(dep@));
                let q = choose|q: int| 0 <= q < rv.len() && reaches(g@, #[trigger] rv[q], id);
                lemma_reaches_transitive(g@, rv[q], id, dep@);
            }
            let ghost prefix = done + views(closure@).take(m as int);
            assert(done + views(closure@).take(m + 1) =~= prefix.push(dep@));
            assert(prefix.push(dep@).drop_last() =~= prefix);
            if contains_text(&relevant, dep) {
                let ghost prev_seen = keys_of(seen@);
                let ghost prev = ordered@;
                let key = owned(dep);
                assert(key.key_view() == dep@);
                if insert_sorted(&mut seen, key) {
                    let item = owned(dep);
                    ordered.push(item);
                    proof {
                        assert(ordered@ == prev.push(item));
                        assert(views(ordered@) =~= views(prev).push(dep@));
                        assert(!views(prev).contains(dep@));
                        assert forall|x: Seq<char>| keys_of(seen@).contains(x) <==> views(ordered@).contains(x) by {
                            assert(views(ordered@)[prev.len() as int] == dep@);
                            if keys_of(seen@).contains(x) && x != dep@ {
                                assert(prev_seen.contains(x));
                                assert(views(prev).contains(x));
                            }
                            if views(ordered@).contains(x) && x != dep@ {
                                let w = choose|w: int| 0 <= w < views(ordered@).len() && views(ordered@)[w] == x;
                                assert(views(prev)[w] == x);
                            }
                            if views(prev).contains(x) {
                                let w = choose|w: int| 0 <= w < views(prev).len() && views(prev)[w] == x;
                                assert(views(ordered@)[w] == x);
                            }
                        }
                        assert forall|x: Seq<char>| #[trigger] views(ordered@).contains(x) implies keys_of(relevant@).contains(x) by {
                            if x != dep@ {
                                let w = choose|w: int| 0 <= w < views(ordered@).len() && views(ordered@)[w] == x;
                                assert(views(prev)[w] == x);
                                assert(views(prev).contains(x));
                            }
                        }
                        assert forall|i: int, j: int| 0 <= i < views(ordered@).len() && 0 <= j < views(ordered@).len() && i != j implies views(ordered@)[i] != views(ordered@)[j] by {
                            if i == prev.len() as int {
                                assert(views(prev).contains(views(ordered@)[j]));
                            } else if j == prev.len() as int {
                                assert(views(prev).contains(views(ordered@)[i]));
                            }
                        }
                        assert forall|i: int, ch: Seq<char>|
                            0 <= i < ordered@.len() && children_of(g@, ordered@[i]@).contains(ch) implies exists|q: int|
                                0 <= q < i && #[trigger] ordered@[q]@ == ch by {
                            if i < prev.len() {
                                assert(ordered@[i] == prev[i]);
                                let q = choose|q: int| 0 <= q < i && #[trigger] prev[q]@ == ch;
                                assert(ordered@[q] == prev[q]);
                            } else {
                                let a = choose|a: int| 0 <= a < m && #[trigger] closure@[a]@ == ch;
                                assert(keys_of(seen@).contains(ch) || prev_seen.contains(ch));
                                assert(prev_seen.contains(ch));
                                assert(views(prev).contains(ch));
                                let q = choose|q: int| 0 <= q < views(prev).len() && views(prev)[q] == ch;
                                assert(ordered@[q]@ == ch);
                            }
                        }
                    }
                }
            } else {
                proof {
                    assert(false);
                }
            }
            m = m + 1;
        }
        proof {
            assert(views(closure@).take(closure@.len() as int) =~= views(closure@));
            lemma_joined_take(walks, k as int);
            assert(views(closure@).contains(id)) by {
                assert(text_path(g@, seq![id]));
            }
            let a = choose|a: int| 0 <= a < views(closure@).len() && views(closure@)[a] == id;
            assert(closure@[a]@ == id);
            assert(keys_of(seen@).contains(keys_of(relevant@)[k as int]));
        }
        k = k + 1;
    }
    proof {
        let roots_view = tool_roots(*c, check_ids@);
        assert(walks.take(rel.len() as int) =~= walks);
        assert(rel =~= keys_of(relevant@));
        assert forall|x: Seq<char>| rel.contains(x) <==> needed_tool(*c, roots_view, x) by {
            if rel.contains(x) {
                assert(keys_of(relevant@).contains(x));
            }
            if needed_tool(*c, roots_view, x) {
                assert(keys_of(relevant@).contains(x));
            }
        }
        let sorted = needed_sorted(*c, roots_view);
        assert(strictly_sorted(sorted) && forall|x: Seq<char>| sorted.contains(x) <==> needed_tool(*c, roots_view, x));
        lemma_sorted_unique(rel, sorted);
        assert(views(ordered@) == tool_order(*c, check_ids@));
        assert forall|x: Seq<char>| views(ordered@).contains(x) <==> needed_tool(*c, tool_roots(*c, check_ids@), x) by {
            if needed_tool(*c, tool_roots(*c, check_ids@), x) {
                assert(keys_of(relevant@).contains(x));
                let q = choose|q: int| 0 <= q < keys_of(relevant@).len() && keys_of(relevant@)[q] == x;
                assert(keys_of(seen@).contains(keys_of(relevant@)[q]));
            }
        }
    }
    ordered
}

/// Debug notation of an optional exit code: `Some(code)` or `None`.
pub open spec fn exit_code_text(code: Option<i32>) -> Seq<char> {
    match code {
        Some(c) => "Some("@ + crate::text::signed_text(c as int) + ")"@,
        None => "None"@,
    }
}

pub fn format_exit_code(code: Option<i32>) -> (r: String)
    ensures
        r@ == exit_code_text(code),
{
    match code {
        Some(c) => {
            let mut r = owned("Some(");
            crate::text::push_signed(&mut r, c as i64);
            r.append(")");
            r
        },
        None => owned("None"),
    }
}

/// Why a tool's version command does not make the tool available, if it does.
///
/// `found` is the first version candidate of the command's output with its
/// canonical display.
pub open spec fn tool_reason(tool: ToolConfig, output: ProcessOutput, found: Option<(Seq<char>, Seq<char>)>) -> Option<Seq<char>> {
    match output.start_error {
        Some(error) => Some("cannot start "@ + tool.program@ + ": "@ + error@),
        None => if output.interrupted {
            Some("interrupted"@)
        } else if output.timed_out {
            Some("version command timed out"@)
        } else if output.exit_code != Some(0i32) {
            Some("version command exited with "@ + exit_code_text(output.exit_code))
        } else {
            match found {
                None => Some("version command did not produce a semantic version"@),
                Some((candidate, version)) => match tool.version_requirement {
                    Some(requirement) => match semver_requirement(requirement@) {
                        Ok(display) => if semver_matches(requirement@, candidate) {
                            None
                        } else {
                            Some("version "@ + version + " does not satisfy "@ + display)
                        },
                        Err(_) => None,
                    },
                    None => None,
                },
            }
        },
    }
}

/// Decides what a tool's version command shows about the tool.
pub fn tool_verdict(tool: &ToolConfig, output: &ProcessOutput, found: &Option<(String, String)>) -> (r: Option<String>)
    requires
        found matches Some((candidate, version)) ==> semver_version(candidate@) == Some(version@),
        tool.version_requirement matches Some(requirement) ==> semver_requirement(requirement@) is Ok,
    ensures
        match r {
            Some(reason) => tool_reason(*tool, *output, match found {
                Some((c, v)) => Some((c@, v@)),
                None => None,
            }) == Some(reason@),
            None => tool_reason(*tool, *output, match found {
                Some((c, v)) => Some((c@, v@)),
                None => None,
            }) is None,
        },
{
    match &output.start_error {
        Some(error) => {
            let mut m = concat2("cannot start ", tool.program.as_str());
            m.append(": ");
            m.append(error.as_str());
            return Some(m);
        },
        None => {},
    }
    if output.interrupted {
        return Some(owned("interrupted"));
    }
    if output.timed_out {
        return Some(owned("version command timed out"));
    }
    let exited_zero = match output.exit_code {
        Some(code) => code == 0,
        None => false,
    };
    if !exited_zero {
        let mut m = owned("version command exited with ");
        m.append(format_exit_code(output.exit_code).as_str());
        return Some(m);
    }
    match found {
        None => Some(owned("version command did not produce a semantic version")),
        Some((candidate, version)) => match &tool.version_requirement {
            Some(requirement) => match parse_requirement(requirement.as_str()) {
                Ok(display) => {
                    if requirement_matches(requirement.as_str(), candidate.as_str()) {
                        None
                    } else {
                        let mut m = concat2("version ", version.as_str());
                        m.append(" does not satisfy ");
                        m.append(display.as_str());
                        Some(m)
                    }
                },
                Err(_) => None,
            },
            None => None,
        },
    }
}

/// A clean run of a tool's version command: it started, was neither
/// interrupted nor timed out, and exited with zero.
pub open spec fn clean_run(output: ProcessOutput) -> bool {
    output.start_error is None && !output.interrupted && !output.timed_out && output.exit_code == Some(0i32)
}

/// A tool whose found version does not satisfy its parsed requirement is
/// unavailable after a clean version command, with the reason naming the
/// version and the requirement as parsed.
pub proof fn lemma_unsatisfied_requirement_blocks(
    tool: ToolConfig,
    output: ProcessOutput,
    requirement: Seq<char>,
    display: Seq<char>,
    candidate: Seq<char>,
    version: Seq<char>,
)
    requires
        clean_run(output),
        tool.version_requirement matches Some(r) && r@ == requirement,
        semver_requirement(requirement) == Ok::<Seq<char>, Seq<char>>(display),
        !semver_matches(requirement, candidate),
    ensures
        tool_reason(tool, output, Some((candidate, version))) == Some("version "@ + version + " does not satisfy "@ + display),
{
}

/// After a clean version command a tool is available exactly when a version
/// was found and it meets the tool's requirement, if the tool has one; a
/// command that did not run cleanly makes the tool unavailable whatever it
/// printed.
pub proof fn lemma_version_requirement_decides(
    tool: ToolConfig,
    output: ProcessOutput,
    found: Option<(Seq<char>, Seq<char>)>,
)
    requires
        tool.version_requirement matches Some(r) ==> semver_requirement(r@) is Ok,
    ensures
        (tool_reason(tool, output, found) is None) <==> (clean_run(output) && match found {
            Some((candidate, _)) => match tool.version_requirement {
                Some(r) => semver_matches(r@, candidate),
                None => true,
            },
            None => false,
        }),
{
}

/// What the caller does after a preflight step.
#[derive(Clone, Debug)]
pub enum PreflightStep {
    /// Call the next step without output.
    Continue,
    /// Run the version command and pass its output to the next step.
    Run(CommandRequest),
    /// Every needed tool has a result.
    Finished,
}

/// Version preflight of the tools a run needs, in dependency-first order.
#[derive(Clone, Debug)]
pub struct Preflight {
    /// The needed tools, each after the tools it requires.
    pub order: Vec<String>,
    /// The next tool to examine.
    pub next: usize,
    /// The status of each examined tool.
    pub statuses: Vec<(String, Status)>,
    /// The result of each examined tool, in order.
    pub results: Vec<ToolResult>,
    /// The position of the tool whose version command is running.
    pub pending: Option<usize>,
}

/// The first tool `tool` requires that did not pass preflight.
pub open spec fn blocking_requirement(tool: ToolConfig, statuses: Seq<(String, Status)>, i: int) -> bool {
    crate::execution::checks::first_unmet(views(tool.requires_tools@), statuses, i)
}

/// The complete version command of a tool: its executable, then its
/// version arguments.
fn version_command(tool: &ToolConfig) -> (r: Vec<String>)
    ensures
        views(r@) == seq![tool.program@] + views(tool.version_args@),
{
    let mut r: Vec<String> = Vec::new();
    r.push(owned(tool.program.as_str()));
    extend_strings(&mut r, &tool.version_args);
    assert(views(r@) =~= seq![tool.program@] + views(tool.version_args@));
    r
}

/// The text of an optional string.
pub open spec fn text_of_option(value: Option<String>) -> Option<Seq<char>> {
    match value {
        Some(text) => Some(text@),
        None => None,
    }
}

/// `result` records `tool` with the given status, version and reason.
pub open spec fn records_tool(
    result: ToolResult,
    tool: ToolConfig,
    status: Status,
    version: Option<Seq<char>>,
    reason: Option<Seq<char>>,
) -> bool {
    &&& result.id@ == tool.id@
    &&& result.program@ == tool.program@
    &&& views(result.argv@) == seq![tool.program@] + views(tool.version_args@)
    &&& result.status == status
    &&& text_of_option(result.version) == version
    &&& text_of_option(result.reason) == reason
}

/// `after` is `before` once `tool` was examined with the given outcome:
/// its status recorded, its result appended, and the next tool up.
pub open spec fn examined(
    before: Preflight,
    after: Preflight,
    tool: ToolConfig,
    status: Status,
    version: Option<Seq<char>>,
    reason: Option<Seq<char>>,
) -> bool {
    &&& after.order == before.order
    &&& after.next == before.next + 1
    &&& after.pending is None
    &&& status_of(after.statuses@, tool.id@) == Some(status)
    &&& forall|other: Seq<char>| other != tool.id@ ==> status_of(after.statuses@, other) == status_of(before.statuses@, other)
    &&& after.results@.len() == before.results@.len() + 1
    &&& forall|k: int| 0 <= k < before.results@.len() ==> after.results@[k] == before.results@[k]
    &&& records_tool(after.results@.last(), tool, status, version, reason)
}

/// `x` names a declared tool.
pub open spec fn declared_tool(v: ValidatedConfig, x: Seq<char>) -> bool {
    keys_of(v.checked.config.tools@).contains(x)
}

/// The tool identifiers of preflight results, in order.
pub open spec fn result_ids(results: Seq<ToolResult>) -> Seq<Seq<char>> {
    Seq::new(results.len(), |k: int| results[k].id@)
}

/// Preflight examines declared tools alone, has one result for each tool
/// it passed, in tool order, and the version command it waits for is that
/// of its next tool.
pub open spec fn results_in_order(v: ValidatedConfig, pf: Preflight) -> bool {
    &&& forall|i: int| 0 <= i < pf.order@.len() ==> declared_tool(v, #[trigger] pf.order@[i]@)
    &&& result_ids(pf.results@) == views(pf.order@).take(pf.next as int).filter(|x: Seq<char>| declared_tool(v, x))
    &&& pf.pending matches Some(p) ==> v.checked.config.tools@[p as int].id@ == pf.order@[pf.next as int]@
        && declared_tool(v, pf.order@[pf.next as int]@)
}

proof fn lemma_joined_declared(v: ValidatedConfig, parts: Seq<Seq<Seq<char>>>)
    requires
        forall|k: int, i: int| 0 <= k < parts.len() && 0 <= i < parts[k].len() ==> declared_tool(v, #[trigger] parts[k][i]),
    ensures
        forall|i: int| 0 <= i < joined(parts).len() ==> declared_tool(v, #[trigger] joined(parts)[i]),
    decreases parts.len(),
{
    if parts.len() > 0 {
        let head = parts.drop_last();
        assert forall|k: int, i: int| 0 <= k < head.len() && 0 <= i < head[k].len() implies declared_tool(v, #[trigger] head[k][i]) by {
            assert(head[k] == parts[k]);
            assert(declared_tool(v, parts[k][i]));
        }
        lemma_joined_declared(v, head);
        let a = joined(head);
        let last = parts.last();
        assert(joined(parts) == a + last);
        assert forall|i: int| 0 <= i < joined(parts).len() implies declared_tool(v, #[trigger] joined(parts)[i]) by {
            if i < a.len() {
                assert(joined(parts)[i] == a[i]);
            } else {
                assert(joined(parts)[i] == last[i - a.len()]);
                assert(declared_tool(v, parts[parts.len() - 1][i - a.len()]));
            }
        }
    }
}

/// The tools that the selected checks and the repository provider of a
/// validated configuration need directly are declared.
proof fn lemma_roots_declared(v: ValidatedConfig, check_ids: Seq<String>)
    requires
        v.wf(),
    ensures
        forall|i: int| 0 <= i < tool_roots(v.checked, check_ids).len() ==> declared_tool(v, #[trigger] tool_roots(v.checked, check_ids)[i]),
{
    let c = v.checked;
    let parts = Seq::new(check_ids.len(), |k: int| check_roots(c, check_ids[k]@));
    assert forall|k: int, i: int| 0 <= k < parts.len() && 0 <= i < parts[k].len() implies declared_tool(v, #[trigger] parts[k][i]) by {
        let id = check_ids[k]@;
        let checks = c.config.checks@;
        let e = choose|e: int| 0 <= e < keys_of(checks).len() && keys_of(checks)[e] == id;
        assert(checks[e].key_view() == id);
        let p = entry_of(checks, id);
        crate::config::validation::lemma_check_tools_declared(c, p);
        let check = checks[p];
        assert(parts[k] == seq![check.tool_id@] + views(check.requires_tools@));
        if i > 0 {
            assert(parts[k][i] == check.requires_tools@[i - 1]@);
        }
    }
    lemma_joined_declared(v, parts);
    crate::config::validation::lemma_repository_tool_declared(c);
    let roots = tool_roots(c, check_ids);
    assert forall|i: int| 0 <= i < roots.len() implies declared_tool(v, #[trigger] roots[i]) by {
        if i < joined(parts).len() {
            assert(roots[i] == joined(parts)[i]);
        }
    }
}

/// Every tool that a validated configuration's checks and repository
/// provider need, directly or through requirements, is declared.
pub proof fn lemma_needed_tools_declared(v: ValidatedConfig, check_ids: Seq<String>, x: Seq<char>)
    requires
        v.wf(),
        needed_tool(v.checked, tool_roots(v.checked, check_ids), x),
    ensures
        declared_tool(v, x),
{
    let c = v.checked;
    let roots = tool_roots(c, check_ids);
    lemma_roots_declared(v, check_ids);
    let k = choose|k: int| 0 <= k < roots.len() && reaches(c.tool_graph@, #[trigger] roots[k], x);
    let p = choose|p: Seq<Seq<char>>| #![trigger text_path(c.tool_graph@, p)]
        p.len() >= 1 && p[0] == roots[k] && p[p.len() - 1] == x && text_path(c.tool_graph@, p);
    if p.len() == 1 {
        assert(declared_tool(v, roots[k]));
    } else {
        let n = p.len() as int;
        assert(crate::dag::text_edge(c.tool_graph@, p[n - 2], p[n - 1]));
        crate::config::validation::lemma_graph_target_declared(c, p[n - 2], x);
    }
}

proof fn lemma_filter_keeps_declared(v: ValidatedConfig, s: Seq<Seq<char>>)
    requires
        forall|i: int| 0 <= i < s.len() ==> declared_tool(v, #[trigger] s[i]),
    ensures
        s.filter(|x: Seq<char>| declared_tool(v, x)) == s,
    decreases s.len(),
{
    if s.len() == 0 {
        reveal(Seq::filter);
        assert(s.filter(|x: Seq<char>| declared_tool(v, x)) =~= s);
    } else {
        let head = s.drop_last();
        assert forall|i: int| 0 <= i < head.len() implies declared_tool(v, #[trigger] head[i]) by {
            assert(head[i] == s[i]);
        }
        lemma_filter_keeps_declared(v, head);
        assert(s == head.push(s.last()));
        assert(declared_tool(v, s[s.len() - 1]));
        head.lemma_filter_push(s.last(), |x: Seq<char>| declared_tool(v, x));
    }
}

/// Every preflight step keeps one result per declared tool passed, in tool order.
pub proof fn lemma_results_stay_in_order(
    v: ValidatedConfig,
    before: Preflight,
    output: Option<ProcessOutput>,
    after: Preflight,
    r: PreflightStep,
)
    requires
        before.wf(v),
        preflight_step(v, before, output, after, r),
        results_in_order(v, before),
    ensures
        results_in_order(v, after),
{
    let tools = v.checked.config.tools@;
    let pred = |x: Seq<char>| declared_tool(v, x);
    let order = views(before.order@);
    if before.next < before.order@.len() {
        let n = before.next as int;
        let x = before.order@[n]@;
        assert(order[n] == x);
        assert(before.order@.len() == before.order.len());
        assert(order.take(n + 1) =~= order.take(n).push(x));
        order.take(n).lemma_filter_push(x, pred);
        match before.pending {
            Some(p) => {
                assert(declared_tool(v, x));
                assert(result_ids(after.results@) =~= result_ids(before.results@).push(tools[p as int].id@));
                assert(results_in_order(v, after));
            },
            None => {
                if declared_tool(v, x) {
                    let i = choose|i: int| 0 <= i < keys_of(tools).len() && keys_of(tools)[i] == x;
                    assert(tools[i].key_view() == x);
                    let p = entry_of(tools, x);
                    assert(tools[p].id@ == x);
                    assert(0 <= p < tools.len());
                    assert(tools.len() == v.checked.config.tools.len());
                    assert((p as usize) as int == p);
                    if after.pending is None {
                        assert(result_ids(after.results@) =~= result_ids(before.results@).push(tools[p].id@));
                        assert(results_in_order(v, after));
                    } else {
                        assert(after.next == before.next);
                        assert(results_in_order(v, after));
                    }
                } else {
                    assert(after.results == before.results);
                    assert(results_in_order(v, after));
                }
            },
        }
    }
}

/// The preflight verdict on a tool from the output of its version command.
pub open spec fn output_verdict(tool: ToolConfig, output: ProcessOutput) -> Option<Seq<char>> {
    tool_reason(tool, output, version_found(output.stdout@ + "\n"@ + output.stderr@))
}

/// Preflight leaves a tool available exactly when its version command ran
/// cleanly, printed a semantic version, and that version meets the tool's
/// requirement, if it has one.
pub proof fn lemma_output_decides(tool: ToolConfig, output: ProcessOutput)
    requires
        tool.version_requirement matches Some(r) ==> semver_requirement(r@) is Ok,
    ensures
        (output_verdict(tool, output) is None) <==> (clean_run(output) && match version_found(
            output.stdout@ + "\n"@ + output.stderr@,
        ) {
            Some((candidate, _)) => match tool.version_requirement {
                Some(r) => semver_matches(r@, candidate),
                None => true,
            },
            None => false,
        }),
{
    lemma_version_requirement_decides(tool, output, version_found(output.stdout@ + "\n"@ + output.stderr@));
}

/// What one preflight step does from the state `before`, given the output
/// of the version command it asked for, if any.
pub open spec fn preflight_step(
    v: ValidatedConfig,
    before: Preflight,
    output: Option<ProcessOutput>,
    after: Preflight,
    r: PreflightStep,
) -> bool {
    let tools = v.checked.config.tools@;
    match before.pending {
        Some(p) => {
            let o = output->0;
            let reason = output_verdict(tools[p as int], o);
            let found = version_found(o.stdout@ + "\n"@ + o.stderr@);
            &&& r is Continue
            &&& examined(
                before,
                after,
                tools[p as int],
                if reason is Some {
                    Status::Blocked
                } else {
                    Status::Pass
                },
                match found {
                    Some((_, version)) => Some(version),
                    None => None,
                },
                reason,
            )
        },
        None => if before.next >= before.order@.len() {
            &&& r is Finished
            &&& after == before
        } else if !keys_of(tools).contains(before.order@[before.next as int]@) {
            &&& r is Continue
            &&& after == Preflight { next: (before.next + 1) as usize, ..before }
        } else {
            let p = entry_of(tools, before.order@[before.next as int]@);
            let tool = tools[p];
            let required = views(tool.requires_tools@);
            if crate::execution::checks::any_unmet(required, before.statuses@) {
                let i = choose|i: int| blocking_requirement(tool, before.statuses@, i);
                &&& r is Continue
                &&& examined(
                    before,
                    after,
                    tool,
                    Status::Blocked,
                    None,
                    Some("required tool "@ + required[i] + " is unavailable"@),
                )
            } else {
                &&& r matches PreflightStep::Run(request) && request.program@ == tool.program@ && views(request.args@)
                    == views(tool.version_args@) && request.cwd@ == v.checked.workspace_root@
                    && request.timeout_seconds == 30 && request.output_limit == v.checked.config.output_limit_bytes
                &&& after == Preflight { pending: Some(p as usize), ..before }
            }
        },
    }
}

impl Preflight {
    /// Positions held by the preflight lie within its order and the configuration.
    pub open spec fn wf(&self, v: ValidatedConfig) -> bool {
        &&& self.next <= self.order@.len()
        &&& match self.pending {
            Some(p) => self.next < self.order@.len() && p < v.checked.config.tools@.len(),
            None => true,
        }
    }

    /// Prepares preflight of the tools the checks `check_ids` and the
    /// repository provider need.
    #[verifier::spinoff_prover]
    #[verifier::rlimit(40)]
    pub fn new(v: &ValidatedConfig, check_ids: &Vec<String>) -> (r: Self)
        requires
            v.wf(),
        ensures
            r.wf(*v),
            r.pending is None,
            r.next == 0,
            r.statuses@.len() == 0,
            r.results@.len() == 0,
            views(r.order@) == tool_order(v.checked, check_ids@),
            views(r.order@).no_duplicates(),
            forall|x: Seq<char>| views(r.order@).contains(x) <==> needed_tool(v.checked, tool_roots(v.checked, check_ids@), x),
            results_in_order(*v, r),
    {
        let r = Preflight {
            order: necessary_tool_ids(&v.checked, check_ids),
            next: 0,
            statuses: Vec::new(),
            results: Vec::new(),
            pending: None,
        };
        proof {
            assert forall|i: int| 0 <= i < r.order@.len() implies declared_tool(*v, #[trigger] r.order@[i]@) by {
                assert(views(r.order@)[i] == r.order@[i]@);
                assert(views(r.order@).contains(r.order@[i]@));
                lemma_needed_tools_declared(*v, check_ids@, r.order@[i]@);
            }
            let none = views(r.order@).take(0);
            assert(none =~= Seq::<Seq<char>>::empty());
            reveal(Seq::filter);
            assert(none.filter(|x: Seq<char>| declared_tool(*v, x)) =~= Seq::<Seq<char>>::empty());
            assert(result_ids(r.results@) =~= Seq::<Seq<char>>::empty());
        }
        r
    }

    /// Takes one preflight decision; `output` is the facts of the version
    /// command the previous step asked for.
    pub fn step(&mut self, v: &ValidatedConfig, output: Option<ProcessOutput>) -> (r: PreflightStep)
        requires
            v.wf(),
            old(self).wf(*v),
            old(self).pending is Some ==> output is Some,
        ensures
            final(self).wf(*v),
            preflight_step(*v, *old(self), output, *final(self), r),
            (r is Run) == (final(self).pending is Some),
            r is Finished ==> final(self).next == final(self).order@.len(),
            results_in_order(*v, *old(self)) ==> results_in_order(*v, *final(self)),
            results_in_order(*v, *old(self)) && r is Finished ==> result_ids(final(self).results@) == views(
                final(self).order@,
            ),
    {
        let ghost before = *self;
        let r = self.decide(v, output);
        proof {
            if results_in_order(*v, before) {
                lemma_results_stay_in_order(*v, before, output, *self, r);
                if r is Finished {
                    assert(views(self.order@).take(self.next as int) =~= views(self.order@));
                    assert forall|i: int| 0 <= i < views(self.order@).len() implies declared_tool(
                        *v,
                        #[trigger] views(self.order@)[i],
                    ) by {
                        assert(declared_tool(*v, self.order@[i]@));
                    }
                    lemma_filter_keeps_declared(*v, views(self.order@));
                }
            }
        }
        r
    }

    fn decide(&mut self, v: &ValidatedConfig, output: Option<ProcessOutput>) -> (r: PreflightStep)
        requires
            v.wf(),
            old(self).wf(*v),
            old(self).pending is Some ==> output is Some,
        ensures
            final(self).wf(*v),
            preflight_step(*v, *old(self), output, *final(self), r),
            (r is Run) == (final(self).pending is Some),
            r is Finished ==> final(self).next == final(self).order@.len(),
    {
        let ghost start = *self;
        match self.pending {
            Some(p) => {
                let at = self.next;
                let total = self.order.len();
                assert(at < total);
                let output = match output {
                    Some(output) => output,
                    None => {
                        proof {
                            assert(false);
                        }
                        return PreflightStep::Continue;
                    },
                };
                let tool = &v.checked.config.tools[p];
                let ghost before = *self;
                let mut combined = owned(output.stdout.as_str());
                combined.append("\n");
                combined.append(output.stderr.as_str());
                assert(combined@ == output.stdout@ + "\n"@ + output.stderr@);
                let found = first_semver_candidate(combined.as_str());
                proof {
                    crate::config::validation::lemma_tool_requirement_parses(v.checked, p as int);
                }
                let reason = tool_verdict(tool, &output, &found);
                let status = if reason.is_some() {
                    Status::Blocked
                } else {
                    Status::Pass
                };
                let version = match found {
                    Some((_, version)) => Some(version),
                    None => None,
                };
                set_status(&mut self.statuses, tool.id.as_str(), status);
                self.results.push(
                    ToolResult {
                        id: owned(tool.id.as_str()),
                        program: owned(tool.program.as_str()),
                        argv: version_command(tool),
                        status,
                        version,
                        reason,
                    },
                );
                self.pending = None;
                self.next = at + 1;
                assert(records_tool(self.results@.last(), *tool, status, match found {
                    Some((_, version)) => Some(version@),
                    None => None,
                }, text_of_option(reason)));
                assert(version_found(output.stdout@ + "\n"@ + output.stderr@) == match found {
                    Some((c, v)) => Some((c@, v@)),
                    None => None,
                });
                assert(text_of_option(reason) == output_verdict(*tool, output));
                assert(examined(before, *self, *tool, status, match found {
                    Some((_, version)) => Some(version@),
                    None => None,
                }, text_of_option(reason)));
                PreflightStep::Continue
            },
            None => {
                if self.next >= self.order.len() {
                    return PreflightStep::Finished;
                }
                let p = match v.checked.tool_position(self.order[self.next].as_str()) {
                    Some(p) => p,
                    None => {
                        self.next = self.next + 1;
                        return PreflightStep::Continue;
                    },
                };
                let tool = &v.checked.config.tools[p];
                proof {
                    assert(keys_of(v.checked.config.tools@)[p as int] == start.order@[start.next as int]@);
                }
                match crate::execution::checks::find_unmet_pub(&tool.requires_tools, &self.statuses) {
                    Some(i) => {
                        proof {
                            let required = views(tool.requires_tools@);
                            assert(blocking_requirement(*tool, start.statuses@, i as int));
                            assert(crate::execution::checks::any_unmet(required, start.statuses@));
                            let j = choose|j: int| blocking_requirement(*tool, start.statuses@, j);
                            if j < i {
                                assert(status_of(start.statuses@, required[j]) == Some(Status::Pass));
                            } else if i < j {
                                assert(status_of(start.statuses@, required[i as int]) == Some(Status::Pass));
                            }
                            assert(j == i);
                        }
                        let mut reason = concat2("required tool ", tool.requires_tools[i].as_str());
                        reason.append(" is unavailable");
                        set_status(&mut self.statuses, tool.id.as_str(), Status::Blocked);
                        self.results.push(
                            ToolResult {
                                id: owned(tool.id.as_str()),
                                program: owned(tool.program.as_str()),
                                argv: version_command(tool),
                                status: Status::Blocked,
                                version: None,
                                reason: Some(reason),
                            },
                        );
                        self.next = self.next + 1;
                        assert(records_tool(self.results@.last(), *tool, Status::Blocked, None, Some(
                            "required tool "@ + tool.requires_tools@[i as int]@ + " is unavailable"@,
                        )));
                        PreflightStep::Continue
                    },
                    None => {
                        self.pending = Some(p);
                        PreflightStep::Run(
                            CommandRequest {
                                program: owned(tool.program.as_str()),
                                args: crate::config::validation::clone_strings(&tool.version_args),
                                cwd: owned(v.checked.workspace_root.as_str()),
                                timeout_seconds: 30,
                                output_limit: v.checked.config.output_limit_bytes,
                            },
                        )
                    },
                }
            },
        }
    }
}

} // verus!
