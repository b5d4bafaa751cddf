//! Git-visible repository snapshots and mutation detection.
//!
//! The provider commands and the file-system walk are done by the caller;
//! this module parses what the provider prints, fingerprints worktree
//! contents from the bytes and listings it is handed, assembles the
//! snapshot, and compares two snapshots.

use vstd::prelude::*;
use sha2::Digest;
use crate::execution::prerequisites::{exit_code_text, format_exit_code};
use crate::execution::ProcessOutput;
use crate::text::{decimal_text, trimmed, 
    char_vec, debug_quoted, debug_text, entry_of, insert_sorted, joined, keys_of, nul_fields, owned, split_nul, strictly_sorted,
    text_of, views, Keyed,
};

verus! {

/// Content identity for a path as observed in the worktree.
#[derive(Clone, Debug)]
pub enum WorktreeState {
    /// Nothing exists at the path.
    Missing,
    /// A regular file with its SHA-256 digest and executable bit.
    File {
        /// SHA-256 digest of the contents.
        digest: [u8; 32],
        /// Whether any execute permission bit is set.
        executable: bool,
    },
    /// A symbolic link and its target text.
    Symlink(String),
    /// A directory with the SHA-256 digest of its visible tree.
    Directory([u8; 32]),
    /// Any other kind of file-system object.
    Other,
}

/// Identity of everything Git shows for one status path.
#[derive(Clone, Debug)]
pub struct EntryState {
    /// Two-letter porcelain status code.
    pub status: String,
    /// Source path of a rename or copy.
    pub related_path: Option<String>,
    /// Sorted index entries, each `path`, NUL, then the stage metadata.
    pub index_entries: Vec<String>,
    /// Fingerprint of each path of the record.
    pub worktree: Vec<(String, WorktreeState)>,
}

/// Git-visible paths and fingerprints captured at one point in time.
#[derive(Clone, Debug)]
pub struct RepositorySnapshot {
    /// Sorted porcelain-style entries.
    pub entries: Vec<String>,
    /// The state of each status path, keyed by path in ascending order.
    pub states: Vec<(String, EntryState)>,
}

/// The view of an optional text.
pub open spec fn opt_view(s: Option<String>) -> Option<Seq<char>> {
    match s {
        Some(t) => Some(t@),
        None => None,
    }
}

/// Two worktree observations denote the same content.
pub open spec fn same_worktree(a: WorktreeState, b: WorktreeState) -> bool {
    match a {
        WorktreeState::Missing => b is Missing,
        WorktreeState::File { digest, executable } => match b {
            WorktreeState::File { digest: d, executable: e } => digest@ == d@ && executable == e,
            _ => false,
        },
        WorktreeState::Symlink(target) => match b {
            WorktreeState::Symlink(t) => target@ == t@,
            _ => false,
        },
        WorktreeState::Directory(digest) => match b {
            WorktreeState::Directory(d) => digest@ == d@,
            _ => false,
        },
        WorktreeState::Other => b is Other,
    }
}

/// Worktree observations agree only on the same kind of path with the same
/// content: a missing path, a file, a link, a directory and anything else
/// never agree with one another; files agree only with the same digest and
/// executable bit, links only with the same target, directories only with
/// the same digest. Every observation agrees with itself.
pub proof fn lemma_same_worktree_means_same_content(a: WorktreeState, b: WorktreeState)
    ensures
        same_worktree(a, a),
        same_worktree(a, b) ==> match (a, b) {
            (WorktreeState::Missing, WorktreeState::Missing) => true,
            (WorktreeState::File { digest: d1, executable: x1 }, WorktreeState::File { digest: d2, executable: x2 }) => d1@
                == d2@ && x1 == x2,
            (WorktreeState::Symlink(t1), WorktreeState::Symlink(t2)) => t1@ == t2@,
            (WorktreeState::Directory(d1), WorktreeState::Directory(d2)) => d1@ == d2@,
            (WorktreeState::Other, WorktreeState::Other) => true,
            _ => false,
        },
{
}

/// Two entry states are equal, field by field.
pub open spec fn same_entry(a: EntryState, b: EntryState) -> bool {
    &&& a.status@ == b.status@
    &&& opt_view(a.related_path) == opt_view(b.related_path)
    &&& views(a.index_entries@) == views(b.index_entries@)
    &&& a.worktree@.len() == b.worktree@.len()
    &&& forall|i: int|
        0 <= i < a.worktree@.len() ==> (#[trigger] a.worktree@[i]).0@ == b.worktree@[i].0@ && same_worktree(
            a.worktree@[i].1,
            b.worktree@[i].1,
        )
}

/// The porcelain-style line of a path and its state.
pub open spec fn state_display(entry: (String, EntryState)) -> Seq<char> {
    match entry.1.related_path {
        Some(r) => entry.1.status@ + seq![' '] + r@ + seq![' ', '-', '>', ' '] + entry.0@,
        None => entry.1.status@ + seq![' '] + entry.0@,
    }
}

/// The porcelain-style lines of the states, in path order.
pub open spec fn state_displays(states: Seq<(String, EntryState)>) -> Seq<Seq<char>> {
    Seq::new(states.len(), |i: int| state_display(states[i]))
}

impl RepositorySnapshot {
    /// Each path has one state, and states are ordered by path; the entries
    /// are sorted and hold one porcelain-style line per state.
    pub open spec fn wf(&self) -> bool {
        &&& strictly_sorted(keys_of(self.states@))
        &&& crate::text::sorted_texts(views(self.entries@))
        &&& views(self.entries@).to_multiset() == state_displays(self.states@).to_multiset()
    }

    /// The paths of the snapshot, in ascending order.
    pub open spec fn paths(&self) -> Seq<Seq<char>> {
        keys_of(self.states@)
    }

    /// The state recorded for `path`.
    pub open spec fn state_of(&self, path: Seq<char>) -> EntryState {
        self.states@[entry_of(self.states@, path)].1
    }

    /// Returns sorted porcelain-style entries for portable report output.
    pub fn entries(&self) -> (r: &[String])
        ensures
            r@ == self.entries@,
    {
        self.entries.as_slice()
    }
}

/// The keys of `keys` that `others` lacks, in order.
pub open spec fn absent_from(keys: Seq<Seq<char>>, others: Seq<Seq<char>>) -> Seq<Seq<char>>
    decreases keys.len(),
{
    if keys.len() == 0 {
        Seq::empty()
    } else {
        let rest = absent_from(keys.drop_last(), others);
        if others.contains(keys.last()) {
            rest
        } else {
            rest.push(keys.last())
        }
    }
}

/// The paths of `before` that `after` also holds with a different state, in order.
pub open spec fn changed_paths(before: Seq<(String, EntryState)>, after: RepositorySnapshot) -> Seq<Seq<char>>
    decreases before.len(),
{
    if before.len() == 0 {
        Seq::empty()
    } else {
        let rest = changed_paths(before.drop_last(), after);
        let path = before.last().0@;
        if after.paths().contains(path) && !same_entry(before.last().1, after.state_of(path)) {
            rest.push(path)
        } else {
            rest
        }
    }
}

proof fn lemma_changed_members(before: Seq<(String, EntryState)>, after: RepositorySnapshot, x: Seq<char>)
    ensures
        changed_paths(before, after).contains(x) <==> exists|k: int|
            0 <= k < before.len() && (#[trigger] before[k]).0@ == x && after.paths().contains(x) && !same_entry(
                before[k].1,
                after.state_of(x),
            ),
    decreases before.len(),
{
    if before.len() > 0 {
        let head = before.drop_last();
        lemma_changed_members(head, after, x);
        let rest = changed_paths(head, after);
        let last = before.len() - 1;
        let path = before[last].0@;
        let hit = after.paths().contains(path) && !same_entry(before[last].1, after.state_of(path));
        if hit {
            assert(changed_paths(before, after) == rest.push(path));
            assert(rest.push(path).contains(x) <==> (rest.contains(x) || path == x)) by {
                if rest.push(path).contains(x) {
                    let i = choose|i: int| 0 <= i < rest.push(path).len() && rest.push(path)[i] == x;
                    if i < rest.len() {
                        assert(rest[i] == x);
                    }
                }
                if rest.contains(x) {
                    let i = choose|i: int| 0 <= i < rest.len() && rest[i] == x;
                    assert(rest.push(path)[i] == x);
                }
                if path == x {
                    assert(rest.push(path)[rest.len() as int] == x);
                }
            }
        } else {
            assert(changed_paths(before, after) == rest);
        }
        if exists|k: int|
            0 <= k < head.len() && (#[trigger] head[k]).0@ == x && after.paths().contains(x) && !same_entry(
                head[k].1,
                after.state_of(x),
            ) {
            let k = choose|k: int|
                0 <= k < head.len() && (#[trigger] head[k]).0@ == x && after.paths().contains(x) && !same_entry(
                    head[k].1,
                    after.state_of(x),
                );
            assert(before[k] == head[k]);
        }
        if exists|k: int|
            0 <= k < before.len() && (#[trigger] before[k]).0@ == x && after.paths().contains(x) && !same_entry(
                before[k].1,
                after.state_of(x),
            ) {
            let k = choose|k: int|
                0 <= k < before.len() && (#[trigger] before[k]).0@ == x && after.paths().contains(x) && !same_entry(
                    before[k].1,
                    after.state_of(x),
                );
            if k < head.len() {
                assert(head[k] == before[k]);
            }
        }
    }
}

/// A path that both snapshots hold is reported changed exactly when its
/// state differs: its status code, its related path, its index entries, or
/// the fingerprint of one of its worktree paths.
pub proof fn lemma_compare_detects_changes(before: RepositorySnapshot, after: RepositorySnapshot, x: Seq<char>)
    requires
        before.wf(),
        after.wf(),
        before.paths().contains(x),
        after.paths().contains(x),
    ensures
        changed_paths(before.states@, after).contains(x) <==> {
            let a = before.state_of(x);
            let b = after.state_of(x);
            ||| a.status@ != b.status@
            ||| opt_view(a.related_path) != opt_view(b.related_path)
            ||| views(a.index_entries@) != views(b.index_entries@)
            ||| a.worktree@.len() != b.worktree@.len()
            ||| exists|i: int|
                0 <= i < a.worktree@.len() && ((#[trigger] a.worktree@[i]).0@ != b.worktree@[i].0@ || !same_worktree(
                    a.worktree@[i].1,
                    b.worktree@[i].1,
                ))
        },
{
    lemma_changed_members(before.states@, after, x);
    let e = entry_of(before.states@, x);
    let w = choose|w: int| 0 <= w < before.paths().len() && before.paths()[w] == x;
    assert(before.states@[w].0@ == x);
    assert(0 <= e < before.states@.len() && before.states@[e].0@ == x);
    crate::dag::lemma_sorted_no_duplicates(keys_of(before.states@));
    if changed_paths(before.states@, after).contains(x) {
        let k = choose|k: int|
            0 <= k < before.states@.len() && (#[trigger] before.states@[k]).0@ == x && after.paths().contains(x)
                && !same_entry(before.states@[k].1, after.state_of(x));
        assert(keys_of(before.states@)[k] == keys_of(before.states@)[e]);
    } else {
        assert(!same_entry(before.states@[e].1, after.state_of(x)) ==> changed_paths(before.states@, after).contains(x));
    }
}

fn same_digest(a: &[u8; 32], b: &[u8; 32]) -> (r: bool)
    ensures
        r == (a@ == b@),
{
    let mut i: usize = 0;
    while i < 32
        invariant
            i <= 32,
            a@.len() == 32,
            b@.len() == 32,
            forall|k: int| 0 <= k < i ==> a@[k] == b@[k],
        decreases 32 - i,
    {
        if a[i] != b[i] {
            return false;
        }
        i = i + 1;
    }
    assert(a@ =~= b@);
    true
}

fn worktree_eq(a: &WorktreeState, b: &WorktreeState) -> (r: bool)
    ensures
        r == same_worktree(*a, *b),
{
    match (a, b) {
        (WorktreeState::Missing, WorktreeState::Missing) => true,
        (WorktreeState::File { digest, executable }, WorktreeState::File { digest: d, executable: e }) => {
            same_digest(digest, d) && *executable == *e
        },
        (WorktreeState::Symlink(t1), WorktreeState::Symlink(t2)) => crate::text::text_eq(t1.as_str(), t2.as_str()),
        (WorktreeState::Directory(d1), WorktreeState::Directory(d2)) => same_digest(d1, d2),
        (WorktreeState::Other, WorktreeState::Other) => true,
        _ => false,
    }
}

fn texts_eq(a: &Vec<String>, b: &Vec<String>) -> (r: bool)
    ensures
        r == (views(a@) == views(b@)),
{
    if a.len() != b.len() {
        assert(views(a@).len() != views(b@).len());
        return false;
    }
    let mut i: usize = 0;
    while i < a.len()
        invariant
            a@.len() == b@.len(),
            i <= a@.len(),
            forall|k: int| 0 <= k < i ==> a@[k]@ == b@[k]@,
        decreases a@.len() - i,
    {
        if !crate::text::text_eq(a[i].as_str(), b[i].as_str()) {
            assert(views(a@)[i as int] != views(b@)[i as int]);
            return false;
        }
        i = i + 1;
    }
    assert(views(a@) =~= views(b@));
    true
}

fn entry_eq(a: &EntryState, b: &EntryState) -> (r: bool)
    ensures
        r == same_entry(*a, *b),
{
    if !crate::text::text_eq(a.status.as_str(), b.status.as_str()) {
        return false;
    }
    let related = match (&a.related_path, &b.related_path) {
        (Some(x), Some(y)) => crate::text::text_eq(x.as_str(), y.as_str()),
        (None, None) => true,
        _ => false,
    };
    if !related {
        return false;
    }
    if !texts_eq(&a.index_entries, &b.index_entries) {
        return false;
    }
    if a.worktree.len() != b.worktree.len() {
        return false;
    }
    let mut i: usize = 0;
    while i < a.worktree.len()
        invariant
            a.worktree@.len() == b.worktree@.len(),
            i <= a.worktree@.len(),
            forall|k: int|
                0 <= k < i ==> (#[trigger] a.worktree@[k]).0@ == b.worktree@[k].0@ && same_worktree(
                    a.worktree@[k].1,
                    b.worktree@[k].1,
                ),
        decreases a.worktree@.len() - i,
    {
        if !crate::text::text_eq(a.worktree[i].0.as_str(), b.worktree[i].0.as_str()) || !worktree_eq(
            &a.worktree[i].1,
            &b.worktree[i].1,
        ) {
            return false;
        }
        i = i + 1;
    }
    true
}

/// The paths of `keys` that `others` lacks, in the order of `keys`.
fn paths_absent(keys: &Vec<(String, EntryState)>, others: &RepositorySnapshot) -> (r: Vec<String>)
    requires
        others.wf(),
    ensures
        views(r@) == absent_from(keys_of(keys@), others.paths()),
{
    let ghost ks = keys_of(keys@);
    let mut r: Vec<String> = Vec::new();
    let mut i: usize = 0;
    while i < keys.len()
        invariant
            ks == keys_of(keys@),
            others.wf(),
            i <= keys@.len(),
            views(r@) == absent_from(ks.take(i as int), others.paths()),
        decreases keys@.len() - i,
    {
        assert(ks.take(i + 1).drop_last() =~= ks.take(i as int));
        assert(ks.take(i + 1).last() == keys@[i as int].0@);
        match crate::text::find_key(&others.states, keys[i].0.as_str()) {
            Some(_) => {},
            None => {
                let ghost before = r@;
                r.push(crate::text::owned(keys[i].0.as_str()));
                assert(views(r@) =~= views(before).push(keys@[i as int].0@));
            },
        }
        i = i + 1;
    }
    assert(ks.take(keys@.len() as int) =~= ks);
    r
}

/// Compares snapshots into introduced, removed, and content-changed paths.
///
/// Introduced paths are those only `after` holds, removed those only
/// `before` holds, and changed those both hold with different states; each
/// list is in ascending path order.
pub fn compare(before: &RepositorySnapshot, after: &RepositorySnapshot) -> (r: (Vec<String>, Vec<String>, Vec<String>))
    requires
        before.wf(),
        after.wf(),
    ensures
        views(r.0@) == absent_from(after.paths(), before.paths()),
        views(r.1@) == absent_from(before.paths(), after.paths()),
        views(r.2@) == changed_paths(before.states@, *after),
{
    let introduced = paths_absent(&after.states, before);
    let removed = paths_absent(&before.states, after);
    let mut changed: Vec<String> = Vec::new();
    let mut i: usize = 0;
    while i < before.states.len()
        invariant
            before.wf(),
            after.wf(),
            i <= before.states@.len(),
            views(changed@) == changed_paths(before.states@.take(i as int), *after),
        decreases before.states@.len() - i,
    {
        assert(before.states@.take(i + 1).drop_last() =~= before.states@.take(i as int));
        let path = before.states[i].0.as_str();
        match crate::text::find_key(&after.states, path) {
            Some(j) => {
                proof {
                    let ks = keys_of(after.states@);
                    assert(ks[j as int] == path@);
                    let e = entry_of(after.states@, path@);
                    assert(0 <= e < after.states@.len() && after.states@[e].0@ == path@);
                    if e != j {
                        crate::text::lemma_sorted_distinct(ks, e, j as int);
                    }
                }
                if !entry_eq(&before.states[i].1, &after.states[j].1) {
                    let ghost prior = changed@;
                    changed.push(crate::text::owned(path));
                    assert(views(changed@) =~= views(prior).push(path@));
                }
            },
            None => {},
        }
        i = i + 1;
    }
    assert(before.states@.take(before.states@.len() as int) =~= before.states@);
    (introduced, removed, changed)
}

/// No key of a sequence is absent from that sequence.
proof fn lemma_absent_from_self(keys: Seq<Seq<char>>, all: Seq<Seq<char>>)
    requires
        forall|k: int| 0 <= k < keys.len() ==> all.contains(#[trigger] keys[k]),
    ensures
        absent_from(keys, all) == Seq::<Seq<char>>::empty(),
    decreases keys.len(),
{
    if keys.len() > 0 {
        lemma_absent_from_self(keys.drop_last(), all);
        assert(all.contains(keys[keys.len() - 1]));
    }
}

/// Every entry equals itself.
proof fn lemma_same_entry_reflexive(e: EntryState)
    ensures
        same_entry(e, e),
{
    assert forall|i: int| 0 <= i < e.worktree@.len() implies (#[trigger] e.worktree@[i]).0@ == e.worktree@[i].0@
        && same_worktree(e.worktree@[i].1, e.worktree@[i].1) by {
        match e.worktree@[i].1 {
            WorktreeState::Missing => {},
            WorktreeState::File { .. } => {},
            WorktreeState::Symlink(_) => {},
            WorktreeState::Directory(_) => {},
            WorktreeState::Other => {},
        }
    }
}

proof fn lemma_changed_self(prefix: Seq<(String, EntryState)>, s: RepositorySnapshot)
    requires
        s.wf(),
        prefix.len() <= s.states@.len(),
        prefix == s.states@.take(prefix.len() as int),
    ensures
        changed_paths(prefix, s) == Seq::<Seq<char>>::empty(),
    decreases prefix.len(),
{
    if prefix.len() > 0 {
        let n = prefix.len() - 1;
        assert(prefix.drop_last() =~= s.states@.take(n));
        lemma_changed_self(prefix.drop_last(), s);
        let path = prefix.last().0@;
        let ks = keys_of(s.states@);
        assert(ks[n] == path);
        if s.paths().contains(path) {
            let e = entry_of(s.states@, path);
            if e != n {
                crate::text::lemma_sorted_distinct(ks, e, n);
            }
            lemma_same_entry_reflexive(prefix.last().1);
        }
    }
}

/// Comparing a snapshot with itself reports no introduced, removed, or
/// changed path: an untouched repository is never blamed for mutation.
pub proof fn lemma_compare_unchanged(s: RepositorySnapshot)
    requires
        s.wf(),
    ensures
        absent_from(s.paths(), s.paths()) == Seq::<Seq<char>>::empty(),
        changed_paths(s.states@, s) == Seq::<Seq<char>>::empty(),
{
    assert forall|k: int| 0 <= k < s.paths().len() implies s.paths().contains(#[trigger] s.paths()[k]) by {}
    lemma_absent_from_self(s.paths(), s.paths());
    assert(s.states@.take(s.states@.len() as int) =~= s.states@);
    lemma_changed_self(s.states@, s);
}

/// One record of `git status --porcelain=v1 -z`.
#[derive(Clone, Debug)]
pub struct StatusRecord {
    /// Two-letter status code.
    pub status: String,
    /// Path the record is about; the destination of a rename or copy.
    pub path: String,
    /// Source path of a rename or copy.
    pub related_path: Option<String>,
}

/// A status code that names a rename or a copy in either column.
pub open spec fn renames(status: Seq<char>) -> bool {
    status.len() == 2 && (status[0] == 'R' || status[0] == 'C' || status[1] == 'R' || status[1] == 'C')
}

/// The code Git gives untracked paths.
pub open spec fn untracked_code(status: Seq<char>) -> bool {
    status == seq!['?', '?']
}

impl StatusRecord {
    /// The paths of the record: its path, then its source path.
    pub open spec fn path_views(&self) -> Seq<Seq<char>> {
        match self.related_path {
            Some(r) => seq![self.path@, r@],
            None => seq![self.path@],
        }
    }

    /// The porcelain-style line shown for the record.
    pub open spec fn display_view(&self) -> Seq<char> {
        match self.related_path {
            Some(r) => self.status@ + seq![' '] + r@ + seq![' ', '-', '>', ' '] + self.path@,
            None => self.status@ + seq![' '] + self.path@,
        }
    }

    /// The NUL-separated fields Git prints for the record.
    pub open spec fn fields(&self) -> Seq<Seq<char>> {
        match self.related_path {
            Some(r) => seq![self.status@ + seq![' '] + self.path@, r@],
            None => seq![self.status@ + seq![' '] + self.path@],
        }
    }

    /// The record could have been printed by Git.
    pub open spec fn wf(&self) -> bool {
        &&& self.status@.len() == 2
        &&& self.path@.len() > 0
        &&& !self.status@.contains('\0')
        &&& !self.path@.contains('\0')
        &&& (self.related_path is Some <==> renames(self.status@))
        &&& match self.related_path {
            Some(r) => !r@.contains('\0'),
            None => true,
        }
    }

    /// Whether Git reports the path as untracked.
    pub fn is_untracked(&self) -> (r: bool)
        ensures
            r == untracked_code(self.status@),
    {
        let cs = char_vec(self.status.as_str());
        if cs.len() != 2 {
            return false;
        }
        let r = cs[0] == '?' && cs[1] == '?';
        assert(r ==> cs@ =~= seq!['?', '?']);
        r
    }

    /// The paths of the record: its path, then its source path.
    pub fn paths(&self) -> (r: Vec<String>)
        ensures
            views(r@) == self.path_views(),
    {
        let mut r: Vec<String> = Vec::new();
        r.push(owned(self.path.as_str()));
        match &self.related_path {
            Some(related) => {
                r.push(owned(related.as_str()));
            },
            None => {},
        }
        assert(views(r@) =~= self.path_views());
        r
    }

    /// The porcelain-style line shown for the record.
    pub fn display(&self) -> (r: String)
        ensures
            r@ == self.display_view(),
    {
        let mut r = owned(self.status.as_str());
        r.append(" ");
        match &self.related_path {
            Some(related) => {
                r.append(related.as_str());
                r.append(" -> ");
            },
            None => {},
        }
        r.append(self.path.as_str());
        proof {
            reveal_strlit(" ");
            reveal_strlit(" -> ");
        }
        r
    }
}

/// The fields of a list of records, in order.
pub open spec fn status_fields(records: Seq<StatusRecord>) -> Seq<Seq<char>>
    decreases records.len(),
{
    if records.len() == 0 {
        Seq::empty()
    } else {
        status_fields(records.drop_last()) + records.last().fields()
    }
}

/// Error for a status field that is no record.
pub open spec fn invalid_record_message(field: Seq<char>) -> Seq<char> {
    "invalid repository status record "@ + debug_quoted(field)
}

/// Error for a rename or copy record without its source path.
pub open spec fn missing_source_message(field: Seq<char>) -> Seq<char> {
    "repository status record "@ + debug_quoted(field) + " lacks its source path"@
}

/// The first problem among the status fields from `k` on, before `last`.
pub open spec fn records_error(fields: Seq<Seq<char>>, k: int, last: int) -> Option<Seq<char>>
    decreases last - k,
{
    if k >= last {
        None
    } else {
        let field = fields[k];
        if field.len() < 4 || field[2] != ' ' {
            Some(invalid_record_message(field))
        } else if renames(field.subrange(0, 2)) {
            if k + 1 >= last {
                Some(missing_source_message(field))
            } else {
                records_error(fields, k + 2, last)
            }
        } else {
            records_error(fields, k + 1, last)
        }
    }
}

/// Why status output is no sequence of records, if it is not.
pub open spec fn status_error(output: Seq<char>) -> Option<Seq<char>> {
    let fields = nul_fields(output);
    if fields.last().len() != 0 {
        Some("repository status output is not NUL-terminated"@)
    } else {
        records_error(fields, 0, fields.len() - 1)
    }
}

/// Reads `git status --porcelain=v1 -z` output.
///
/// Each record is a two-letter code, a space and a path, ended by NUL; a
/// rename or copy is followed by its source path, ended by NUL too.
pub fn parse_status(output: &str) -> (r: Result<Vec<StatusRecord>, String>)
    ensures
        match r {
            Ok(_) => status_error(output@) is None,
            Err(m) => status_error(output@) == Some(m@),
        },
        r matches Ok(records) ==> {
            &&& nul_fields(output@) == status_fields(records@).push(Seq::empty())
            &&& forall|k: int| 0 <= k < records@.len() ==> (#[trigger] records@[k]).wf()
        },
{
    let fields = split_nul(output);
    proof {
        crate::text::lemma_nul_fields_nonempty(output@);
    }
    let ghost fs = views(fields@);
    let last = fields.len() - 1;
    if fields[last].unicode_len() != 0 {
        return Err(owned("repository status output is not NUL-terminated"));
    }
    assert(fs[last as int] =~= Seq::<char>::empty());
    let mut records: Vec<StatusRecord> = Vec::new();
    let mut k: usize = 0;
    while k < last
        invariant
            fs == views(fields@),
            fs == nul_fields(output@),
            last + 1 == fields@.len(),
            k <= last,
            fs[last as int] == Seq::<char>::empty(),
            status_fields(records@) == fs.take(k as int),
            forall|j: int| 0 <= j < records@.len() ==> (#[trigger] records@[j]).wf(),
            status_error(output@) == records_error(fs, k as int, last as int),
        decreases last - k,
    {
        let field = char_vec(fields[k].as_str());
        assert(fs[k as int] == field@);
        if field.len() < 4 || field[2] != ' ' {
            let mut message = owned("invalid repository status record ");
            message.append(debug_text(fields[k].as_str()).as_str());
            return Err(message);
        }
        let status = text_of(&field, 0, 2);
        let path = text_of(&field, 3, field.len());
        let rename = field[0] == 'R' || field[0] == 'C' || field[1] == 'R' || field[1] == 'C';
        proof {
            assert(fs[k as int] == field@);
            lemma_nul_free(output@, k as int);
            assert(field@ =~= status@ + seq![' '] + path@);
            assert forall|j: int| 0 <= j < status@.len() implies status@[j] != '\0' by {
                assert(status@[j] == field@[j]);
            }
            assert forall|j: int| 0 <= j < path@.len() implies path@[j] != '\0' by {
                assert(path@[j] == field@[j + 3]);
            }
        }
        let ghost prior = records@;
        if rename {
            if k + 1 >= last {
                let mut message = owned("repository status record ");
                message.append(debug_text(fields[k].as_str()).as_str());
                message.append(" lacks its source path");
                return Err(message);
            }
            let related = owned(fields[k + 1].as_str());
            proof {
                lemma_nul_free(output@, k + 1);
            }
            records.push(StatusRecord { status, path, related_path: Some(related) });
            proof {
                assert(records@.drop_last() =~= prior);
                assert(fs.take(k + 2) =~= fs.take(k as int) + records@.last().fields());
            }
            k = k + 2;
        } else {
            records.push(StatusRecord { status, path, related_path: None });
            proof {
                assert(records@.drop_last() =~= prior);
                assert(fs.take(k + 1) =~= fs.take(k as int) + records@.last().fields());
            }
            k = k + 1;
        }
    }
    proof {
        assert(fs.take(last as int) =~= fs.drop_last());
        assert(fs =~= fs.drop_last().push(Seq::<char>::empty()));
    }
    Ok(records)
}

/// No field of a split holds a NUL.
proof fn lemma_nul_free(s: Seq<char>, k: int)
    requires
        0 <= k < nul_fields(s).len(),
    ensures
        !nul_fields(s)[k].contains('\0'),
    decreases s.len(),
{
    if s.len() > 0 {
        let head = nul_fields(s.drop_last());
        crate::text::lemma_nul_fields_nonempty(s.drop_last());
        if s.last() == '\0' {
            if k < head.len() {
                lemma_nul_free(s.drop_last(), k);
            }
        } else {
            if k < head.len() - 1 {
                lemma_nul_free(s.drop_last(), k);
            } else {
                lemma_nul_free(s.drop_last(), head.len() - 1);
                assert forall|j: int| 0 <= j < nul_fields(s)[k].len() implies nul_fields(s)[k][j] != '\0' by {
                    if j < head.last().len() {
                        assert(nul_fields(s)[k][j] == head.last()[j]);
                        assert(head.last().contains(head.last()[j]));
                    }
                }
            }
        }
    }
}

/// A path of a tracked record.
pub open spec fn tracked_path(records: Seq<StatusRecord>, path: Seq<char>) -> bool {
    exists|k: int|
        0 <= k < records.len() && !untracked_code(records[k].status@) && (#[trigger] records[k].path_views()).contains(
            path,
        )
}

/// The paths of tracked records whose index entries identify them, each
/// once, in ascending order.
pub fn index_paths(records: &Vec<StatusRecord>) -> (r: Vec<String>)
    ensures
        strictly_sorted(keys_of(r@)),
        forall|x: Seq<char>| keys_of(r@).contains(x) <==> tracked_path(records@, x),
{
    let mut r: Vec<String> = Vec::new();
    let mut k: usize = 0;
    while k < records.len()
        invariant
            k <= records@.len(),
            strictly_sorted(keys_of(r@)),
            forall|x: Seq<char>| keys_of(r@).contains(x) <==> tracked_path(records@.take(k as int), x),
        decreases records@.len() - k,
    {
        let ghost before = r@;
        let ghost taken = records@.take(k + 1);
        assert(taken.drop_last() =~= records@.take(k as int));
        assert forall|x: Seq<char>| tracked_path(records@.take(k as int), x) implies tracked_path(taken, x) by {
            let j = choose|j: int|
                0 <= j < k && !untracked_code(records@.take(k as int)[j].status@) && (#[trigger] records@.take(
                    k as int,
                )[j].path_views()).contains(x);
            assert(taken[j] == records@.take(k as int)[j]);
        }
        if !records[k].is_untracked() {
            let paths = records[k].paths();
            let mut m: usize = 0;
            while m < paths.len()
                invariant
                    k < records@.len(),
                    taken == records@.take(k + 1),
                    taken.drop_last() == records@.take(k as int),
                    views(paths@) == records@[k as int].path_views(),
                    !untracked_code(records@[k as int].status@),
                    m <= paths@.len(),
                    strictly_sorted(keys_of(r@)),
                    forall|x: Seq<char>|
                        keys_of(r@).contains(x) <==> (tracked_path(records@.take(k as int), x) || views(paths@).take(
                            m as int,
                        ).contains(x)),
                decreases paths@.len() - m,
            {
                let ghost old_r = r@;
                insert_sorted(&mut r, owned(paths[m].as_str()));
                assert forall|x: Seq<char>|
                    keys_of(r@).contains(x) <==> (tracked_path(records@.take(k as int), x) || views(paths@).take(
                        m + 1,
                    ).contains(x)) by {
                    if views(paths@).take(m + 1).contains(x) && !views(paths@).take(m as int).contains(x) {
                        let w = choose|w: int| 0 <= w < m + 1 && #[trigger] views(paths@).take(m + 1)[w] == x;
                        assert(w == m);
                    }
                    if views(paths@).take(m as int).contains(x) {
                        let w = choose|w: int| 0 <= w < m && #[trigger] views(paths@).take(m as int)[w] == x;
                        assert(views(paths@).take(m + 1)[w] == x);
                    }
                    if x == paths@[m as int]@ {
                        assert(views(paths@).take(m + 1)[m as int] == x);
                    }
                }
                m = m + 1;
            }
            assert(views(paths@).take(paths@.len() as int) =~= views(paths@));
            assert forall|x: Seq<char>| keys_of(r@).contains(x) <==> tracked_path(taken, x) by {
                if records@[k as int].path_views().contains(x) {
                    assert(taken[k as int] == records@[k as int]);
                }
                if tracked_path(taken, x) && !tracked_path(records@.take(k as int), x) {
                    let j = choose|j: int|
                        0 <= j < k + 1 && !untracked_code(taken[j].status@) && (#[trigger] taken[j].path_views()).contains(
                            x,
                        );
                    if j < k {
                        assert(records@.take(k as int)[j] == taken[j]);
                    }
                }
            }
        } else {
            assert forall|x: Seq<char>| keys_of(r@).contains(x) <==> tracked_path(taken, x) by {
                if tracked_path(taken, x) && !tracked_path(records@.take(k as int), x) {
                    let j = choose|j: int|
                        0 <= j < k + 1 && !untracked_code(taken[j].status@) && (#[trigger] taken[j].path_views()).contains(
                            x,
                        );
                    if j < k {
                        assert(records@.take(k as int)[j] == taken[j]);
                    }
                }
            }
        }
        k = k + 1;
    }
    assert(records@.take(records@.len() as int) =~= records@);
    r
}

/// Most paths passed to one index listing.
pub const INDEX_PATH_BATCH_COUNT: usize = 512;

/// Most command-line bytes of the paths of one index listing.
pub const INDEX_PATH_BATCH_BYTES: usize = 8192;

/// Command-line bytes a path takes: its UTF-8 encoding and a separator.
pub open spec fn path_bytes(path: Seq<char>) -> int {
    vstd::utf8::encode_utf8(path).len() as int + 1
}

/// Command-line bytes of a batch of paths.
pub open spec fn batch_bytes(batch: Seq<Seq<char>>) -> int
    decreases batch.len(),
{
    if batch.len() == 0 {
        0
    } else {
        batch_bytes(batch.drop_last()) + path_bytes(batch.last())
    }
}

/// The paths of each batch.
pub open spec fn batch_views(batches: Seq<Vec<String>>) -> Seq<Seq<Seq<char>>> {
    Seq::new(batches.len(), |k: int| views(batches[k]@))
}

/// Each batch is non-empty and within both limits, unless it is a single
/// path too long for the byte limit.
pub open spec fn batches_within_limits(batches: Seq<Seq<Seq<char>>>) -> bool {
    forall|k: int|
        0 <= k < batches.len() ==> {
            &&& (#[trigger] batches[k]).len() >= 1
            &&& batches[k].len() <= INDEX_PATH_BATCH_COUNT
            &&& (batches[k].len() == 1 || batch_bytes(batches[k]) <= INDEX_PATH_BATCH_BYTES)
        }
}

/// A batch ends only when the next path would break a limit.
pub open spec fn full_before(batch: Seq<Seq<char>>, next: Seq<char>) -> bool {
    batch.len() == INDEX_PATH_BATCH_COUNT || batch_bytes(batch) + path_bytes(next) > INDEX_PATH_BATCH_BYTES
}

/// Every batch but the last is full before the first path of the next.
pub open spec fn batches_filled(batches: Seq<Seq<Seq<char>>>) -> bool {
    forall|k: int| 0 <= k < batches.len() - 1 ==> full_before(#[trigger] batches[k], batches[k + 1][0])
}

/// Splits `paths` into consecutive batches, each as long as the limits on
/// path count and command-line bytes allow.
pub fn index_batches(paths: &Vec<String>) -> (r: Vec<Vec<String>>)
    ensures
        joined(batch_views(r@)) == views(paths@),
        batches_within_limits(batch_views(r@)),
        batches_filled(batch_views(r@)),
{
    let mut out: Vec<Vec<String>> = Vec::new();
    let mut batch: Vec<String> = Vec::new();
    let mut bytes: usize = 0;
    let mut i: usize = 0;
    while i < paths.len()
        invariant
            i <= paths@.len(),
            joined(batch_views(out@)) + views(batch@) == views(paths@.take(i as int)),
            batches_within_limits(batch_views(out@)),
            batches_filled(batch_views(out@)),
            out@.len() > 0 ==> batch@.len() > 0 && full_before(batch_views(out@).last(), batch@[0]@),
            batch@.len() <= INDEX_PATH_BATCH_COUNT,
            batch@.len() <= 1 || batch_bytes(views(batch@)) <= INDEX_PATH_BATCH_BYTES,
            bytes == (if batch_bytes(views(batch@)) > INDEX_PATH_BATCH_BYTES { 8193 } else { batch_bytes(views(batch@)) }),
        decreases paths@.len() - i,
    {
        let len = paths[i].as_str().as_bytes().len();
        let ghost pb = path_bytes(paths@[i as int]@);
        assert(len + 1 == pb);
        if batch.len() > 0 && (batch.len() >= INDEX_PATH_BATCH_COUNT || bytes > 8192 || len >= 8192 - bytes) {
            let ghost bv = batch_views(out@);
            let ghost done = views(batch@);
            assert(full_before(done, paths@[i as int]@));
            out.push(batch);
            batch = Vec::new();
            bytes = 0;
            proof {
                assert(batch_views(out@) =~= bv.push(done));
                assert(batch_views(out@).drop_last() =~= bv);
                assert(joined(batch_views(out@)) == joined(bv) + done);
                assert(views(batch@) =~= Seq::<Seq<char>>::empty());
                assert(joined(batch_views(out@)) + views(batch@) =~= joined(bv) + done);
            }
        }
        let ghost before = views(batch@);
        let ghost was_empty = batch@.len() == 0;
        if len >= 8192 || bytes + len + 1 > 8192 {
            bytes = 8193;
        } else {
            bytes = bytes + len + 1;
        }
        batch.push(owned(paths[i].as_str()));
        proof {
            assert(views(batch@) =~= before.push(paths@[i as int]@));
            assert(views(batch@).drop_last() =~= before);
            assert(batch_bytes(views(batch@)) == batch_bytes(before) + pb);
            assert(views(paths@.take(i + 1)) =~= views(paths@.take(i as int)).push(paths@[i as int]@));
            if batch_views(out@).len() > 0 {
                assert(views(batch@)[0] == batch@[0]@);
            }
        }
        i = i + 1;
    }
    if batch.len() > 0 {
        let ghost bv = batch_views(out@);
        let ghost done = views(batch@);
        out.push(batch);
        proof {
            assert(batch_views(out@) =~= bv.push(done));
            assert(batch_views(out@).drop_last() =~= bv);
        }
    } else {
        assert(views(batch@) =~= Seq::<Seq<char>>::empty());
        assert(joined(batch_views(out@)) + views(batch@) =~= joined(batch_views(out@)));
    }
    assert(paths@.take(paths@.len() as int) =~= paths@);
    out
}

/// The non-empty fields of a split, in order.
pub open spec fn listed_items(fields: Seq<Seq<char>>) -> Seq<Seq<char>>
    decreases fields.len(),
{
    if fields.len() == 0 {
        Seq::empty()
    } else {
        let rest = listed_items(fields.drop_last());
        if fields.last().len() == 0 {
            rest
        } else {
            rest.push(fields.last())
        }
    }
}

/// `t` is the position of the first tab of `item`.
pub open spec fn tab_at(item: Seq<char>, t: int) -> bool {
    &&& 0 <= t < item.len()
    &&& item[t] == '\t'
    &&& forall|j: int| 0 <= j < t ==> item[j] != '\t'
}

/// Stage metadata of an index listing item: the text before its first tab.
pub open spec fn item_metadata(item: Seq<char>) -> Seq<char> {
    item.take(choose|t: int| tab_at(item, t))
}

/// Path of an index listing item: the text after its first tab.
pub open spec fn item_path(item: Seq<char>) -> Seq<char> {
    item.skip((choose|t: int| tab_at(item, t)) + 1)
}

/// The metadata that `items` lists for `path`, in order.
pub open spec fn listed_values(items: Seq<Seq<char>>, path: Seq<char>) -> Seq<Seq<char>>
    decreases items.len(),
{
    if items.len() == 0 {
        Seq::empty()
    } else {
        let rest = listed_values(items.drop_last(), path);
        if item_path(items.last()) == path {
            rest.push(item_metadata(items.last()))
        } else {
            rest
        }
    }
}

/// The metadata an index map holds for `path`.
pub open spec fn index_values(index: Seq<(String, Vec<String>)>, path: Seq<char>) -> Seq<Seq<char>> {
    if keys_of(index).contains(path) {
        views(index[entry_of(index, path)].1@)
    } else {
        Seq::empty()
    }
}

/// Error for an index listing item without a tab.
pub open spec fn invalid_index_message(item: Seq<char>) -> Seq<char> {
    "invalid index entry "@ + debug_quoted(item)
}

/// The position of a key in a sorted map is the one entry that holds it.
proof fn lemma_entry_unique<V>(items: Seq<(String, V)>, e: int)
    requires
        strictly_sorted(keys_of(items)),
        0 <= e < items.len(),
    ensures
        entry_of(items, items[e].0@) == e,
        keys_of(items).contains(items[e].0@),
{
    let ks = keys_of(items);
    assert(ks[e] == items[e].0@);
    let c = entry_of(items, items[e].0@);
    assert(0 <= c < items.len() && items[c].key_view() == items[e].0@);
    if c != e {
        crate::text::lemma_sorted_distinct(ks, c, e);
    }
}

/// Index values after appending `meta` to the entry at `j`.
proof fn lemma_values_after_append(
    before: Seq<(String, Vec<String>)>,
    after: Seq<(String, Vec<String>)>,
    j: int,
    meta: Seq<char>,
)
    requires
        strictly_sorted(keys_of(before)),
        0 <= j < before.len(),
        after.len() == before.len(),
        forall|i: int| 0 <= i < before.len() && i != j ==> after[i] == before[i],
        after[j].0@ == before[j].0@,
        views(after[j].1@) == views(before[j].1@).push(meta),
    ensures
        keys_of(after) == keys_of(before),
        forall|p: Seq<char>|
            #[trigger] index_values(after, p) == index_values(before, p) + (if p == before[j].0@ {
                seq![meta]
            } else {
                Seq::empty()
            }),
{
    assert(keys_of(after) =~= keys_of(before));
    assert forall|p: Seq<char>|
        #[trigger] index_values(after, p) == index_values(before, p) + (if p == before[j].0@ {
            seq![meta]
        } else {
            Seq::empty()
        }) by {
        if keys_of(before).contains(p) {
            let e = choose|e: int| 0 <= e < keys_of(before).len() && keys_of(before)[e] == p;
            lemma_entry_unique(before, e);
            lemma_entry_unique(after, e);
            if e == j {
            } else {
                if p == before[j].0@ {
                    crate::text::lemma_sorted_distinct(keys_of(before), e, j);
                }
                assert(index_values(before, p) + Seq::<Seq<char>>::empty() =~= index_values(before, p));
            }
        } else {
            assert(keys_of(before)[j] == before[j].0@);
            assert(p != before[j].0@);
            assert(index_values(before, p) + Seq::<Seq<char>>::empty() =~= Seq::<Seq<char>>::empty());
        }
    }
}

/// Index values after inserting a new entry at `q`.
proof fn lemma_values_after_insert(
    before: Seq<(String, Vec<String>)>,
    q: int,
    item: (String, Vec<String>),
)
    requires
        strictly_sorted(keys_of(before)),
        strictly_sorted(keys_of(before.insert(q, item))),
        0 <= q <= before.len(),
        !keys_of(before).contains(item.0@),
    ensures
        forall|p: Seq<char>|
            #[trigger] index_values(before.insert(q, item), p) == index_values(before, p) + (if p == item.0@ {
                views(item.1@)
            } else {
                Seq::empty()
            }),
{
    let after = before.insert(q, item);
    assert forall|p: Seq<char>|
        #[trigger] index_values(after, p) == index_values(before, p) + (if p == item.0@ {
            views(item.1@)
        } else {
            Seq::empty()
        }) by {
        if p == item.0@ {
            assert(after[q] == item);
            lemma_entry_unique(after, q);
            assert(index_values(before, p) =~= Seq::<Seq<char>>::empty());
            assert(index_values(before, p) + views(item.1@) =~= views(item.1@));
        } else if keys_of(before).contains(p) {
            let e = choose|e: int| 0 <= e < keys_of(before).len() && keys_of(before)[e] == p;
            lemma_entry_unique(before, e);
            let e2 = if e < q { e } else { e + 1 };
            assert(after[e2] == before[e]);
            lemma_entry_unique(after, e2);
            assert(index_values(before, p) + Seq::<Seq<char>>::empty() =~= index_values(before, p));
        } else {
            if keys_of(after).contains(p) {
                let e = choose|e: int| 0 <= e < keys_of(after).len() && keys_of(after)[e] == p;
                if e < q {
                    assert(keys_of(before)[e] == p);
                } else if e > q {
                    assert(keys_of(before)[e - 1] == p);
                }
            }
            assert(index_values(before, p) + Seq::<Seq<char>>::empty() =~= Seq::<Seq<char>>::empty());
        }
    }
}

/// The position of the first tab of `cs`, if any.
fn find_tab(cs: &Vec<char>) -> (r: Option<usize>)
    ensures
        match r {
            Some(t) => tab_at(cs@, t as int),
            None => !cs@.contains('\t'),
        },
{
    let mut t: usize = 0;
    while t < cs.len()
        invariant
            t <= cs@.len(),
            forall|j: int| 0 <= j < t ==> cs@[j] != '\t',
        decreases cs@.len() - t,
    {
        if cs[t] == '\t' {
            return Some(t);
        }
        t = t + 1;
    }
    None
}

/// Records the entries of one `git ls-files --stage -z` listing: each
/// non-empty NUL-separated item is stage metadata, a tab, and a path.
pub fn add_index_entries(index: &mut Vec<(String, Vec<String>)>, output: &str) -> (r: Result<(), String>)
    requires
        strictly_sorted(keys_of(old(index)@)),
    ensures
        strictly_sorted(keys_of(final(index)@)),
        ({
            let items = listed_items(nul_fields(output@));
            &&& r is Ok <==> forall|k: int| 0 <= k < items.len() ==> (#[trigger] items[k]).contains('\t')
            &&& r is Ok ==> forall|p: Seq<char>|
                #[trigger] index_values(final(index)@, p) == index_values(old(index)@, p) + listed_values(items, p)
            &&& r matches Err(m) ==> exists|k: int|
                0 <= k < items.len() && !(#[trigger] items[k]).contains('\t') && m@ == invalid_index_message(items[k])
                    && forall|j: int| 0 <= j < k ==> (#[trigger] items[j]).contains('\t')
        }),
{
    let fields = split_nul(output);
    let ghost fs = views(fields@);
    let ghost start = old(index)@;
    let mut i: usize = 0;
    while i < fields.len()
        invariant
            fs == views(fields@),
            fs == nul_fields(output@),
            i <= fields@.len(),
            strictly_sorted(keys_of(index@)),
            forall|k: int|
                0 <= k < listed_items(fs.take(i as int)).len() ==> (#[trigger] listed_items(fs.take(i as int))[k]).contains(
                    '\t',
                ),
            forall|p: Seq<char>|
                #[trigger] index_values(index@, p) == index_values(start, p) + listed_values(
                    listed_items(fs.take(i as int)),
                    p,
                ),
        decreases fields@.len() - i,
    {
        let ghost done = listed_items(fs.take(i as int));
        assert(fs.take(i + 1).drop_last() =~= fs.take(i as int));
        let cs = char_vec(fields[i].as_str());
        if cs.len() == 0 {
            assert(listed_items(fs.take(i + 1)) == done);
            i = i + 1;
            continue;
        }
        assert(listed_items(fs.take(i + 1)) == done.push(cs@));
        let t = match find_tab(&cs) {
            Some(t) => t,
            None => {
                let mut message = owned("invalid index entry ");
                message.append(debug_text(fields[i].as_str()).as_str());
                proof {
                    reveal_strlit("invalid index entry ");
                    let items = listed_items(nul_fields(output@));
                    lemma_listed_prefix(fs, i as int + 1);
                    assert(items[done.len() as int] == cs@);
                    assert forall|j: int| 0 <= j < done.len() implies (#[trigger] items[j]).contains('\t') by {
                        assert(listed_items(fs.take(i + 1))[j] == done[j]);
                        assert(done[j].contains('\t'));
                    }
                }
                return Err(message);
            },
        };
        let meta = text_of(&cs, 0, t);
        let path = text_of(&cs, t + 1, cs.len());
        proof {
            let c = choose|c: int| tab_at(cs@, c);
            if c < t {
                assert(cs@[c] == '\t');
            } else if c > t {
                assert(cs@[t as int] == '\t');
            }
            assert(item_metadata(cs@) == meta@);
            assert(item_path(cs@) == path@);
            assert(cs@.contains('\t')) by {
                assert(cs@[t as int] == '\t');
            }
        }
        let ghost before = index@;
        match crate::text::find_key(index, path.as_str()) {
            Some(j) => {
                let mut values = crate::config::validation::clone_strings(&index[j].1);
                values.push(meta);
                let ghost vs = views(values@);
                let key = owned(index[j].0.as_str());
                index.set(j, (key, values));
                proof {
                    assert(vs =~= views(before[j as int].1@).push(item_metadata(cs@)));
                    lemma_values_after_append(before, index@, j as int, item_metadata(cs@));
                    assert(keys_of(index@) =~= keys_of(before));
                }
            },
            None => {
                let mut values: Vec<String> = Vec::new();
                values.push(meta);
                let ghost item = (path, values);
                let ghost vs = views(values@);
                insert_sorted(index, (path, values));
                proof {
                    let q = choose|q: int| 0 <= q <= before.len() && index@ == before.insert(q, item);
                    lemma_values_after_insert(before, q, item);
                    assert(vs =~= seq![item_metadata(cs@)]);
                }
            },
        }
        proof {
            assert forall|p: Seq<char>|
                #[trigger] index_values(index@, p) == index_values(start, p) + listed_values(
                    listed_items(fs.take(i + 1)),
                    p,
                ) by {
                assert(done.push(cs@).drop_last() =~= done);
                if p == item_path(cs@) {
                    assert(index_values(start, p) + listed_values(done, p).push(item_metadata(cs@)) =~= index_values(
                        start,
                        p,
                    ) + listed_values(done, p) + seq![item_metadata(cs@)]);
                } else {
                    assert(index_values(start, p) + listed_values(done, p) + Seq::<Seq<char>>::empty()
                        =~= index_values(start, p) + listed_values(done, p));
                }
            }
        }
        i = i + 1;
    }
    assert(fs.take(fields@.len() as int) =~= fs);
    Ok(())
}

/// The listed items of a prefix are a prefix of the listed items.
proof fn lemma_listed_prefix(fs: Seq<Seq<char>>, n: int)
    requires
        0 <= n <= fs.len(),
    ensures
        listed_items(fs.take(n)).len() <= listed_items(fs).len(),
        forall|k: int|
            0 <= k < listed_items(fs.take(n)).len() ==> #[trigger] listed_items(fs)[k] == listed_items(fs.take(n))[k],
    decreases fs.len() - n,
{
    if n < fs.len() {
        lemma_listed_prefix(fs, n + 1);
        assert(fs.take(n + 1).drop_last() =~= fs.take(n));
    } else {
        assert(fs.take(n) =~= fs);
    }
}

/// Each metadata text prefixed by `path` and a NUL.
pub open spec fn tagged(path: Seq<char>, values: Seq<Seq<char>>) -> Seq<Seq<char>> {
    Seq::new(values.len(), |i: int| path + seq!['\0'] + values[i])
}

/// The index texts that identify a record: nothing for an untracked
/// record, else for each of its paths what the index holds for it.
pub open spec fn record_index_texts(record: StatusRecord, index: Seq<(String, Vec<String>)>) -> Seq<Seq<char>> {
    if untracked_code(record.status@) {
        Seq::empty()
    } else {
        let paths = record.path_views();
        joined(Seq::new(paths.len(), |k: int| tagged(paths[k], index_values(index, paths[k]))))
    }
}

/// `state` is what a snapshot records for `record`.
pub open spec fn describes(
    state: EntryState,
    record: StatusRecord,
    worktree: Seq<(String, WorktreeState)>,
    index: Seq<(String, Vec<String>)>,
) -> bool {
    &&& state.status@ == record.status@
    &&& opt_view(state.related_path) == opt_view(record.related_path)
    &&& crate::text::sorted_texts(views(state.index_entries@))
    &&& views(state.index_entries@).to_multiset() == record_index_texts(record, index).to_multiset()
    &&& state.worktree@.len() == worktree.len()
    &&& forall|i: int|
        0 <= i < worktree.len() ==> (#[trigger] state.worktree@[i]).0@ == worktree[i].0@ && same_worktree(
            state.worktree@[i].1,
            worktree[i].1,
        )
}

/// The path of each record.
pub open spec fn record_paths(records: Seq<StatusRecord>) -> Seq<Seq<char>> {
    Seq::new(records.len(), |k: int| records[k].path@)
}

/// The display line of each record.
pub open spec fn record_displays(records: Seq<StatusRecord>) -> Seq<Seq<char>> {
    Seq::new(records.len(), |k: int| records[k].display_view())
}

/// `k` is the first record whose path an earlier record already has.
pub open spec fn first_repeat(records: Seq<StatusRecord>, k: int) -> bool {
    &&& 0 <= k < records.len()
    &&& record_paths(records).take(k).contains(records[k].path@)
    &&& record_paths(records).take(k).no_duplicates()
}

/// Error for a status listing that names a path twice.
pub open spec fn repeated_path_message(path: Seq<char>) -> Seq<char> {
    "repository status repeats path "@ + debug_quoted(path)
}

fn copy_worktree(w: &WorktreeState) -> (r: WorktreeState)
    ensures
        same_worktree(r, *w),
{
    match w {
        WorktreeState::Missing => WorktreeState::Missing,
        WorktreeState::File { digest, executable } => {
            let d: [u8; 32] = *digest;
            WorktreeState::File { digest: d, executable: *executable }
        },
        WorktreeState::Symlink(target) => WorktreeState::Symlink(owned(target.as_str())),
        WorktreeState::Directory(digest) => {
            let d: [u8; 32] = *digest;
            WorktreeState::Directory(d)
        },
        WorktreeState::Other => WorktreeState::Other,
    }
}

fn copy_worktrees(ws: &Vec<(String, WorktreeState)>) -> (r: Vec<(String, WorktreeState)>)
    ensures
        r@.len() == ws@.len(),
        forall|i: int| 0 <= i < ws@.len() ==> (#[trigger] r@[i]).0@ == ws@[i].0@ && same_worktree(r@[i].1, ws@[i].1),
{
    let mut r: Vec<(String, WorktreeState)> = Vec::new();
    let mut i: usize = 0;
    while i < ws.len()
        invariant
            i <= ws@.len(),
            r@.len() == i,
            forall|k: int| 0 <= k < i ==> (#[trigger] r@[k]).0@ == ws@[k].0@ && same_worktree(r@[k].1, ws@[k].1),
        decreases ws@.len() - i,
    {
        r.push((owned(ws[i].0.as_str()), copy_worktree(&ws[i].1)));
        i = i + 1;
    }
    r
}

/// The index texts of a record, in no particular order.
fn index_texts(record: &StatusRecord, index: &Vec<(String, Vec<String>)>) -> (r: Vec<String>)
    requires
        strictly_sorted(keys_of(index@)),
    ensures
        views(r@) == record_index_texts(*record, index@),
{
    let mut r: Vec<String> = Vec::new();
    if record.is_untracked() {
        assert(views(r@) =~= Seq::<Seq<char>>::empty());
        return r;
    }
    let paths = record.paths();
    let ghost pv = record.path_views();
    let ghost parts = Seq::new(pv.len(), |k: int| tagged(pv[k], index_values(index@, pv[k])));
    let mut k: usize = 0;
    while k < paths.len()
        invariant
            strictly_sorted(keys_of(index@)),
            views(paths@) == pv,
            parts == Seq::new(pv.len(), |k: int| tagged(pv[k], index_values(index@, pv[k]))),
            k <= paths@.len(),
            views(r@) == joined(parts.take(k as int)),
        decreases paths@.len() - k,
    {
        proof {
            crate::text::lemma_joined_take(parts, k as int);
        }
        let path = paths[k].as_str();
        assert(path@ == pv[k as int]);
        match crate::text::find_key(index, path) {
            Some(j) => {
                proof {
                    lemma_entry_unique(index@, j as int);
                }
                let values = &index[j].1;
                let ghost base = views(r@);
                let mut m: usize = 0;
                while m < values.len()
                    invariant
                        m <= values@.len(),
                        views(r@) == base + tagged(path@, views(values@)).take(m as int),
                    decreases values@.len() - m,
                {
                    let mut text = owned(path);
                    text.append("\0");
                    text.append(values[m].as_str());
                    let ghost prior = views(r@);
                    let ghost tv = text@;
                    r.push(text);
                    proof {
                        reveal_strlit("\0");
                        assert(tv =~= path@ + seq!['\0'] + values@[m as int]@);
                        assert(views(r@) =~= prior.push(path@ + seq!['\0'] + values@[m as int]@));
                        assert(tagged(path@, views(values@)).take(m + 1) =~= tagged(path@, views(values@)).take(
                            m as int,
                        ).push(path@ + seq!['\0'] + values@[m as int]@));
                        assert(views(r@) =~= base + tagged(path@, views(values@)).take(m + 1));
                    }
                    m = m + 1;
                }
                assert(tagged(path@, views(values@)).take(values@.len() as int) =~= tagged(path@, views(values@)));
                assert(parts[k as int] == tagged(path@, views(values@)));
            },
            None => {
                assert(parts[k as int] =~= Seq::<Seq<char>>::empty());
                assert(views(r@) + parts[k as int] =~= views(r@));
            },
        }
        k = k + 1;
    }
    assert(parts.take(paths@.len() as int) =~= parts);
    r
}

/// Lookups in a sorted map survive inserting a new key.
proof fn lemma_lookup_after_insert<V>(before: Seq<(String, V)>, q: int, item: (String, V), p: Seq<char>)
    requires
        strictly_sorted(keys_of(before)),
        strictly_sorted(keys_of(before.insert(q, item))),
        0 <= q <= before.len(),
        !keys_of(before).contains(item.0@),
    ensures
        keys_of(before.insert(q, item)).contains(item.0@),
        before.insert(q, item)[entry_of(before.insert(q, item), item.0@)] == item,
        keys_of(before).contains(p) ==> keys_of(before.insert(q, item)).contains(p) && before.insert(q, item)[entry_of(
            before.insert(q, item),
            p,
        )] == before[entry_of(before, p)],
{
    let after = before.insert(q, item);
    assert(after[q] == item);
    lemma_entry_unique(after, q);
    if keys_of(before).contains(p) {
        let e = choose|e: int| 0 <= e < keys_of(before).len() && keys_of(before)[e] == p;
        lemma_entry_unique(before, e);
        let e2 = if e < q { e } else { e + 1 };
        assert(after[e2] == before[e]);
        lemma_entry_unique(after, e2);
    }
}

/// Assembles a snapshot from the parsed status records, the index map,
/// and the fingerprints of each record's paths.
///
/// Fails when a path appears in two records.
pub fn snapshot(
    records: &Vec<StatusRecord>,
    index: &Vec<(String, Vec<String>)>,
    worktrees: &Vec<Vec<(String, WorktreeState)>>,
) -> (r: Result<RepositorySnapshot, String>)
    requires
        strictly_sorted(keys_of(index@)),
        worktrees@.len() == records@.len(),
    ensures
        r is Ok <==> record_paths(records@).no_duplicates(),
        r matches Err(m) ==> exists|k: int| first_repeat(records@, k) && m@ == repeated_path_message(records@[k].path@),
        r matches Ok(s) ==> {
            &&& s.wf()
            &&& crate::text::sorted_texts(views(s.entries@))
            &&& views(s.entries@).to_multiset() == record_displays(records@).to_multiset()
            &&& forall|x: Seq<char>| s.paths().contains(x) <==> record_paths(records@).contains(x)
            &&& forall|k: int|
                0 <= k < records@.len() ==> describes(
                    #[trigger] s.state_of(records@[k].path@),
                    records@[k],
                    worktrees@[k]@,
                    index@,
                )
        },
{
    let mut entries: Vec<String> = Vec::new();
    let mut states: Vec<(String, EntryState)> = Vec::new();
    let mut k: usize = 0;
    assert(views(entries@) =~= state_displays(states@));
    while k < records.len()
        invariant
            strictly_sorted(keys_of(index@)),
            worktrees@.len() == records@.len(),
            k <= records@.len(),
            strictly_sorted(keys_of(states@)),
            record_paths(records@).take(k as int).no_duplicates(),
            forall|x: Seq<char>| keys_of(states@).contains(x) <==> record_paths(records@).take(k as int).contains(x),
            views(entries@) == record_displays(records@).take(k as int),
            views(entries@).to_multiset() == state_displays(states@).to_multiset(),
            forall|j: int|
                0 <= j < k ==> describes(
                    #[trigger] states@[entry_of(states@, records@[j].path@)].1,
                    records@[j],
                    worktrees@[j]@,
                    index@,
                ),
        decreases records@.len() - k,
    {
        let record = &records[k];
        let ghost taken = record_paths(records@).take(k + 1);
        assert(taken =~= record_paths(records@).take(k as int).push(record.path@));
        let texts = index_texts(record, index);
        let sorted = crate::text::sort_texts(&texts);
        let state = EntryState {
            status: owned(record.status.as_str()),
            related_path: match &record.related_path {
                Some(related) => Some(owned(related.as_str())),
                None => None,
            },
            index_entries: sorted,
            worktree: copy_worktrees(&worktrees[k]),
        };
        assert(describes(state, records@[k as int], worktrees@[k as int]@, index@));
        let ghost before = states@;
        let ghost item = (record.path, state);
        let key = owned(record.path.as_str());
        let ghost item2 = (key, state);
        if !insert_sorted(&mut states, (key, state)) {
            let mut message = owned("repository status repeats path ");
            message.append(debug_text(record.path.as_str()).as_str());
            proof {
                reveal_strlit("repository status repeats path ");
                assert(first_repeat(records@, k as int));
                assert(!record_paths(records@).no_duplicates()) by {
                    let j = choose|j: int| 0 <= j < k && record_paths(records@).take(k as int)[j] == record.path@;
                    assert(record_paths(records@)[j] == record_paths(records@)[k as int]);
                }
            }
            return Err(message);
        }
        proof {
            let q = choose|q: int| 0 <= q <= before.len() && states@ == before.insert(q, item2);
            assert(state_display(item2) == records@[k as int].display_view());
            assert(state_displays(states@) =~= state_displays(before).insert(q, state_display(item2)));
            vstd::seq_lib::to_multiset_insert(state_displays(before), q, state_display(item2));
            assert forall|j: int| 0 <= j < k + 1 implies describes(
                #[trigger] states@[entry_of(states@, records@[j].path@)].1,
                records@[j],
                worktrees@[j]@,
                index@,
            ) by {
                lemma_lookup_after_insert(before, q, item2, records@[j].path@);
                if j < k {
                    assert(record_paths(records@).take(k as int)[j] == records@[j].path@);
                }
            }
            assert forall|a: int, b: int| 0 <= a < taken.len() && 0 <= b < taken.len() && a != b implies taken[a]
                != taken[b] by {
                if a < k && b < k {
                    assert(record_paths(records@).take(k as int)[a] == taken[a]);
                    assert(record_paths(records@).take(k as int)[b] == taken[b]);
                } else if a == k {
                    assert(record_paths(records@).take(k as int)[b] == taken[b]);
                } else {
                    assert(record_paths(records@).take(k as int)[a] == taken[a]);
                }
            }
            assert forall|x: Seq<char>| keys_of(states@).contains(x) <==> taken.contains(x) by {
                if x == records@[k as int].path@ {
                    assert(taken[k as int] == x);
                }
                if taken.contains(x) {
                    let w = choose|w: int| 0 <= w < taken.len() && taken[w] == x;
                    if w < k {
                        assert(record_paths(records@).take(k as int)[w] == x);
                    }
                }
                if record_paths(records@).take(k as int).contains(x) {
                    let w = choose|w: int| 0 <= w < k && record_paths(records@).take(k as int)[w] == x;
                    assert(taken[w] == x);
                }
            }
        }
        let ghost prior = views(entries@);
        entries.push(record.display());
        assert(views(entries@) =~= prior.push(records@[k as int].display_view()));
        proof {
            broadcast use vstd::seq_lib::group_to_multiset_ensures;
            assert(views(entries@).to_multiset() == prior.to_multiset().insert(records@[k as int].display_view()));
        }
        assert(record_displays(records@).take(k + 1) =~= record_displays(records@).take(k as int).push(
            records@[k as int].display_view(),
        ));
        k = k + 1;
    }
    assert(record_paths(records@).take(records@.len() as int) =~= record_paths(records@));
    assert(record_displays(records@).take(records@.len() as int) =~= record_displays(records@));
    let sorted = crate::text::sort_texts(&entries);
    let s = RepositorySnapshot { entries: sorted, states };
    assert forall|k: int| 0 <= k < records@.len() implies describes(
        #[trigger] s.state_of(records@[k].path@),
        records@[k],
        worktrees@[k]@,
        index@,
    ) by {}
    Ok(s)
}

/// What the repository provider's output means for a snapshot: its
/// standard output, or why it cannot be used.
pub open spec fn provider_verdict(output: ProcessOutput, limit: usize) -> Result<Seq<char>, Seq<char>> {
    match output.start_error {
        Some(error) => Err("cannot start repository provider: "@ + error@),
        None => if output.interrupted {
            Err("repository snapshot interrupted"@)
        } else if output.timed_out {
            Err("repository snapshot timed out"@)
        } else if output.exit_code != Some(0i32) {
            Err("repository snapshot exited with "@ + exit_code_text(output.exit_code) + ": "@ + trimmed(
                output.stderr@,
            ))
        } else if output.stdout_truncated {
            Err("repository snapshot exceeds outputLimitBytes ("@ + decimal_text(limit as nat) + ")"@)
        } else {
            Ok(output.stdout@)
        },
    }
}

/// Accepts the output of a repository provider command, which must have
/// started, finished in time with exit code 0, and kept its whole output.
pub fn provider_output(output: &ProcessOutput, limit: usize) -> (r: Result<String, String>)
    ensures
        match r {
            Ok(text) => provider_verdict(*output, limit) == Ok::<Seq<char>, Seq<char>>(text@),
            Err(message) => provider_verdict(*output, limit) == Err::<Seq<char>, Seq<char>>(message@),
        },
{
    match &output.start_error {
        Some(error) => {
            return Err(crate::text::concat2("cannot start repository provider: ", error.as_str()));
        },
        None => {},
    }
    if output.interrupted {
        return Err(owned("repository snapshot interrupted"));
    }
    if output.timed_out {
        return Err(owned("repository snapshot timed out"));
    }
    let succeeded = match output.exit_code {
        Some(code) => code == 0,
        None => false,
    };
    if !succeeded {
        let mut message = owned("repository snapshot exited with ");
        message.append(format_exit_code(output.exit_code).as_str());
        message.append(": ");
        message.append(crate::text::trim(output.stderr.as_str()).as_str());
        return Err(message);
    }
    if output.stdout_truncated {
        let mut message = owned("repository snapshot exceeds outputLimitBytes (");
        crate::text::push_decimal(&mut message, limit as u64);
        message.append(")");
        return Err(message);
    }
    Ok(owned(output.stdout.as_str()))
}

/// Seconds a repository provider command may run.
pub const PROVIDER_TIMEOUT_SECONDS: u64 = 120;

/// Arguments of the status listing that a snapshot starts from.
pub fn status_arguments() -> (r: Vec<String>)
    ensures
        views(r@) == seq!["status"@, "--porcelain=v1"@, "-z"@, "--untracked-files=all"@],
{
    let mut r: Vec<String> = Vec::new();
    r.push(owned("status"));
    r.push(owned("--porcelain=v1"));
    r.push(owned("-z"));
    r.push(owned("--untracked-files=all"));
    assert(views(r@) =~= seq!["status"@, "--porcelain=v1"@, "-z"@, "--untracked-files=all"@]);
    r
}

/// Arguments of the index listing of one batch of paths; literal
/// pathspecs keep Git metacharacters in file names from matching others.
pub fn index_arguments(batch: &Vec<String>) -> (r: Vec<String>)
    ensures
        views(r@) == seq!["--literal-pathspecs"@, "ls-files"@, "--stage"@, "-z"@, "--"@] + views(batch@),
{
    let mut r: Vec<String> = Vec::new();
    r.push(owned("--literal-pathspecs"));
    r.push(owned("ls-files"));
    r.push(owned("--stage"));
    r.push(owned("-z"));
    r.push(owned("--"));
    let ghost head = views(r@);
    crate::text::extend_strings(&mut r, batch);
    assert(head =~= seq!["--literal-pathspecs"@, "ls-files"@, "--stage"@, "-z"@, "--"@]);
    r
}


// ---------------------------------------------------------------------------
// Worktree fingerprints.
// ---------------------------------------------------------------------------

/// The SHA-256 digest of `bytes`.
pub uninterp spec fn sha256_of(bytes: Seq<u8>) -> Seq<u8>;

/// Trusted: `sha2::Sha256::digest` over `bytes`; the contract names its
/// result and claims nothing more of it.
#[verifier::external_body]
pub fn sha256_digest(bytes: &[u8]) -> (r: [u8; 32])
    ensures
        r@ == sha256_of(bytes@),
{
    sha2::Sha256::digest(bytes).into()
}

/// One entry of a directory listing, in walk order: a directory's entry
/// is followed by its own entries and then by the end of the directory.
/// Paths are relative to the directory being fingerprinted.
#[derive(Clone, Debug)]
pub enum DirectoryItem {
    /// A symbolic link and its target text.
    Symlink { path: String, target: String },
    /// A regular file, the digest of its contents, and whether it is executable.
    File { path: String, digest: [u8; 32], executable: bool },
    /// A directory whose entries follow.
    DirectoryStart { path: String },
    /// The end of the entries of the last directory started.
    DirectoryEnd,
    /// Any other kind of file-system object.
    Other { path: String },
}

/// The UTF-8 bytes of a text.
pub open spec fn utf8(text: Seq<char>) -> Seq<u8> {
    vstd::utf8::encode_utf8(text)
}

/// The bytes that one listing entry contributes to a directory digest: the
/// path and a NUL, then the kind with what identifies it; every entry but
/// a directory's start ends with a NUL, which the directory's end supplies.
pub open spec fn item_bytes(item: DirectoryItem) -> Seq<u8> {
    match item {
        DirectoryItem::Symlink { path, target } => utf8(path@) + seq![0u8] + utf8("symlink"@) + seq![0u8]
            + utf8(target@) + seq![0u8],
        DirectoryItem::File { path, digest, executable } => utf8(path@) + seq![0u8] + utf8("file"@) + seq![0u8]
            + digest@ + seq![
            if executable {
                1u8
            } else {
                0u8
            },
        ] + seq![0u8],
        DirectoryItem::DirectoryStart { path } => utf8(path@) + seq![0u8] + utf8("directory"@) + seq![0u8],
        DirectoryItem::DirectoryEnd => seq![0u8],
        DirectoryItem::Other { path } => utf8(path@) + seq![0u8] + utf8("other"@) + seq![0u8] + seq![0u8],
    }
}

/// The bytes a directory digest is taken of: the bytes of its listing's
/// entries, in order.
pub open spec fn directory_bytes(items: Seq<DirectoryItem>) -> Seq<u8>
    decreases items.len(),
{
    if items.len() == 0 {
        Seq::empty()
    } else {
        directory_bytes(items.drop_last()) + item_bytes(items.last())
    }
}

fn push_bytes(out: &mut Vec<u8>, bytes: &[u8])
    ensures
        final(out)@ == old(out)@ + bytes@,
{
    let ghost start = out@;
    let mut i: usize = 0;
    while i < bytes.len()
        invariant
            i <= bytes@.len(),
            out@ == start + bytes@.take(i as int),
        decreases bytes@.len() - i,
    {
        out.push(bytes[i]);
        assert(bytes@.take(i + 1) =~= bytes@.take(i as int).push(bytes@[i as int]));
        i = i + 1;
    }
    assert(bytes@.take(bytes@.len() as int) =~= bytes@);
}

fn push_text(out: &mut Vec<u8>, text: &str)
    ensures
        final(out)@ == old(out)@ + utf8(text@),
{
    push_bytes(out, text.as_bytes());
}

/// Encodes a directory listing for its digest.
pub fn directory_encoding(items: &Vec<DirectoryItem>) -> (r: Vec<u8>)
    ensures
        r@ == directory_bytes(items@),
{
    let mut r: Vec<u8> = Vec::new();
    let mut k: usize = 0;
    while k < items.len()
        invariant
            k <= items@.len(),
            r@ == directory_bytes(items@.take(k as int)),
        decreases items@.len() - k,
    {
        let ghost before = r@;
        match &items[k] {
            DirectoryItem::Symlink { path, target } => {
                push_text(&mut r, path.as_str());
                r.push(0);
                push_text(&mut r, "symlink");
                r.push(0);
                push_text(&mut r, target.as_str());
                r.push(0);
            },
            DirectoryItem::File { path, digest, executable } => {
                push_text(&mut r, path.as_str());
                r.push(0);
                push_text(&mut r, "file");
                r.push(0);
                push_bytes(&mut r, digest.as_slice());
                r.push(if *executable { 1 } else { 0 });
                r.push(0);
            },
            DirectoryItem::DirectoryStart { path } => {
                push_text(&mut r, path.as_str());
                r.push(0);
                push_text(&mut r, "directory");
                r.push(0);
            },
            DirectoryItem::DirectoryEnd => {
                r.push(0);
            },
            DirectoryItem::Other { path } => {
                push_text(&mut r, path.as_str());
                r.push(0);
                push_text(&mut r, "other");
                r.push(0);
                r.push(0);
            },
        }
        assert(items@.take(k + 1).drop_last() =~= items@.take(k as int));
        assert(r@ =~= before + item_bytes(items@[k as int]));
        k = k + 1;
    }
    assert(items@.take(items@.len() as int) =~= items@);
    r
}

/// The digest of a regular file's contents.
pub fn file_digest(contents: &[u8]) -> (r: [u8; 32])
    ensures
        r@ == sha256_of(contents@),
{
    sha256_digest(contents)
}

/// The digest of a directory's visible tree, from its listing.
pub fn directory_digest(items: &Vec<DirectoryItem>) -> (r: [u8; 32])
    ensures
        r@ == sha256_of(directory_bytes(items@)),
{
    let bytes = directory_encoding(items);
    sha256_digest(bytes.as_slice())
}

/// The entries of a directory that its digest covers, in the order it
/// covers them: the names in increasing order, `.git` left out.
pub fn visible_entries(names: &Vec<String>) -> (r: Vec<String>)
    ensures
        exists|sorted: Seq<Seq<char>>|
            crate::text::sorted_texts(sorted) && sorted.to_multiset() == views(names@).to_multiset() && views(r@)
                == sorted.filter(|name: Seq<char>| name != ".git"@),
{
    let sorted = crate::text::sort_texts(names);
    let ghost all = views(sorted@);
    let mut r: Vec<String> = Vec::new();
    let mut i: usize = 0;
    proof {
        reveal_strlit(".git");
        reveal(Seq::filter);
    }
    assert(all.take(0) =~= Seq::<Seq<char>>::empty());
    while i < sorted.len()
        invariant
            i <= sorted@.len(),
            all == views(sorted@),
            views(r@) == all.take(i as int).filter(|name: Seq<char>| name != ".git"@),
        decreases sorted@.len() - i,
    {
        proof {
            reveal_strlit(".git");
            reveal(Seq::filter);
        }
        let ghost before = views(r@);
        assert(all.take(i + 1).drop_last() =~= all.take(i as int));
        if !crate::text::text_eq(sorted[i].as_str(), ".git") {
            r.push(owned(sorted[i].as_str()));
            assert(views(r@) =~= before.push(sorted@[i as int]@));
        }
        i = i + 1;
    }
    assert(all.take(all.len() as int) =~= all);
    r
}

} // verus!
