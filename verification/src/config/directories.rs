//! Secure resolution of suite working directories.
//!
//! Declared directories are checked lexically here. Resolving them on the
//! file system (canonicalization, which follows symlinks) is done by the
//! caller, which reports each outcome as a [`DirectoryProbe`]; the decision
//! about that outcome is taken here.

use vstd::prelude::*;
use crate::text::{concat2, owned};

verus! {

/// Canonical directory for a suite and its portable workspace-relative form.
#[derive(Clone, Debug)]
pub struct ResolvedSuiteDirectory {
    /// Canonical absolute path used as the subprocess working directory.
    pub absolute: String,
    /// Portable path relative to the workspace root, or `.` for the root itself.
    pub relative: String,
}

/// What the file system reported for `workspace root / declared directory`.
#[derive(Clone, Debug)]
pub enum DirectoryProbe {
    /// Canonicalization failed with the given operating-system message.
    Unresolved(String),
    /// Canonicalization produced `absolute`, which is or is not a directory.
    Resolved { absolute: String, is_directory: bool },
}

/// `path` starts with `prefix`.
pub open spec fn starts_with(path: Seq<char>, prefix: Seq<char>) -> bool {
    prefix.len() <= path.len() && path.subrange(0, prefix.len() as int) == prefix
}

/// A `..` component occurs in a `/`-separated path.
pub open spec fn has_parent_component(path: Seq<char>) -> bool {
    exists|i: int|
        0 <= i && i + 2 <= path.len() && #[trigger] path[i] == '.' && path[i + 1] == '.'
            && (i == 0 || path[i - 1] == '/') && (i + 2 == path.len() || path[i + 2] == '/')
}

/// The lexical verdict on a declared working directory.
pub open spec fn relative_path_verdict(path: Seq<char>) -> Result<(), Seq<char>> {
    if path.len() == 0 || path[0] == '/' {
        Err("workingDirectory "@ + path + " must be a non-empty relative path"@)
    } else if path.contains('\0') || has_parent_component(path) {
        Err("workingDirectory "@ + path + " is unsafe"@)
    } else {
        Ok(())
    }
}

fn parent_component_at(path: &str, n: usize, i: usize) -> (r: bool)
    requires
        n == path@.len(),
        i + 2 <= n,
    ensures
        r == (path@[i as int] == '.' && path@[i + 1] == '.' && (i == 0 || path@[i - 1] == '/') && (i + 2
            == n || path@[i + 2] == '/')),
{
    path.get_char(i) == '.' && path.get_char(i + 1) == '.' && (i == 0 || path.get_char(i - 1) == '/') && (i
        + 2 == n || path.get_char(i + 2) == '/')
}

/// Rejects path forms that cannot safely be resolved below a workspace root.
pub fn validate_relative_path(path: &str) -> (r: Result<(), String>)
    ensures
        match r {
            Ok(()) => relative_path_verdict(path@) is Ok,
            Err(message) => relative_path_verdict(path@) == Err::<(), Seq<char>>(message@),
        },
{
    let n = path.unicode_len();
    if n == 0 || path.get_char(0) == '/' {
        let mut m = concat2("workingDirectory ", path);
        m.append(" must be a non-empty relative path");
        return Err(m);
    }
    let mut unsafe_form = false;
    let mut i: usize = 0;
    while i < n
        invariant
            n == path@.len(),
            i <= n,
            unsafe_form <==> exists|k: int| 0 <= k < i && (path@[k] == '\0' || (k + 2 <= n && #[trigger] path@[k]
                == '.' && path@[k + 1] == '.' && (k == 0 || path@[k - 1] == '/') && (k + 2 == n || path@[k + 2]
                == '/'))),
        decreases n - i,
    {
        if path.get_char(i) == '\0' || (i < n - 1 && parent_component_at(path, n, i)) {
            unsafe_form = true;
        }
        i = i + 1;
    }
    proof {
        if path@.contains('\0') {
            let k = choose|k: int| 0 <= k < path@.len() && path@[k] == '\0';
            assert(path@[k] == '\0');
        }
        if has_parent_component(path@) {
            let k = choose|k: int|
                0 <= k && k + 2 <= path@.len() && #[trigger] path@[k] == '.' && path@[k + 1] == '.' && (k == 0
                    || path@[k - 1] == '/') && (k + 2 == path@.len() || path@[k + 2] == '/');
            assert(path@[k] == '.');
        }
        if unsafe_form {
            let k = choose|k: int| 0 <= k < n && (path@[k] == '\0' || (k + 2 <= n && #[trigger] path@[k]
                == '.' && path@[k + 1] == '.' && (k == 0 || path@[k - 1] == '/') && (k + 2 == n || path@[k + 2]
                == '/')));
            if path@[k] == '\0' {
                assert(path@.contains('\0'));
            }
        }
    }
    if unsafe_form {
        let mut m = concat2("workingDirectory ", path);
        m.append(" is unsafe");
        return Err(m);
    }
    Ok(())
}

/// `absolute` lies at or below `root`, comparing whole path components.
///
/// Both paths are canonical, as canonicalization produces them: absolute,
/// without `.` or `..` components, repeated separators or a trailing
/// separator other than the root directory itself.
pub open spec fn within_root(absolute: Seq<char>, root: Seq<char>) -> bool {
    ||| absolute == root
    ||| (root.len() > 0 && root.last() == '/' && starts_with(absolute, root))
    ||| (starts_with(absolute, root) && absolute.len() > root.len() && absolute[root.len() as int] == '/')
}

/// The portable workspace-relative form of a canonical path within `root`.
pub open spec fn relative_text(absolute: Seq<char>, root: Seq<char>) -> Seq<char> {
    if absolute == root {
        "."@
    } else if root.len() > 0 && root.last() == '/' {
        absolute.subrange(root.len() as int, absolute.len() as int)
    } else {
        absolute.subrange(root.len() as int + 1, absolute.len() as int)
    }
}

/// The decision on one suite's probed working directory.
pub open spec fn directory_verdict(id: Seq<char>, declared: Seq<char>, root: Seq<char>, probe: DirectoryProbe) -> Result<
    (Seq<char>, Seq<char>),
    Seq<char>,
> {
    match probe {
        DirectoryProbe::Unresolved(error) => Err(
            "suite "@ + id + " has invalid workingDirectory "@ + declared + ": "@ + error@,
        ),
        DirectoryProbe::Resolved { absolute, is_directory } => if !within_root(absolute@, root) {
            Err("suite "@ + id + " workingDirectory "@ + declared + " escapes workspaceRoot"@)
        } else if !is_directory {
            Err("suite "@ + id + " workingDirectory "@ + declared + " is not a directory"@)
        } else {
            Ok((absolute@, relative_text(absolute@, root)))
        },
    }
}

fn text_starts_with(path: &str, prefix: &str) -> (r: bool)
    ensures
        r == starts_with(path@, prefix@),
{
    let n = prefix.unicode_len();
    if n > path.unicode_len() {
        return false;
    }
    let mut i: usize = 0;
    while i < n
        invariant
            n == prefix@.len(),
            n <= path@.len(),
            i <= n,
            forall|k: int| 0 <= k < i ==> path@[k] == prefix@[k],
        decreases n - i,
    {
        if path.get_char(i) != prefix.get_char(i) {
            assert(path@.subrange(0, n as int)[i as int] != prefix@[i as int]);
            return false;
        }
        i = i + 1;
    }
    assert(path@.subrange(0, n as int) =~= prefix@);
    true
}

/// Decides whether a probed suite directory is usable, and resolves its
/// portable form.
pub fn resolve_suite_directory(id: &str, declared: &str, root: &str, probe: &DirectoryProbe) -> (r: Result<
    ResolvedSuiteDirectory,
    String,
>)
    ensures
        match r {
            Ok(resolved) => directory_verdict(id@, declared@, root@, *probe) == Ok::<(Seq<char>, Seq<char>), Seq<char>>(
                (resolved.absolute@, resolved.relative@),
            ),
            Err(message) => directory_verdict(id@, declared@, root@, *probe) == Err::<(Seq<char>, Seq<char>), Seq<char>>(
                message@,
            ),
        },
{
    match probe {
        DirectoryProbe::Unresolved(error) => {
            let mut m = concat2("suite ", id);
            m.append(" has invalid workingDirectory ");
            m.append(declared);
            m.append(": ");
            m.append(error.as_str());
            Err(m)
        },
        DirectoryProbe::Resolved { absolute, is_directory } => {
            let a = absolute.as_str();
            let same = crate::text::text_eq(a, root);
            let rn = root.unicode_len();
            let root_is_directory_root = rn > 0 && root.get_char(rn - 1) == '/';
            let prefixed = text_starts_with(a, root);
            let below = prefixed && a.unicode_len() > rn && a.get_char(rn) == '/';
            if !(same || (root_is_directory_root && prefixed) || below) {
                let mut m = concat2("suite ", id);
                m.append(" workingDirectory ");
                m.append(declared);
                m.append(" escapes workspaceRoot");
                return Err(m);
            }
            if !*is_directory {
                let mut m = concat2("suite ", id);
                m.append(" workingDirectory ");
                m.append(declared);
                m.append(" is not a directory");
                return Err(m);
            }
            let relative = if same {
                owned(".")
            } else if root_is_directory_root {
                owned(a.substring_char(rn, a.unicode_len()))
            } else {
                owned(a.substring_char(rn + 1, a.unicode_len()))
            };
            Ok(ResolvedSuiteDirectory { absolute: owned(a), relative })
        },
    }
}

} // verus!
