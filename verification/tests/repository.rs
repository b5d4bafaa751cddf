use workspace_validator::execution::ProcessOutput;
use workspace_validator::repository::{directory_digest, directory_encoding, file_digest, DirectoryItem};
use workspace_validator::repository::{
    add_index_entries, compare, index_arguments, index_batches, index_paths, parse_status, provider_output, snapshot,
    status_arguments, EntryState, RepositorySnapshot, StatusRecord, WorktreeState,
};

fn fixture_snapshot(digest: u8, status: &str) -> RepositorySnapshot {
    RepositorySnapshot {
        entries: vec![format!("{status} shared")],
        states: vec![(
            "shared".to_string(),
            EntryState {
                status: status.to_string(),
                related_path: None,
                index_entries: vec!["100644 object 0".to_string()],
                worktree: vec![(
                    "shared".to_string(),
                    WorktreeState::File { digest: [digest; 32], executable: false },
                )],
            },
        )],
    }
}

fn output(stdout: &str, exit_code: Option<i32>) -> ProcessOutput {
    ProcessOutput {
        exit_code,
        duration_ms: 3,
        timed_out: false,
        interrupted: false,
        stdout: stdout.to_string(),
        stderr: "  fatal: not a git repository \n".to_string(),
        stdout_truncated: false,
        stderr_truncated: false,
        start_error: None,
    }
}

#[test]
fn detects_content_changes_without_status_changes() {
    let before = fixture_snapshot(1, "AM");
    let after = fixture_snapshot(2, "AM");
    assert_eq!(compare(&before, &after), (vec![], vec![], vec!["shared".to_string()]));
}

#[test]
fn identical_snapshots_differ_nowhere() {
    let before = fixture_snapshot(1, "AM");
    let after = fixture_snapshot(1, "AM");
    assert_eq!(compare(&before, &after), (vec![], vec![], vec![]));
}

#[test]
fn introduced_and_removed_paths_are_reported_separately() {
    let before = fixture_snapshot(1, "AM");
    let after = RepositorySnapshot { entries: vec![], states: vec![] };
    assert_eq!(compare(&before, &after), (vec![], vec!["shared".to_string()], vec![]));
    assert_eq!(compare(&after, &before), (vec!["shared".to_string()], vec![], vec![]));
}

#[test]
fn status_records_are_read_with_rename_sources() {
    let records = parse_status(" M src/lib.rs\0R  new.rs\0old.rs\0?? notes.txt\0").unwrap();
    assert_eq!(records.len(), 3);
    assert_eq!(records[0].status, " M");
    assert_eq!(records[0].path, "src/lib.rs");
    assert_eq!(records[1].related_path.as_deref(), Some("old.rs"));
    assert_eq!(records[1].display(), "R  old.rs -> new.rs");
    assert!(records[2].is_untracked());
    assert!(parse_status("").unwrap().is_empty());
}

#[test]
fn malformed_status_output_is_rejected() {
    assert_eq!(parse_status(" M file").unwrap_err(), "repository status output is not NUL-terminated");
    assert_eq!(parse_status("M\0").unwrap_err(), "invalid repository status record \"M\"");
    assert_eq!(parse_status("R  new\0").unwrap_err(), "repository status record \"R  new\" lacks its source path");
}

#[test]
fn only_tracked_paths_are_listed_for_the_index() {
    let records = parse_status("?? b\0 M c\0R  d\0a\0").unwrap();
    assert_eq!(index_paths(&records), ["a", "c", "d"]);
}

#[test]
fn index_batches_respect_count_and_byte_limits() {
    let paths: Vec<String> = (0..1030).map(|i| format!("p{i:04}")).collect();
    let batches = index_batches(&paths);
    assert_eq!(batches.iter().map(Vec::len).collect::<Vec<_>>(), [512, 512, 6]);
    let long: Vec<String> = (0..3).map(|i| format!("{i}{}", "x".repeat(5000))).collect();
    let batches = index_batches(&long);
    assert_eq!(batches.len(), 3);
    assert_eq!(index_arguments(&vec!["a".to_string()]), ["--literal-pathspecs", "ls-files", "--stage", "-z", "--", "a"]);
    assert_eq!(status_arguments(), ["status", "--porcelain=v1", "-z", "--untracked-files=all"]);
}

#[test]
fn index_listings_are_grouped_by_path() {
    let mut index: Vec<(String, Vec<String>)> = Vec::new();
    add_index_entries(&mut index, "100644 aaa 0\tb.rs\0100644 bbb 0\ta.rs\0").unwrap();
    add_index_entries(&mut index, "100644 ccc 1\tb.rs\0").unwrap();
    assert_eq!(
        index,
        vec![
            ("a.rs".to_string(), vec!["100644 bbb 0".to_string()]),
            ("b.rs".to_string(), vec!["100644 aaa 0".to_string(), "100644 ccc 1".to_string()]),
        ]
    );
    assert_eq!(add_index_entries(&mut index, "broken\0").unwrap_err(), "invalid index entry \"broken\"");
}

#[test]
fn snapshots_sort_entries_and_reject_repeated_paths() {
    let records = parse_status("?? z.txt\0 M a.rs\0").unwrap();
    let index = vec![("a.rs".to_string(), vec!["100644 bbb 0".to_string(), "100644 aaa 0".to_string()])];
    let worktrees = vec![vec![("z.txt".to_string(), WorktreeState::Missing)], vec![("a.rs".to_string(), WorktreeState::Other)]];
    let taken = snapshot(&records, &index, &worktrees).unwrap();
    assert_eq!(taken.entries(), [" M a.rs", "?? z.txt"]);
    assert_eq!(taken.states[0].0, "a.rs");
    assert_eq!(taken.states[0].1.index_entries, ["a.rs\u{0}100644 aaa 0", "a.rs\u{0}100644 bbb 0"]);
    assert!(taken.states[1].1.index_entries.is_empty());

    let repeated = vec![
        StatusRecord { status: " M".to_string(), path: "a".to_string(), related_path: None },
        StatusRecord { status: "??".to_string(), path: "a".to_string(), related_path: None },
    ];
    let worktrees = vec![vec![], vec![]];
    assert_eq!(snapshot(&repeated, &[].to_vec(), &worktrees).unwrap_err(), "repository status repeats path \"a\"");
}

#[test]
fn provider_failures_are_explained() {
    assert_eq!(provider_output(&output("data", Some(0)), 4096).unwrap(), "data");
    assert_eq!(
        provider_output(&output("", Some(128)), 4096).unwrap_err(),
        "repository snapshot exited with Some(128): fatal: not a git repository"
    );
    let mut truncated = output("data", Some(0));
    truncated.stdout_truncated = true;
    assert_eq!(
        provider_output(&truncated, 4096).unwrap_err(),
        "repository snapshot exceeds outputLimitBytes (4096)"
    );
    let mut timed_out = output("", None);
    timed_out.timed_out = true;
    assert_eq!(provider_output(&timed_out, 1).unwrap_err(), "repository snapshot timed out");
    let mut missing = output("", None);
    missing.start_error = Some("No such file".to_string());
    assert_eq!(provider_output(&missing, 1).unwrap_err(), "cannot start repository provider: No such file");
}

#[test]
fn file_digests_are_sha256_of_the_contents() {
    let digest = workspace_validator::repository::file_digest(b"abc");
    let hex = digest.iter().map(|byte| format!("{byte:02x}")).collect::<String>();
    assert_eq!(hex, "ba7816bf8f01cfea414140de5dae2223b00361a396177a9cb410ff61f20015ad");
    assert_ne!(workspace_validator::repository::file_digest(b"abd"), digest);
}

#[test]
fn directory_listings_encode_paths_kinds_and_nesting() {
    let items = vec![
        DirectoryItem::DirectoryStart { path: "a".to_string() },
        DirectoryItem::File { path: "a/f".to_string(), digest: [7; 32], executable: true },
        DirectoryItem::DirectoryEnd,
        DirectoryItem::Symlink { path: "l".to_string(), target: "t".to_string() },
        DirectoryItem::Other { path: "o".to_string() },
    ];
    let mut expected = b"a\0directory\0a/f\0file\0".to_vec();
    expected.extend([7u8; 32]);
    expected.extend([1, 0, 0]);
    expected.extend(b"l\0symlink\0t\0o\0other\0\0");
    assert_eq!(directory_encoding(&items), expected);
    assert_eq!(directory_digest(&items), file_digest(&expected));
}

#[test]
fn directory_entries_are_sorted_without_git_metadata() {
    let names = vec!["b".to_string(), ".git".to_string(), "a".to_string(), "B".to_string()];
    assert_eq!(workspace_validator::repository::visible_entries(&names), ["B", "a", "b"]);
}
