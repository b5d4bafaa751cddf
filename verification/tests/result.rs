use workspace_validator::contracts::config::GroupMemberRef;
use workspace_validator::contracts::report::{
    CheckContext, CheckExecutionResult, GroupResult, Status, SuiteResult, Summary, ToolResult, ValidationReport,
    ValidationSelection, REPORT_SCHEMA_VERSION,
};
use workspace_validator::reporting::result::{render, Segment};
use workspace_validator::reporting::theme::{PaletteProfile, PresentationProfile, Theme};

/// Writes rendered lines as an unstyled terminal would show them.
fn plain(lines: &[Vec<Segment>]) -> String {
    let mut out = String::new();
    for line in lines {
        for segment in line {
            match segment {
                Segment::Text(text) | Segment::Painted(_, text) => out.push_str(text),
                Segment::Duration(ms) => out.push_str(&format!("{ms} ms")),
            }
        }
        out.push('\n');
    }
    out
}

fn group(id: &str, members: Vec<GroupMemberRef>, passing: &Summary) -> GroupResult {
    GroupResult {
        id: id.into(),
        label: id.into(),
        description: format!("{id} group"),
        level: usize::from(id == "root") + 1,
        check_duration_ms: 25,
        summary: passing.clone(),
        members,
    }
}

fn fixture_report() -> ValidationReport {
    let passing = Summary::from_statuses(&[Status::Pass]);
    ValidationReport {
        schema_version: REPORT_SCHEMA_VERSION,
        selection: ValidationSelection::Group { id: "root".into() },
        workspace_root: ".".into(),
        started_at_unix_ms: 1,
        duration_ms: 25,
        tools: vec![ToolResult {
            id: "tool".into(),
            program: "tool".into(),
            argv: vec!["--version".into()],
            status: Status::Pass,
            version: Some("1.0.0".into()),
            reason: None,
        }],
        groups: vec![
            group(
                "root",
                vec![GroupMemberRef::Group { id: "left".into() }, GroupMemberRef::Group { id: "right".into() }],
                &passing,
            ),
            group("left", vec![GroupMemberRef::Suite { id: "shared".into() }], &passing),
            group("right", vec![GroupMemberRef::Suite { id: "shared".into() }], &passing),
        ],
        suites: vec![SuiteResult {
            id: "shared".into(),
            label: "Shared".into(),
            description: "Shared suite".into(),
            working_directory: ".".into(),
            check_duration_ms: 25,
            summary: passing.clone(),
            check_ids: vec!["shared.check".into()],
        }],
        checks: vec![CheckExecutionResult {
            check_id: "shared.check".into(),
            context: CheckContext::Suite { suite_id: "shared".into() },
            label: "Shared check".into(),
            description: "Shared check".into(),
            argv: vec!["tool".into()],
            status: Status::Pass,
            exit_code: Some(0),
            duration_ms: 25,
            timeout_seconds: 30,
            timed_out: false,
            stdout_truncated: false,
            stderr_truncated: false,
            stdout: String::new(),
            stderr: String::new(),
            reason: None,
        }],
        repository: None,
        summary: passing,
    }
}

fn is_tree_gap(line: &&str) -> bool {
    line.chars().all(|character| matches!(character, '│' | ' '))
}

#[test]
fn completed_tree_marks_shared_suites_and_counts_only_checks() {
    let report = fixture_report();
    let rendered = plain(&render(&report, &Theme::plain()));
    assert!(rendered.starts_with("╭─ Workspace Validator · Result"));
    assert_eq!(rendered.matches("SUITE PASS  shared").count(), 2);
    assert_eq!(rendered.matches("(shared)").count(), 1);
    assert!(rendered.contains("Counted: 1 checks + 0 repository gate"));
    assert!(rendered.contains("╰─ Validation complete"));
    for tree_line in [
        "│ GROUP PASS  root",
        "│ ├─ GROUP PASS  left",
        "│ │  └─ SUITE PASS  shared",
        "│ │     └─ CHECK PASS  shared.check",
        "│ └─ GROUP PASS  right",
        "│    └─ SUITE PASS  shared",
    ] {
        assert!(rendered.contains(tree_line), "missing tree line: {tree_line}");
    }

    let mut failed = report.clone();
    failed.checks[0].status = Status::Fail;
    failed.checks[0].reason = Some("command failed".into());
    failed.checks[0].stderr = "diagnostic stderr\nsecond stderr line\n".into();
    failed.checks[0].stdout = "diagnostic stdout\n\nlast stdout line\n".into();
    for palette in [
        PaletteProfile::Plain,
        PaletteProfile::Standard,
        PaletteProfile::HighContrast,
        PaletteProfile::Protanopia,
        PaletteProfile::Deuteranopia,
        PaletteProfile::Tritanopia,
        PaletteProfile::Achromatopsia,
    ] {
        for presentation in [PresentationProfile::Standard, PresentationProfile::LowVision] {
            let stripped = plain(&render(&failed, &Theme::resolve(palette, presentation)));
            for diagnostic in [
                "FAIL",
                "Reason: command failed",
                "stderr:\n│       │ diagnostic stderr\n│       │ second stderr line",
                "stdout:\n│       │ diagnostic stdout\n│       │\n│       │ last stdout line",
            ] {
                assert!(stripped.contains(diagnostic), "{palette:?} + {presentation:?}: {stripped}");
            }
        }
    }

    let regular = plain(&render(&report, &Theme::plain()));
    let low_vision = plain(&render(&report, &Theme::resolve(PaletteProfile::Plain, PresentationProfile::LowVision)));
    assert_eq!(low_vision.lines().count(), regular.lines().count() + 26);
    let regular_without_gaps = regular.lines().filter(|line| !is_tree_gap(line)).collect::<Vec<_>>();
    let low_vision_without_gaps = low_vision.lines().filter(|line| !is_tree_gap(line)).collect::<Vec<_>>();
    assert_eq!(low_vision_without_gaps, regular_without_gaps, "presentation spacing must not change result content");

    let lines = low_vision.lines().collect::<Vec<_>>();
    for heading in ["Workspace Validator · Result", "Tools", "Execution tree", "Counted outcomes"] {
        let heading_index = lines.iter().position(|line| line.contains(heading)).expect("result heading");
        assert_eq!(&lines[heading_index + 1..heading_index + 3], &["│", "│"]);
        assert_ne!(lines[heading_index + 3], "│");
    }
    for heading in ["Tools", "Execution tree", "Counted outcomes"] {
        let heading_index = lines.iter().position(|line| line.contains(heading)).expect("result section heading");
        assert_eq!(&lines[heading_index - 2..heading_index], &["│", "│"]);
        assert_ne!(lines[heading_index - 3], "│");
    }
    let footer_index = lines.iter().position(|line| line.contains("Validation complete")).expect("result footer");
    assert_eq!(&lines[footer_index - 2..footer_index], &["│", "│"]);
    assert_ne!(lines[footer_index - 3], "│");

    for (node, expected_gap) in [
        ("│ ├─ GROUP PASS  left", "│ │"),
        ("│ │  └─ SUITE PASS  shared", "│ │  │"),
        ("│ │     └─ CHECK PASS  shared.check", "│ │     │"),
        ("│ └─ GROUP PASS  right", "│ │"),
        ("│    └─ SUITE PASS  shared", "│    │"),
    ] {
        let node_index = lines.iter().position(|line| line.contains(node)).expect("result tree node");
        assert_eq!(lines[node_index - 1], expected_gap);
    }
}

#[test]
fn suite_selection_renders_the_suite_and_its_checks() {
    let mut report = fixture_report();
    report.selection = ValidationSelection::Suite { id: "shared".into() };
    let rendered = plain(&render(&report, &Theme::plain()));
    assert!(rendered.contains("│ SUITE PASS  shared  25 ms  [.]\n│ └─ CHECK PASS  shared.check  25 ms\n"));
    assert!(rendered.contains("│ Selection: suite shared\n│ Result: Pass\n│ Duration: 25 ms\n"));
    assert!(rendered.contains("│ TOOL  PASS  tool (1.0.0)\n"));
}

#[test]
fn palettes_render_the_same_segments() {
    let report = fixture_report();
    for presentation in [PresentationProfile::Standard, PresentationProfile::LowVision] {
        let reference = format!("{:?}", render(&report, &Theme::resolve(PaletteProfile::Plain, presentation)));
        for palette in [
            PaletteProfile::Standard,
            PaletteProfile::HighContrast,
            PaletteProfile::Protanopia,
            PaletteProfile::Deuteranopia,
            PaletteProfile::Tritanopia,
            PaletteProfile::Achromatopsia,
        ] {
            assert_eq!(format!("{:?}", render(&report, &Theme::resolve(palette, presentation))), reference);
        }
    }
}
