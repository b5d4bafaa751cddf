use workspace_validator::cli::{
    color_value_without_equals, palette_argument, presentation_argument, presentation_value_without_equals,
    styling_conflict, theme_for,
};
use workspace_validator::config::directories::DirectoryProbe;
use workspace_validator::config::validation::{resolve_directories, validate, ParsedConfig, RootResolution, ValidatedConfig};
use workspace_validator::contracts::config::{
    CheckConfig, Config, GroupConfig, GroupMemberRef, ParameterValue, SuiteCheckConfig, SuiteConfig, ToolConfig,
    VersionParser,
};
use workspace_validator::error::ValidatorError;
use workspace_validator::inspection::{
    command, commands_and_tools, config_validate, distinct_directories, explain_check, explain_group, explain_suite,
    hierarchy, list, membership_paths, parents, tree_indent,
};
use workspace_validator::planning;
use workspace_validator::reporting::theme::{PaletteProfile, PresentationProfile};

const ROOT: &str = "/workspace";

fn text(value: &str) -> String {
    value.to_string()
}

fn texts(values: &[&str]) -> Vec<String> {
    values.iter().map(|value| value.to_string()).collect()
}

fn invocation(check_id: &str, depends_on: &[&str]) -> SuiteCheckConfig {
    SuiteCheckConfig { check_id: text(check_id), parameters: Vec::new(), depends_on: texts(depends_on) }
}

fn check(id: &str, args: &[&str]) -> CheckConfig {
    CheckConfig {
        id: text(id),
        label: text("Check"),
        description: text("Runs the check."),
        tool_id: text("fixture"),
        args: texts(args),
        requires_tools: Vec::new(),
        timeout_seconds: 5,
    }
}

fn suite(id: &str, directory: Option<&str>, checks: Vec<SuiteCheckConfig>) -> SuiteConfig {
    SuiteConfig {
        id: text(id),
        label: text(id),
        description: text("Suite."),
        working_directory: directory.map(text),
        checks,
    }
}

fn group(id: &str, members: Vec<GroupMemberRef>) -> GroupConfig {
    GroupConfig { id: text(id), label: text(id), description: text("Group."), members }
}

fn member_suite(id: &str) -> GroupMemberRef {
    GroupMemberRef::Suite { id: text(id) }
}

fn member_group(id: &str) -> GroupMemberRef {
    GroupMemberRef::Group { id: text(id) }
}

fn base_config(program: &str) -> Config {
    Config {
        schema: None,
        schema_version: 6,
        workspace_root: text("."),
        default_group: text("all"),
        output_limit_bytes: 4096,
        repository: None,
        tools: vec![ToolConfig {
            id: text("fixture"),
            program: text(program),
            requires_tools: Vec::new(),
            version_args: texts(&["--version"]),
            version_parser: VersionParser::FirstSemver,
            version_requirement: None,
        }],
        checks: vec![CheckConfig {
            id: text("fixture.check"),
            label: text("Fixture"),
            description: text("Runs the fixture."),
            tool_id: text("fixture"),
            args: texts(&["run"]),
            requires_tools: Vec::new(),
            timeout_seconds: 5,
        }],
        suites: vec![SuiteConfig {
            id: text("fixture"),
            label: text("Fixture"),
            description: text("All checks."),
            working_directory: None,
            checks: vec![invocation("fixture.check", &[])],
        }],
        groups: vec![GroupConfig {
            id: text("all"),
            label: text("All"),
            description: text("All validation."),
            members: vec![member_suite("fixture")],
        }],
    }
}

/// Validates a document whose directory is the workspace root; every
/// declared suite directory exists below it.
fn load(mut config: Config) -> Result<ValidatedConfig, ValidatorError> {
    for suite in &mut config.suites {
        for invocation in &mut suite.checks {
            invocation.parameters.sort_by(|a, b| a.0.cmp(&b.0));
        }
    }
    let checked = validate(
        ParsedConfig { config, path: format!("{ROOT}/config.json") },
        RootResolution::Directory(text(ROOT)),
    )?;
    let probes = checked
        .directory_requests()
        .into_iter()
        .map(|(_, declared)| DirectoryProbe::Resolved {
            absolute: if declared == "." { text(ROOT) } else { format!("{ROOT}/{declared}") },
            is_directory: true,
        })
        .collect::<Vec<_>>();
    resolve_directories(checked, &probes)
}


fn nested() -> ValidatedConfig {
    let mut value = base_config("rustc");
    value.default_group = text("root");
    value.suites = vec![
        suite("root.suite", None, vec![invocation("fixture.check", &[])]),
        suite("child.suite", Some("child"), vec![invocation("fixture.check", &[])]),
    ];
    value.groups = vec![
        group("shared", vec![member_suite("child.suite")]),
        group("branch", vec![member_suite("root.suite"), member_group("shared")]),
        group("root", vec![member_group("shared"), member_suite("root.suite"), member_group("branch")]),
    ];
    load(value).unwrap()
}

#[test]
fn commands_quote_every_word() {
    assert_eq!(command("cargo", &texts(&["test", "a b"])), "\"cargo\" \"test\" \"a b\"");
    assert_eq!(tree_indent(2), "    ");
    assert_eq!(tree_indent(34), format!("{}...(+2) ", "  ".repeat(32)));
}

#[test]
fn membership_paths_list_every_chain_from_a_root() {
    let validated = nested();
    assert_eq!(parents(&validated.checked, false, "child.suite"), ["shared"]);
    assert_eq!(parents(&validated.checked, true, "shared"), ["branch", "root"]);
    assert_eq!(
        membership_paths(&validated.checked, false, "child.suite"),
        [
            "  GROUP root -> GROUP branch -> GROUP shared -> SUITE child.suite",
            "  GROUP root -> GROUP shared -> SUITE child.suite",
        ]
    );
    assert_eq!(membership_paths(&validated.checked, true, "root"), ["  GROUP root"]);
}

#[test]
fn the_hierarchy_marks_shared_nodes() {
    let validated = nested();
    let plan = planning::group(&validated, "root").unwrap();
    assert_eq!(
        hierarchy(&plan, true, "root"),
        [
            "GROUP N3 root",
            "  GROUP N1 shared",
            "    SUITE child.suite [child]",
            "      CHECK fixture.check",
            "  SUITE root.suite [.]",
            "    CHECK fixture.check",
            "  GROUP N2 branch",
            "    SUITE root.suite [.] (shared)",
            "    GROUP N1 shared (shared)",
        ]
    );
}

#[test]
fn explaining_a_check_lists_each_suite_that_runs_it() {
    let validated = nested();
    let lines = explain_check(&validated, "fixture.check").unwrap();
    assert_eq!(lines[0], "CHECK fixture.check - Fixture");
    assert_eq!(lines[3], "Argument template: \"rustc\" \"run\"");
    assert_eq!(lines[5], "Direct directory: .");
    assert_eq!(lines[6], "Timeout: 5 s");
    assert!(lines.contains(&"  child.suite @ child: \"rustc\" \"run\"".to_string()));
    assert_eq!(explain_check(&validated, "nothing").unwrap_err(), "check nothing does not exist");
}

#[test]
fn commands_and_tools_follow_the_plan() {
    let validated = nested();
    let plan = planning::suite(&validated, "child.suite").unwrap();
    assert_eq!(
        commands_and_tools(&validated, &plan),
        ["Commands:", "  child.suite / fixture.check @ child: \"rustc\" \"run\"", "Required tools:", "  fixture: rustc"]
    );
    assert_eq!(distinct_directories(&validated), 2);
}

#[test]
fn visual_usage_rejects_ambiguous_unknown_and_json_combinations() {
    let arguments = |values: &[&str]| values.iter().map(|value| Some(value.to_string())).collect::<Vec<_>>();
    assert!(color_value_without_equals(&arguments(&["validate", "--color", "protanopia"])));
    assert!(!color_value_without_equals(&arguments(&["validate", "--color", "root"])));
    assert!(!color_value_without_equals(&arguments(&["validate", "--color=protanopia"])));
    assert!(presentation_value_without_equals(&arguments(&["validate", "--presentation", "LOW-VISION"])));
    assert!(!presentation_value_without_equals(&vec![Some("--presentation".to_string()), None]));
    assert_eq!(palette_argument("High-Contrast"), Some(PaletteProfile::HighContrast));
    assert_eq!(palette_argument("plain"), None);
    assert_eq!(presentation_argument("low-vision"), Some(PresentationProfile::LowVision));
    match styling_conflict(true, true, false) {
        Some(ValidatorError::Usage(detail)) => {
            assert_eq!(detail, "--color and --presentation cannot be combined with --format=json")
        },
        _ => panic!("json output with a palette is a usage error"),
    }
    assert!(styling_conflict(false, true, true).is_none());
    assert_eq!(theme_for(None, None).palette_profile(), PaletteProfile::Plain);
    assert_eq!(theme_for(Some(PaletteProfile::Standard), None).presentation_profile(), PresentationProfile::Standard);
}

#[test]
fn explain_suite_reports_membership_context_commands_and_tools() {
    let mut value = base_config("definitely-missing");
    value.default_group = text("root");
    value.checks[0].args = texts(&["run", "{context}"]);
    value.suites = vec![SuiteConfig {
        id: text("shared"),
        label: text("Shared"),
        description: text("Shared suite."),
        working_directory: Some(text("nested")),
        checks: vec![SuiteCheckConfig {
            check_id: text("fixture.check"),
            parameters: vec![(text("context"), ParameterValue::Single(text("--context")))],
            depends_on: Vec::new(),
        }],
    }];
    value.groups = vec![
        GroupConfig {
            id: text("branch.a"),
            label: text("Branch A"),
            description: text("First branch."),
            members: vec![member_suite("shared")],
        },
        GroupConfig {
            id: text("branch.b"),
            label: text("Branch B"),
            description: text("Second branch."),
            members: vec![member_suite("shared")],
        },
        GroupConfig {
            id: text("root"),
            label: text("Root"),
            description: text("Root group."),
            members: vec![member_group("branch.a"), member_group("branch.b")],
        },
    ];
    let validated = load(value).unwrap();
    let plan = planning::suite(&validated, "shared").unwrap();
    let lines = explain_suite(&validated, &plan, "shared", &texts(&["{\"context\":\"--context\"}"])).unwrap();
    let stdout = lines.join("\n");
    for expected in [
        "SUITE shared",
        "Effective directory: nested",
        "GROUP root -> GROUP branch.a -> SUITE shared",
        "GROUP root -> GROUP branch.b -> SUITE shared",
        "shared / fixture.check @ nested",
        "\"run\" \"--context\"",
        "Required tools:",
        "fixture: definitely-missing",
    ] {
        assert!(stdout.contains(expected), "missing {expected:?} in:\n{stdout}");
    }
    assert!(!stdout.contains("Paths: Some"));
    assert_eq!(lines[0], "SUITE shared - Shared");
    assert_eq!(lines[2], "Declared directory: nested");
    assert_eq!(lines[5], "  fixture.check");
    assert_eq!(lines[6], "    Parameters: {\"context\":\"--context\"}");
    assert!(explain_suite(&validated, &plan, "missing", &Vec::new()).is_none());
}

#[test]
fn explaining_a_suite_lists_dependencies_in_debug_notation() {
    let mut value = base_config("rustc");
    value.checks.push(check("second.check", &["second"]));
    value.suites[0].checks.push(invocation("second.check", &["fixture.check"]));
    let validated = load(value).unwrap();
    let plan = planning::suite(&validated, "fixture").unwrap();
    let lines = explain_suite(&validated, &plan, "fixture", &texts(&["", ""])).unwrap();
    assert_eq!(
        lines[..8],
        [
            "SUITE fixture - Fixture",
            "All checks.",
            "Declared directory: <workspace root>",
            "Effective directory: .",
            "Checks:",
            "  fixture.check",
            "  second.check",
            "    Depends on: [\"fixture.check\"]",
        ]
    );
}

#[test]
fn explaining_a_group_shows_members_paths_hierarchy_and_commands() {
    let validated = nested();
    let plan = planning::group(&validated, "branch").unwrap();
    let lines = explain_group(&validated, &plan, "branch").unwrap();
    assert_eq!(
        lines,
        [
            "GROUP branch - branch",
            "Group.",
            "Level: 2",
            "Members:",
            "  SUITE root.suite",
            "  GROUP shared",
            "Membership paths:",
            "  GROUP root -> GROUP branch",
            "Reachable hierarchy:",
            "GROUP N2 branch",
            "  SUITE root.suite [.]",
            "    CHECK fixture.check",
            "  GROUP N1 shared",
            "    SUITE child.suite [child]",
            "      CHECK fixture.check",
            "Commands:",
            "  root.suite / fixture.check @ .: \"rustc\" \"run\"",
            "  child.suite / fixture.check @ child: \"rustc\" \"run\"",
            "Required tools:",
            "  fixture: rustc",
        ]
    );
    assert!(explain_group(&validated, &plan, "root").is_none());
}

#[test]
fn listing_and_summary_describe_the_configuration_in_identifier_order() {
    let validated = nested();
    assert_eq!(
        config_validate(&validated),
        [
            "Configuration: /workspace/config.json",
            "workspaceRoot: /workspace",
            "Tools: 1",
            "Checks: 1",
            "Suites: 2",
            "Groups: 3",
            "Suite directories: 2",
            "Default group: root",
        ]
    );
    let levels = planning::group_levels(&validated.checked);
    let plan = planning::group(&validated, "root").unwrap();
    let lines = list(&validated, &levels, Some(&plan));
    assert_eq!(
        lines[..10],
        [
            "Default group: root",
            "Groups:",
            "  GROUP N2 branch - branch",
            "  GROUP N3 root - root",
            "  GROUP N1 shared - shared",
            "Suites:",
            "  SUITE child.suite - child.suite [child]",
            "  SUITE root.suite - root.suite [.]",
            "Tree:",
            "GROUP N3 root",
        ]
    );
    assert_eq!(lines[lines.len() - 4..], ["Checks:", "  CHECK fixture.check - Fixture", "Tools:", "  TOOL fixture - rustc"]);
    let short = list(&validated, &levels, None);
    assert_eq!(short.len(), lines.len() - 10);
    assert!(!short.contains(&"Tree:".to_string()));
}
