use workspace_validator::config::directories::DirectoryProbe;
use workspace_validator::config::parameters::{expand, placeholder_names};
use workspace_validator::config::validation::{resolve_directories, validate, ParsedConfig, RootResolution, ValidatedConfig};
use workspace_validator::contracts::config::{
    CheckConfig, Config, GroupConfig, GroupMemberRef, ParameterValue, SuiteCheckConfig, SuiteConfig, ToolConfig,
    VersionParser,
};
use workspace_validator::error::ValidatorError;
use workspace_validator::planning;

const ROOT: &str = "/workspace";

fn text(value: &str) -> String {
    value.to_string()
}

fn texts(values: &[&str]) -> Vec<String> {
    values.iter().map(|value| value.to_string()).collect()
}

fn invocation(check_id: &str, depends_on: &[&str]) -> SuiteCheckConfig {
    SuiteCheckConfig { check_id: text(check_id), parameters: Vec::new(), depends_on: texts(depends_on) }
}

fn check(id: &str, args: &[&str]) -> CheckConfig {
    CheckConfig {
        id: text(id),
        label: text("Check"),
        description: text("Runs the check."),
        tool_id: text("fixture"),
        args: texts(args),
        requires_tools: Vec::new(),
        timeout_seconds: 5,
    }
}

fn suite(id: &str, directory: Option<&str>, checks: Vec<SuiteCheckConfig>) -> SuiteConfig {
    SuiteConfig {
        id: text(id),
        label: text(id),
        description: text("Suite."),
        working_directory: directory.map(text),
        checks,
    }
}

fn group(id: &str, members: Vec<GroupMemberRef>) -> GroupConfig {
    GroupConfig { id: text(id), label: text(id), description: text("Group."), members }
}

fn member_suite(id: &str) -> GroupMemberRef {
    GroupMemberRef::Suite { id: text(id) }
}

fn member_group(id: &str) -> GroupMemberRef {
    GroupMemberRef::Group { id: text(id) }
}

fn base_config(program: &str) -> Config {
    Config {
        schema: None,
        schema_version: 6,
        workspace_root: text("."),
        default_group: text("all"),
        output_limit_bytes: 4096,
        repository: None,
        tools: vec![ToolConfig {
            id: text("fixture"),
            program: text(program),
            requires_tools: Vec::new(),
            version_args: texts(&["--version"]),
            version_parser: VersionParser::FirstSemver,
            version_requirement: None,
        }],
        checks: vec![CheckConfig {
            id: text("fixture.check"),
            label: text("Fixture"),
            description: text("Runs the fixture."),
            tool_id: text("fixture"),
            args: texts(&["run"]),
            requires_tools: Vec::new(),
            timeout_seconds: 5,
        }],
        suites: vec![SuiteConfig {
            id: text("fixture"),
            label: text("Fixture"),
            description: text("All checks."),
            working_directory: None,
            checks: vec![invocation("fixture.check", &[])],
        }],
        groups: vec![GroupConfig {
            id: text("all"),
            label: text("All"),
            description: text("All validation."),
            members: vec![member_suite("fixture")],
        }],
    }
}

/// Validates a document whose directory is the workspace root; every
/// declared suite directory exists below it.
fn load(mut config: Config) -> Result<ValidatedConfig, ValidatorError> {
    for suite in &mut config.suites {
        for invocation in &mut suite.checks {
            invocation.parameters.sort_by(|a, b| a.0.cmp(&b.0));
        }
    }
    let checked = validate(
        ParsedConfig { config, path: format!("{ROOT}/config.json") },
        RootResolution::Directory(text(ROOT)),
    )?;
    let probes = checked
        .directory_requests()
        .into_iter()
        .map(|(_, declared)| DirectoryProbe::Resolved {
            absolute: if declared == "." { text(ROOT) } else { format!("{ROOT}/{declared}") },
            is_directory: true,
        })
        .collect::<Vec<_>>();
    resolve_directories(checked, &probes)
}

fn rejects(config: Config) -> bool {
    load(config).is_err()
}

#[test]
fn discovers_only_complete_valid_placeholders() {
    let arguments = texts(&["{target}", "--flag={target}", "{invalid name}", "{profile.name}"]);
    assert_eq!(placeholder_names(&arguments), texts(&["profile.name", "target"]));
}

#[test]
fn expands_single_multiple_repeated_and_absent_values_literally() {
    let arguments = texts(&["test", "{target}", "{missing}", "{target}", "{runner}"]);
    let parameters = vec![
        (text("runner"), ParameterValue::Multiple(texts(&["--", "{target}"]))),
        (text("target"), ParameterValue::Single(text("crate one"))),
    ];
    assert_eq!(expand(&arguments, &parameters), ["test", "crate one", "crate one", "--", "{target}"]);
}

#[test]
fn validates_distinct_groups_suites_order_levels_and_directories() {
    let mut value = base_config("rustc");
    value.default_group = text("root");
    value.suites = vec![
        suite("root.suite", None, vec![invocation("fixture.check", &[])]),
        suite("child.suite", Some("child"), vec![invocation("fixture.check", &[])]),
    ];
    value.groups = vec![
        group("shared", vec![member_suite("child.suite")]),
        group("branch", vec![member_suite("root.suite"), member_group("shared")]),
        group("root", vec![member_group("shared"), member_suite("root.suite"), member_group("branch")]),
    ];
    let loaded = load(value).unwrap();
    let plan = planning::target(&loaded, None).unwrap();
    assert_eq!(
        plan.suites().iter().find(|suite| suite.id() == "root.suite").unwrap().relative_working_directory(),
        "."
    );
    assert_eq!(
        plan.suites().iter().find(|suite| suite.id() == "child.suite").unwrap().relative_working_directory(),
        "child"
    );
    assert_eq!(plan.groups().iter().find(|group| group.id() == "root").unwrap().level(), 3);
    assert_eq!(plan.groups().iter().map(|group| group.id()).collect::<Vec<_>>(), ["root", "shared", "branch"]);
    assert_eq!(plan.suites().iter().map(|suite| suite.id()).collect::<Vec<_>>(), ["child.suite", "root.suite"]);
    assert_eq!(plan.check_executions().len(), 2);
}

#[test]
fn rejects_previous_schema_collisions_invalid_defaults_and_closed_shapes() {
    let mut previous = base_config("rustc");
    previous.schema_version = 5;
    assert!(rejects(previous));

    let mut collision = base_config("rustc");
    collision.groups[0].id = text("fixture");
    collision.default_group = text("fixture");
    assert!(rejects(collision));

    let mut suite_default = base_config("rustc");
    suite_default.default_group = text("fixture");
    assert!(rejects(suite_default));
}

#[test]
fn rejects_empty_repeated_missing_wrong_namespace_and_cyclic_groups() {
    let mut empty = base_config("rustc");
    empty.groups[0].members = Vec::new();
    assert!(rejects(empty));
    let mut empty = base_config("rustc");
    empty.suites[0].checks = Vec::new();
    assert!(rejects(empty));

    let mut repeated = base_config("rustc");
    repeated.groups[0].members = vec![member_suite("fixture"), member_suite("fixture")];
    assert!(rejects(repeated));

    let mut wrong_namespace = base_config("rustc");
    wrong_namespace.groups[0].members[0] = member_group("fixture");
    assert!(rejects(wrong_namespace));

    let mut missing = base_config("rustc");
    missing.groups[0].members[0] = member_suite("missing");
    assert!(rejects(missing));

    let mut cycle = base_config("rustc");
    cycle.groups = vec![group("all", vec![member_group("other")]), group("other", vec![member_group("all")])];
    assert!(rejects(cycle));
}

#[test]
fn rejects_missing_late_check_dependency_and_reserved_id() {
    let mut value = base_config("rustc");
    value.checks = vec![check("dependent", &[]), check("base", &[])];
    value.suites[0].checks = vec![invocation("dependent", &["base"]), invocation("base", &[])];
    assert!(rejects(value.clone()));
    value.checks[1].id = text("repository.integrity");
    value.suites[0].checks =
        vec![invocation("repository.integrity", &[]), invocation("dependent", &["repository.integrity"])];
    assert!(rejects(value));
}

#[test]
fn rejects_repeated_checks_and_invalid_suite_parameters() {
    let mut repeated = base_config("rustc");
    repeated.suites[0].checks = vec![invocation("fixture.check", &[]), invocation("fixture.check", &[])];
    assert!(rejects(repeated));

    let mut unknown_parameter = base_config("rustc");
    unknown_parameter.suites[0].checks[0].parameters =
        vec![(text("unknown"), ParameterValue::Single(text("value")))];
    assert!(rejects(unknown_parameter));

    let mut nul_parameter = base_config("rustc");
    nul_parameter.checks[0].args = texts(&["run", "{target}"]);
    nul_parameter.suites[0].checks[0].parameters =
        vec![(text("target"), ParameterValue::Multiple(texts(&["bad\0argument"])))];
    assert!(rejects(nul_parameter));

    let mut missing_dependency = base_config("rustc");
    missing_dependency.suites[0].checks[0].depends_on = texts(&["missing"]);
    assert!(rejects(missing_dependency));
}

#[test]
fn resolves_inferred_parameters_at_exact_argument_positions() {
    let mut value = base_config("rustc");
    value.checks[0].args =
        texts(&["run", "{single}", "middle", "{multiple}", "{absent}", "{single}", "--literal={single}"]);
    value.suites[0].checks[0].parameters = vec![
        (text("single"), ParameterValue::Single(text("one argument"))),
        (text("multiple"), ParameterValue::Multiple(texts(&["two", "{single}"]))),
    ];
    let validated = load(value).unwrap();
    let plan = planning::suite(&validated, "fixture").unwrap();
    assert_eq!(
        plan.suites()[0].checks()[0].arguments(),
        ["run", "one argument", "middle", "two", "{single}", "one argument", "--literal={single}"]
    );
}

#[test]
fn plans_each_group_and_suite_once_in_a_convergent_deep_dag() {
    let mut value = base_config("rustc");
    value.default_group = text("root");
    let depth = 32;
    let mut groups = Vec::new();
    for level in (0..depth).rev() {
        let members = if level + 1 == depth {
            vec![member_suite("fixture")]
        } else {
            vec![member_group(&format!("layer{}.a", level + 1)), member_group(&format!("layer{}.b", level + 1))]
        };
        groups.push(group(&format!("layer{level}.a"), members.clone()));
        groups.push(group(&format!("layer{level}.b"), members));
    }
    groups.push(group("root", vec![member_group("layer0.a"), member_group("layer0.b")]));
    value.groups = groups;
    let validated = load(value).unwrap();
    let plan = planning::target(&validated, None).unwrap();
    assert_eq!(plan.groups().len(), 2 * depth + 1);
    assert_eq!(plan.suites().len(), 1);
    assert_eq!(plan.check_executions().len(), 1);
}

#[test]
fn rejects_a_suite_directory_outside_the_workspace() {
    let mut value = base_config("rustc");
    value.suites[0].working_directory = Some(text("child"));
    let checked = validate(
        ParsedConfig { config: value, path: format!("{ROOT}/config.json") },
        RootResolution::Directory(text(ROOT)),
    )
    .unwrap();
    let probes = vec![DirectoryProbe::Resolved { absolute: text("/elsewhere"), is_directory: true }];
    assert!(resolve_directories(checked, &probes).is_err());
}

#[test]
fn unknown_targets_are_reported_by_name() {
    let validated = load(base_config("rustc")).unwrap();
    let error = planning::target(&validated, Some("nothing")).unwrap_err();
    assert_eq!(error.message(), "group or suite nothing does not exist");
    let error = planning::check(&validated, "nothing").unwrap_err();
    assert_eq!(error.message(), "check nothing does not exist");
}

#[test]
fn unsupported_schema_version_is_named_in_the_diagnostic() {
    let mut value = base_config("rustc");
    value.schema_version = 5;
    let error = load(value).unwrap_err();
    assert!(error.message().contains("unsupported schemaVersion 5"));
}
