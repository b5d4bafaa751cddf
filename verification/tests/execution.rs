use workspace_validator::config::directories::DirectoryProbe;
use workspace_validator::config::validation::{resolve_directories, validate, ParsedConfig, RootResolution, ValidatedConfig};
use workspace_validator::contracts::config::{
    CheckConfig, Config, GroupConfig, GroupMemberRef, RepositoryConfig, RepositoryProvider, SuiteCheckConfig,
    SuiteConfig, ToolConfig, VersionParser,
};
use workspace_validator::contracts::report::{OverallResult, Status, Summary, ValidationReport};
use workspace_validator::error::ValidatorError;
use workspace_validator::execution::outcome::{
    final_report, prerequisite_status, repository_ready, repository_report, snapshot_status, RunOutcome,
};
use workspace_validator::execution::prerequisites::{first_semver, Preflight, PreflightStep};
use workspace_validator::execution::progress::{ProgressReporter, SilentProgress};
use workspace_validator::execution::run::{event_subject, publish_event, EventSubject, Execution, ExecutionStep};
use workspace_validator::contracts::config::ParameterValue;
use workspace_validator::contracts::report::{CheckContext, CheckExecutionResult, GroupResult, SuiteResult};
use workspace_validator::planning::{ExecutionNodeRef, PlannedGroup, PlannedSuite};
use workspace_validator::execution::ProcessOutput;
use workspace_validator::planning::{self, ValidationPlan};
use workspace_validator::cli::run_exit_code;

const ROOT: &str = "/workspace";

fn text(value: &str) -> String {
    value.to_string()
}

fn texts(values: &[&str]) -> Vec<String> {
    values.iter().map(|value| value.to_string()).collect()
}

fn invocation(check_id: &str, depends_on: &[&str]) -> SuiteCheckConfig {
    SuiteCheckConfig { check_id: text(check_id), parameters: Vec::new(), depends_on: texts(depends_on) }
}

fn check(id: &str, args: &[&str]) -> CheckConfig {
    CheckConfig {
        id: text(id),
        label: text("Check"),
        description: text("Runs the check."),
        tool_id: text("fixture"),
        args: texts(args),
        requires_tools: Vec::new(),
        timeout_seconds: 5,
    }
}

fn suite(id: &str, directory: Option<&str>, checks: Vec<SuiteCheckConfig>) -> SuiteConfig {
    SuiteConfig {
        id: text(id),
        label: text(id),
        description: text("Suite."),
        working_directory: directory.map(text),
        checks,
    }
}

fn group(id: &str, members: Vec<GroupMemberRef>) -> GroupConfig {
    GroupConfig { id: text(id), label: text(id), description: text("Group."), members }
}

fn member_suite(id: &str) -> GroupMemberRef {
    GroupMemberRef::Suite { id: text(id) }
}

fn member_group(id: &str) -> GroupMemberRef {
    GroupMemberRef::Group { id: text(id) }
}

fn base_config(program: &str) -> Config {
    Config {
        schema: None,
        schema_version: 6,
        workspace_root: text("."),
        default_group: text("all"),
        output_limit_bytes: 4096,
        repository: None,
        tools: vec![ToolConfig {
            id: text("fixture"),
            program: text(program),
            requires_tools: Vec::new(),
            version_args: texts(&["--version"]),
            version_parser: VersionParser::FirstSemver,
            version_requirement: None,
        }],
        checks: vec![CheckConfig {
            id: text("fixture.check"),
            label: text("Fixture"),
            description: text("Runs the fixture."),
            tool_id: text("fixture"),
            args: texts(&["run"]),
            requires_tools: Vec::new(),
            timeout_seconds: 5,
        }],
        suites: vec![SuiteConfig {
            id: text("fixture"),
            label: text("Fixture"),
            description: text("All checks."),
            working_directory: None,
            checks: vec![invocation("fixture.check", &[])],
        }],
        groups: vec![GroupConfig {
            id: text("all"),
            label: text("All"),
            description: text("All validation."),
            members: vec![member_suite("fixture")],
        }],
    }
}

/// Validates a document whose directory is the workspace root; every
/// declared suite directory exists below it.
fn load(mut config: Config) -> Result<ValidatedConfig, ValidatorError> {
    for suite in &mut config.suites {
        for invocation in &mut suite.checks {
            invocation.parameters.sort_by(|a, b| a.0.cmp(&b.0));
        }
    }
    let checked = validate(
        ParsedConfig { config, path: format!("{ROOT}/config.json") },
        RootResolution::Directory(text(ROOT)),
    )?;
    let probes = checked
        .directory_requests()
        .into_iter()
        .map(|(_, declared)| DirectoryProbe::Resolved {
            absolute: if declared == "." { text(ROOT) } else { format!("{ROOT}/{declared}") },
            is_directory: true,
        })
        .collect::<Vec<_>>();
    resolve_directories(checked, &probes)
}


fn process(stdout: &str, exit_code: i32) -> ProcessOutput {
    ProcessOutput {
        exit_code: Some(exit_code),
        duration_ms: 7,
        timed_out: false,
        interrupted: false,
        stdout: stdout.to_string(),
        stderr: String::new(),
        stdout_truncated: false,
        stderr_truncated: false,
        start_error: None,
    }
}

/// Runs a plan the way the command line does, answering every version
/// command with `version_output` and every check command with `exit`.
fn simulate(validated: &ValidatedConfig, plan: &ValidationPlan, version_output: &str, exit: impl Fn(&str) -> i32) -> ValidationReport {
    simulate_with(validated, plan, version_output, exit, &mut SilentProgress, &mut Vec::new())
}

/// Like `simulate`, publishing every event to `progress` and noting the
/// arguments and directory of every check command in `runs`.
fn simulate_with(
    validated: &ValidatedConfig,
    plan: &ValidationPlan,
    version_output: &str,
    exit: impl Fn(&str) -> i32,
    progress: &mut impl ProgressReporter,
    runs: &mut Vec<(String, String)>,
) -> ValidationReport {
    let check_ids: Vec<String> = plan.check_executions().iter().map(|execution| execution.check_id().to_string()).collect();
    let mut preflight = Preflight::new(validated, &check_ids);
    let mut output = None;
    loop {
        match preflight.step(validated, output.take()) {
            PreflightStep::Continue => {},
            PreflightStep::Run(_) => output = Some(process(version_output, 0)),
            PreflightStep::Finished => break,
        }
    }
    let mut execution = Execution::new(validated, plan);
    let mut output = None;
    let mut published = 0;
    loop {
        let step = execution.step(validated, plan, &preflight.statuses, false, output.take());
        while published < execution.events.len() {
            publish_event(progress, validated, plan, &execution, &execution.events[published]);
            published += 1;
        }
        match step {
            ExecutionStep::Continue => {},
            ExecutionStep::Run(request) => {
                let args = request.args.join(" ");
                runs.push((args.clone(), request.cwd.clone()));
                output = Some(process("", exit(&args)));
            },
            ExecutionStep::Finished => break,
        }
    }
    let report = final_report(plan, execution, preflight.results, None, 1, 2);
    progress.validation_finished(report.summary.result);
    report
}

#[derive(Default)]
struct Recorder(Vec<String>);

impl ProgressReporter for Recorder {
    fn group_started(&mut self, _: &[ExecutionNodeRef], group: &PlannedGroup, _: usize) {
        self.0.push(format!("group-start:{}", group.id()));
    }
    fn group_reused(&mut self, _: &[ExecutionNodeRef], group: &PlannedGroup, _: &GroupResult) {
        self.0.push(format!("group-reuse:{}", group.id()));
    }
    fn suite_started(&mut self, _: &[ExecutionNodeRef], suite: &PlannedSuite, _: usize) {
        self.0.push(format!("start:{}", suite.id()));
    }
    fn suite_reused(&mut self, _: &[ExecutionNodeRef], suite: &PlannedSuite, _: &SuiteResult) {
        self.0.push(format!("reuse:{}", suite.id()));
    }
    fn check_finished(&mut self, _: &[ExecutionNodeRef], _: usize, _: usize, result: &CheckExecutionResult) {
        self.0.push(format!("check:{}", result.check_id));
    }
    fn suite_finished(&mut self, _: &[ExecutionNodeRef], suite: &PlannedSuite, _: &SuiteResult) {
        self.0.push(format!("finish:{}", suite.id()));
    }
    fn validation_finished(&mut self, _: OverallResult) {
        self.0.push("finished".into());
    }
}

fn with_context(mut invocation: SuiteCheckConfig, context: &str) -> SuiteCheckConfig {
    invocation.parameters = vec![(text("context"), ParameterValue::Single(text(context)))];
    invocation
}

#[test]
fn memoizes_groups_and_suites_but_executes_checks_per_suite_context() {
    let mut value = base_config("rustc");
    value.default_group = text("root");
    value.checks = vec![check("same", &["record-context", "same", "{context}"]), check("shared", &["record-context", "shared", "{context}"])];
    value.suites = vec![
        suite("shared.suite", Some("."), vec![with_context(invocation("shared", &[]), "shared-context")]),
        suite("suite.one", Some("one"), vec![with_context(invocation("same", &[]), "one-context")]),
        suite("suite.two", Some("two"), vec![with_context(invocation("same", &[]), "two-context")]),
    ];
    value.groups = vec![
        group("shared.group", vec![member_suite("shared.suite")]),
        group("branch.one", vec![member_group("shared.group"), member_suite("suite.one")]),
        group("branch.two", vec![member_group("shared.group"), member_suite("shared.suite"), member_suite("suite.two")]),
        group("root", vec![member_group("branch.one"), member_group("branch.two")]),
    ];
    let validated = load(value).unwrap();
    let plan = planning::target(&validated, None).unwrap();
    let mut recorder = Recorder::default();
    let mut runs = Vec::new();
    let report = simulate_with(&validated, &plan, "rustc 1.87.0", |_| 0, &mut recorder, &mut runs);
    assert_eq!(report.checks.len(), 3);
    assert!(report.checks.iter().all(|v| v.status == Status::Pass));
    let same = report.checks.iter().filter(|v| v.check_id == "same").collect::<Vec<_>>();
    assert_eq!(same.len(), 2);
    let suite_one = same
        .iter()
        .find(|v| matches!(&v.context, CheckContext::Suite { suite_id } if suite_id == "suite.one"))
        .unwrap();
    assert_eq!(suite_one.argv.last().map(String::as_str), Some("one-context"));
    assert_eq!(runs.len(), 3);
    assert!(runs.contains(&(text("record-context same one-context"), format!("{ROOT}/one"))));
    assert!(runs.contains(&(text("record-context same two-context"), format!("{ROOT}/two"))));
    assert_eq!(report.suites.iter().filter(|v| v.id == "shared.suite").count(), 1);
    assert_eq!(recorder.0.iter().filter(|v| *v == "start:shared.suite").count(), 1);
    assert_eq!(recorder.0.iter().filter(|value| *value == "group-reuse:shared.group").count(), 1);
    assert_eq!(recorder.0.iter().filter(|v| *v == "reuse:shared.suite").count(), 1);
    assert_eq!(recorder.0.iter().filter(|v| v.starts_with("check:")).count(), 3);
    assert_eq!(recorder.0.last().map(String::as_str), Some("finished"));
    let suite_starts = recorder.0.iter().filter(|event| event.starts_with("start:")).map(String::as_str).collect::<Vec<_>>();
    assert_eq!(suite_starts, ["start:shared.suite", "start:suite.one", "start:suite.two"]);
    let finishes = recorder.0.iter().filter(|event| event.starts_with("finish:")).count();
    assert_eq!(finishes, 3);
}

#[test]
fn a_finished_group_run_holds_every_planned_result() {
    let mut value = base_config("rustc");
    value.default_group = text("root");
    value.checks = vec![check("same", &["same"])];
    value.suites = vec![suite("suite.one", Some("one"), vec![invocation("same", &[])]), suite("suite.two", Some("two"), vec![invocation("same", &[])])];
    value.groups = vec![
        group("inner", vec![member_suite("suite.one")]),
        group("branch", vec![member_group("inner"), member_suite("suite.two")]),
        group("root", vec![member_group("inner"), member_group("branch")]),
    ];
    let validated = load(value).unwrap();
    let plan = planning::target(&validated, None).unwrap();
    let mut execution = Execution::new(&validated, &plan);
    let statuses = vec![(text("fixture"), Status::Pass)];
    let mut output = None;
    loop {
        match execution.step(&validated, &plan, &statuses, false, output.take()) {
            ExecutionStep::Continue => {},
            ExecutionStep::Run(_) => output = Some(process("", 0)),
            ExecutionStep::Finished => break,
        }
    }
    assert_eq!(execution.group_results.len(), 3);
    assert!(execution.group_results.iter().all(Option::is_some));
    assert_eq!(execution.suite_results.len(), 2);
    assert!(execution.suite_results.iter().all(Option::is_some));
    assert!(execution.results.iter().all(Option::is_some));
}

#[test]
fn preflight_records_the_complete_version_command() {
    let validated = load(base_config("rustc")).unwrap();
    let plan = planning::target(&validated, None).unwrap();
    let report = simulate(&validated, &plan, "rustc 1.87.0", |_| 0);
    assert_eq!(report.tools[0].argv, ["rustc", "--version"]);
}

#[test]
fn extracts_first_complete_semver() {
    assert_eq!(first_semver("tool v22.21.1 build 9.0.0").unwrap().to_string(), "22.21.1");
    assert!(first_semver("tool version unknown").is_none());
}

#[test]
fn a_passing_run_counts_each_check_once() {
    let validated = load(base_config("rustc")).unwrap();
    let plan = planning::target(&validated, None).unwrap();
    let report = simulate(&validated, &plan, "rustc 1.80.0", |_| 0);
    assert_eq!(report.tools.len(), 1);
    assert_eq!(report.tools[0].status, Status::Pass);
    assert_eq!(report.tools[0].version.as_deref(), Some("1.80.0"));
    assert_eq!(report.checks.len(), 1);
    assert_eq!(report.checks[0].status, Status::Pass);
    assert_eq!(report.groups.len(), 1);
    assert_eq!(report.suites.len(), 1);
    assert_eq!(report.summary.pass, 1);
    assert_eq!(report.summary.result, OverallResult::Pass);
    assert_eq!(report.workspace_root, ".");
    assert_eq!(run_exit_code(&RunOutcome { report, interrupted: false }), 0);
}

#[test]
fn failed_check_skips_its_dependency_and_does_not_stop_independent_work() {
    let mut value = base_config("rustc");
    value.checks = vec![check("first", &["first"]), check("second", &["second"]), check("third", &["third"])];
    value.suites[0].checks = vec![invocation("first", &[]), invocation("second", &["first"]), invocation("third", &[])];
    let validated = load(value).unwrap();
    let plan = planning::target(&validated, None).unwrap();
    let report = simulate(&validated, &plan, "rustc 1.80.0", |args| if args == "first" { 1 } else { 0 });
    let statuses: Vec<Status> = report.checks.iter().map(|check| check.status).collect();
    assert_eq!(statuses, [Status::Fail, Status::Skipped, Status::Pass]);
    assert_eq!(report.summary.result, OverallResult::Fail);
    assert_eq!(run_exit_code(&RunOutcome { report, interrupted: false }), 1);
}

#[test]
fn a_tool_without_a_version_blocks_its_checks() {
    let validated = load(base_config("rustc")).unwrap();
    let plan = planning::target(&validated, None).unwrap();
    let report = simulate(&validated, &plan, "no version here", |_| 0);
    assert_eq!(report.tools[0].status, Status::Blocked);
    assert_eq!(report.tools[0].reason.as_deref(), Some("version command did not produce a semantic version"));
    assert_eq!(prerequisite_status(&report.tools), Status::Blocked);
    assert_eq!(report.checks[0].status, Status::Blocked);
    assert_eq!(report.summary.result, OverallResult::Blocked);
    assert_eq!(run_exit_code(&RunOutcome { report, interrupted: true }), 130);
}

#[test]
fn direct_suite_selection_creates_no_group_result() {
    let validated = load(base_config("rustc")).unwrap();
    let plan = planning::target(&validated, Some("fixture")).unwrap();
    let report = simulate(&validated, &plan, "rustc 1.80.0", |_| 0);
    assert!(report.groups.is_empty());
    assert_eq!(report.suites.len(), 1);
    assert_eq!(report.checks.len(), 1);
}

#[test]
fn direct_check_runs_at_the_workspace_root() {
    let validated = load(base_config("rustc")).unwrap();
    let plan = planning::check(&validated, "fixture.check").unwrap();
    let report = simulate(&validated, &plan, "rustc 1.80.0", |_| 0);
    assert!(report.groups.is_empty());
    assert!(report.suites.is_empty());
    assert_eq!(report.checks[0].argv, ["rustc", "run"]);
}

#[test]
fn every_event_of_a_run_names_what_the_reporter_receives() {
    let mut value = base_config("rustc");
    value.default_group = text("root");
    value.checks = vec![check("same", &["same"])];
    value.suites = vec![suite("suite.one", Some("one"), vec![invocation("same", &[])])];
    value.groups = vec![
        group("inner", vec![member_suite("suite.one")]),
        group("root", vec![member_group("inner"), member_suite("suite.one")]),
    ];
    let validated = load(value).unwrap();
    let plan = planning::target(&validated, None).unwrap();
    let mut execution = Execution::new(&validated, &plan);
    let statuses = vec![(text("fixture"), Status::Pass)];
    let mut output = None;
    loop {
        match execution.step(&validated, &plan, &statuses, false, output.take()) {
            ExecutionStep::Continue => {},
            ExecutionStep::Run(_) => output = Some(process("", 0)),
            ExecutionStep::Finished => break,
        }
    }
    let mut seen = Vec::new();
    for event in &execution.events {
        match event_subject(&validated, &plan, &execution, event) {
            Some(EventSubject::GroupStarted { path, group, members }) => {
                assert_eq!(members, group.members().len());
                seen.push(format!("group-start:{}:{}", group.id(), path.len()));
            },
            Some(EventSubject::GroupFinished { group, result, .. }) => {
                assert_eq!(result.id, group.id());
                seen.push(format!("group-finish:{}", group.id()));
            },
            Some(EventSubject::SuiteStarted { suite, checks, .. }) => seen.push(format!("suite-start:{}:{checks}", suite.id())),
            Some(EventSubject::SuiteReused { suite, result, .. }) => {
                assert_eq!(result.id, suite.id());
                seen.push(format!("suite-reuse:{}", suite.id()));
            },
            Some(EventSubject::SuiteFinished { suite, .. }) => seen.push(format!("suite-finish:{}", suite.id())),
            Some(EventSubject::CheckStarted { check, position, total, .. }) => seen.push(format!("check-start:{}:{position}/{total}", check.id)),
            Some(EventSubject::CheckFinished { result, .. }) => seen.push(format!("check-finish:{}", result.check_id)),
            Some(_) => seen.push(text("other")),
            None => panic!("an event of the run names nothing"),
        }
    }
    assert_eq!(
        seen,
        [
            "group-start:root:1",
            "group-start:inner:2",
            "suite-start:suite.one:1",
            "check-start:same:1/1",
            "check-finish:same",
            "suite-finish:suite.one",
            "group-finish:inner",
            "suite-reuse:suite.one",
            "group-finish:root",
        ]
    );
}

#[test]
fn a_finished_check_run_holds_a_result_for_the_check() {
    let validated = load(base_config("rustc")).unwrap();
    let plan = planning::check(&validated, "fixture.check").unwrap();
    let mut execution = Execution::new(&validated, &plan);
    let statuses = vec![(text("fixture"), Status::Blocked)];
    let mut output = None;
    loop {
        match execution.step(&validated, &plan, &statuses, false, output.take()) {
            ExecutionStep::Continue => {},
            ExecutionStep::Run(_) => output = Some(process("", 0)),
            ExecutionStep::Finished => break,
        }
    }
    assert_eq!(execution.results.len(), 1);
    assert!(execution.results.iter().all(Option::is_some));
    assert_eq!(execution.ordered.len(), 1);
    assert_eq!(execution.ordered[0].status, Status::Blocked);
}

#[test]
fn unavailable_repository_tool_still_produces_blocked_report() {
    let repository = RepositoryConfig { provider: RepositoryProvider::Git, tool_id: "git".to_string(), detect_mutations: true };
    let statuses = vec![("git".to_string(), Status::Blocked)];
    assert!(!repository_ready(&Some(repository.clone()), &statuses));
    let report = repository_report(&repository, &None, &None, false, 0);
    assert_eq!(report.integrity.status, Status::Blocked);
    assert_eq!(report.integrity.id, "repository.integrity");
    assert_eq!(report.integrity.reason.as_deref(), Some("repository tool is unavailable"));
    assert!(report.before.is_none() && report.introduced.is_none());
    let cancelled = repository_report(&repository, &Some(Err("repository snapshot interrupted".to_string())), &None, true, 5);
    assert_eq!(cancelled.integrity.status, Status::Skipped);
    assert_eq!(cancelled.integrity.reason.as_deref(), Some("repository snapshot interrupted"));
    assert_eq!(snapshot_status(false, true, true), Status::Skipped);
    assert_eq!(snapshot_status(false, true, false), Status::Blocked);
    assert_eq!(snapshot_status(true, true, true), Status::Pass);
}

#[test]
fn summaries_count_every_status() {
    let summary = Summary::from_statuses(&[Status::Pass, Status::Blocked, Status::Skipped]);
    assert_eq!((summary.pass, summary.fail, summary.blocked, summary.skipped), (1, 0, 1, 1));
    assert_eq!(summary.result, OverallResult::Blocked);
    assert_eq!(summary.exit_code(), 2);
    assert_eq!(Summary::from_statuses(&[]).result, OverallResult::Pass);
}

#[test]
fn load_errors_are_usage_free() {
    let mut value = base_config("rustc");
    value.default_group = "missing".to_string();
    assert!(matches!(load(value), Err(ValidatorError::InvalidConfig { .. })));
}
