//! Version 6 configuration document types.
//!
//! Paths are carried as text exactly as written in the document; their
//! resolution against the file system happens at the configuration boundary.

use vstd::prelude::*;
use crate::text::Keyed;

verus! {

/// Configuration schema version accepted by this crate.
pub const CONFIG_SCHEMA_VERSION: u32 = 6;

/// Complete version 6 configuration document.
#[derive(Clone, Debug)]
pub struct Config {
    /// Optional local JSON Schema reference used by editors.
    pub schema: Option<String>,
    /// Version of the configuration contract.
    pub schema_version: u32,
    /// Path from the configuration directory to the workspace root.
    pub workspace_root: String,
    /// Group selected when the CLI receives no explicit target.
    pub default_group: String,
    /// Maximum captured bytes for each standard output stream.
    pub output_limit_bytes: usize,
    /// Optional repository-integrity provider.
    pub repository: Option<RepositoryConfig>,
    /// Executable tools available to checks and repository providers.
    pub tools: Vec<ToolConfig>,
    /// Reusable validation operations.
    pub checks: Vec<CheckConfig>,
    /// Contextual check compositions.
    pub suites: Vec<SuiteConfig>,
    /// Ordered compositions of suites and nested groups.
    pub groups: Vec<GroupConfig>,
}

/// Repository mutation detection configured for a validation run.
#[derive(Clone, Debug)]
pub struct RepositoryConfig {
    /// Provider used to capture and compare repository state.
    pub provider: RepositoryProvider,
    /// Declared tool that implements the provider command.
    pub tool_id: String,
    /// Whether Git-visible mutations make repository integrity fail.
    pub detect_mutations: bool,
}

/// Repository implementation supported by the versioned contract.
#[derive(Clone, Copy, Debug, PartialEq, Eq)]
pub enum RepositoryProvider {
    /// Git status and content fingerprints.
    Git,
}

/// Executable prerequisite available to checks and repository integration.
#[derive(Clone, Debug)]
pub struct ToolConfig {
    /// Stable identifier referenced by checks and other tools.
    pub id: String,
    /// Executable name or path passed directly to the operating system.
    pub program: String,
    /// Tool prerequisites that must pass before this tool is checked.
    pub requires_tools: Vec<String>,
    /// Arguments used to query the installed version.
    pub version_args: Vec<String>,
    /// Parser applied to version-command output.
    pub version_parser: VersionParser,
    /// Optional semantic-version requirement for the detected version.
    pub version_requirement: Option<String>,
}

/// Strategy used to extract a version from prerequisite command output.
#[derive(Clone, Copy, Debug, PartialEq, Eq)]
pub enum VersionParser {
    /// Selects the first semantic version found in command output.
    FirstSemver,
}

/// One executable validation operation.
#[derive(Clone, Debug)]
pub struct CheckConfig {
    /// Stable identifier used by suites and reports.
    pub id: String,
    /// Human-readable check name.
    pub label: String,
    /// Human-readable explanation of the validation performed.
    pub description: String,
    /// Tool whose executable runs the check.
    pub tool_id: String,
    /// Argument template passed directly to the executable without a shell.
    pub args: Vec<String>,
    /// Additional tools required by this check.
    pub requires_tools: Vec<String>,
    /// Maximum execution time in seconds.
    pub timeout_seconds: u64,
}

/// One literal argument or argument sequence bound to a check placeholder.
#[derive(Clone, Debug)]
pub enum ParameterValue {
    /// Replaces one placeholder with one argument.
    Single(String),
    /// Expands one placeholder into multiple consecutive arguments.
    Multiple(Vec<String>),
}

/// One use of a reusable check within a suite.
#[derive(Clone, Debug)]
pub struct SuiteCheckConfig {
    /// Reusable check selected for this invocation.
    pub check_id: String,
    /// Values bound to placeholders declared in the check arguments, in
    /// ascending name order.
    pub parameters: Vec<(String, ParameterValue)>,
    /// Earlier checks in the same suite required by this invocation.
    pub depends_on: Vec<String>,
}

/// Executable suite containing checks in one working directory.
#[derive(Clone, Debug)]
pub struct SuiteConfig {
    /// Stable identifier referenced by groups and the CLI.
    pub id: String,
    /// Human-readable suite name.
    pub label: String,
    /// Human-readable explanation of the suite scope.
    pub description: String,
    /// Optional directory below the workspace root used for every check.
    pub working_directory: Option<String>,
    /// Ordered check invocations executed by the suite.
    pub checks: Vec<SuiteCheckConfig>,
}

/// Ordered composition of groups and executable suites.
#[derive(Clone, Debug)]
pub struct GroupConfig {
    /// Stable identifier referenced by groups and the CLI.
    pub id: String,
    /// Human-readable group name.
    pub label: String,
    /// Human-readable explanation of the grouped validation context.
    pub description: String,
    /// Ordered group or suite references.
    pub members: Vec<GroupMemberRef>,
}

/// Typed reference preserving the total order of members in a group.
#[derive(Clone, Debug)]
pub enum GroupMemberRef {
    /// Reference to another group.
    Group {
        /// Referenced group identifier.
        id: String,
    },
    /// Reference to an executable suite.
    Suite {
        /// Referenced suite identifier.
        id: String,
    },
}

/// The referenced identifier of a member, independently of its namespace.
pub open spec fn member_id(member: GroupMemberRef) -> Seq<char> {
    match member {
        GroupMemberRef::Group { id } => id@,
        GroupMemberRef::Suite { id } => id@,
    }
}

impl GroupMemberRef {
    /// Returns the referenced ID independently of its namespace.
    pub fn id(&self) -> (r: &str)
        ensures
            r@ == member_id(*self),
    {
        match self {
            GroupMemberRef::Group { id } => id.as_str(),
            GroupMemberRef::Suite { id } => id.as_str(),
        }
    }
}

impl Keyed for ToolConfig {
    open spec fn key_view(&self) -> Seq<char> {
        self.id@
    }

    fn key(&self) -> (k: &str) {
        self.id.as_str()
    }
}

impl Keyed for CheckConfig {
    open spec fn key_view(&self) -> Seq<char> {
        self.id@
    }

    fn key(&self) -> (k: &str) {
        self.id.as_str()
    }
}

impl Keyed for SuiteConfig {
    open spec fn key_view(&self) -> Seq<char> {
        self.id@
    }

    fn key(&self) -> (k: &str) {
        self.id.as_str()
    }
}

impl Keyed for GroupConfig {
    open spec fn key_view(&self) -> Seq<char> {
        self.id@
    }

    fn key(&self) -> (k: &str) {
        self.id.as_str()
    }
}

} // verus!
