//! Progress events emitted by execution independently of presentation.

use vstd::prelude::*;
use crate::contracts::config::CheckConfig;
use crate::contracts::report::{CheckExecutionResult, GroupResult, OverallResult, Status, SuiteResult, ValidationSelection};
use crate::planning::{ExecutionNodeRef, PlannedGroup, PlannedSuite};

verus! {

/// Preflight or repository phase reported outside the validation tree.
#[derive(Clone, Copy, Debug, PartialEq, Eq, Structural)]
pub enum ProgressPhase {
    /// Discovery and version validation of required tools.
    Prerequisites,
    /// Repository state captured before selected checks run.
    InitialRepositorySnapshot,
    /// Repository state captured after selected checks run.
    FinalRepositorySnapshot,
}

/// The label shown while a phase runs.
pub open spec fn phase_text(phase: ProgressPhase) -> Seq<char> {
    match phase {
        ProgressPhase::Prerequisites => "Checking required tools"@,
        ProgressPhase::InitialRepositorySnapshot => "Capturing initial repository state"@,
        ProgressPhase::FinalRepositorySnapshot => "Checking repository integrity"@,
    }
}

/// Returns the label shown while a phase runs.
pub fn phase_label(phase: ProgressPhase) -> (r: &'static str)
    ensures
        r@ == phase_text(phase),
{
    match phase {
        ProgressPhase::Prerequisites => "Checking required tools",
        ProgressPhase::InitialRepositorySnapshot => "Capturing initial repository state",
        ProgressPhase::FinalRepositorySnapshot => "Checking repository integrity",
    }
}

/// Receives typed validation lifecycle events without controlling execution.
///
/// Every method does nothing unless a reporter overrides it, so consumers
/// implement only the events their presentation needs.
pub trait ProgressReporter {
    /// Announces the selection before preflight starts.
    fn validation_started(&mut self, selection: &ValidationSelection) {
    }

    /// Announces a preflight or repository phase.
    fn phase_started(&mut self, phase: ProgressPhase) {
    }

    /// Announces completion of a preflight or repository phase.
    fn phase_finished(&mut self, phase: ProgressPhase, status: Status) {
    }

    /// Announces first execution of a group.
    fn group_started(&mut self, path: &[ExecutionNodeRef], group: &PlannedGroup, immediate_total: usize) {
    }

    /// Announces reuse of a group already executed through another path.
    fn group_reused(&mut self, path: &[ExecutionNodeRef], group: &PlannedGroup, result: &GroupResult) {
    }

    /// Announces completion of a group and its aggregate result.
    fn group_finished(&mut self, path: &[ExecutionNodeRef], group: &PlannedGroup, result: &GroupResult) {
    }

    /// Announces first execution of a suite.
    fn suite_started(&mut self, path: &[ExecutionNodeRef], suite: &PlannedSuite, check_total: usize) {
    }

    /// Announces reuse of a suite already executed through another path.
    fn suite_reused(&mut self, path: &[ExecutionNodeRef], suite: &PlannedSuite, result: &SuiteResult) {
    }

    /// Announces completion of a suite and its aggregate result.
    fn suite_finished(&mut self, path: &[ExecutionNodeRef], suite: &PlannedSuite, result: &SuiteResult) {
    }

    /// Announces a suite-bound check before its subprocess starts.
    fn check_started(&mut self, path: &[ExecutionNodeRef], position: usize, total: usize, check: &CheckConfig) {
    }

    /// Announces completion of a suite-bound check.
    fn check_finished(&mut self, path: &[ExecutionNodeRef], position: usize, total: usize, result: &CheckExecutionResult) {
    }

    /// Announces a direct check before its subprocess starts.
    fn direct_check_started(&mut self, position: usize, total: usize, check: &CheckConfig) {
    }

    /// Announces completion of a direct check.
    fn direct_check_finished(&mut self, position: usize, total: usize, result: &CheckExecutionResult) {
    }

    /// Announces the aggregate result after all report data is complete.
    fn validation_finished(&mut self, result: OverallResult) {
    }
}

/// No-op reporter used by non-interactive and JSON consumers.
pub struct SilentProgress;

impl ProgressReporter for SilentProgress {
}

} // verus!
