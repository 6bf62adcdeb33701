//! Reports of the deterministic application test harness.

use vstd::prelude::*;

verus! {

/// Reason a deterministic settle operation stopped.
#[derive(Clone, Copy, Debug, Eq, PartialEq, Structural)]
pub enum SettleOutcome {
    /// No immediately runnable or visual work remains.
    Settled,
    /// The application requested shutdown.
    Quitting,
    /// The next frame was rejected without applying output.
    Deferred,
    /// Output state became unknown and a full repaint is required.
    StateUnknown,
}

/// Aggregate work performed while settling a test application.
#[derive(Clone, Copy, Debug, Eq, PartialEq, Structural)]
pub struct SettleReport {
    /// Number of scheduler/render turns.
    pub turns: usize,
    /// Number of serialized application updates.
    pub updates: usize,
    /// Number of command futures completed.
    pub completed_tasks: usize,
    /// Number of frames committed.
    pub committed_frames: usize,
    /// Reason settling stopped.
    pub outcome: SettleOutcome,
}

/// Priority of an outcome when two settle operations are reported as one:
/// quitting over unknown output over deferred output over settled.
pub open spec fn outcome_priority(outcome: SettleOutcome) -> int {
    match outcome {
        SettleOutcome::Settled => 0,
        SettleOutcome::Deferred => 1,
        SettleOutcome::StateUnknown => 2,
        SettleOutcome::Quitting => 3,
    }
}

/// The outcome reported for two consecutive settle operations.
pub open spec fn combined_outcome(first: SettleOutcome, second: SettleOutcome) -> SettleOutcome {
    if outcome_priority(first) >= outcome_priority(second) {
        first
    } else {
        second
    }
}

/// `a + b`, saturating at `usize::MAX`.
pub open spec fn saturating_sum(a: usize, b: usize) -> usize {
    if a + b > usize::MAX {
        usize::MAX
    } else {
        (a + b) as usize
    }
}

impl SettleReport {
    /// Reports a pointer press and its release as one click: counts add up
    /// (saturating) and the more severe outcome wins.
    pub fn merge_click(self, up: SettleReport) -> (report: SettleReport)
        ensures
            report.turns == saturating_sum(self.turns, up.turns),
            report.updates == saturating_sum(self.updates, up.updates),
            report.completed_tasks == saturating_sum(self.completed_tasks, up.completed_tasks),
            report.committed_frames == saturating_sum(self.committed_frames, up.committed_frames),
            report.outcome == combined_outcome(self.outcome, up.outcome),
    {
        let outcome = match (self.outcome, up.outcome) {
            (SettleOutcome::Quitting, _) | (_, SettleOutcome::Quitting) => SettleOutcome::Quitting,
            (SettleOutcome::StateUnknown, _) | (_, SettleOutcome::StateUnknown) => {
                SettleOutcome::StateUnknown
            },
            (SettleOutcome::Deferred, _) | (_, SettleOutcome::Deferred) => SettleOutcome::Deferred,
            (SettleOutcome::Settled, SettleOutcome::Settled) => SettleOutcome::Settled,
        };
        SettleReport {
            turns: self.turns.saturating_add(up.turns),
            updates: self.updates.saturating_add(up.updates),
            completed_tasks: self.completed_tasks.saturating_add(up.completed_tasks),
            committed_frames: self.committed_frames.saturating_add(up.committed_frames),
            outcome,
        }
    }
}

} // verus!
