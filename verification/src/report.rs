//! What a command hands back: one typed report per verb.

use crate::schema::{ArchivedTask, HorizonTask, Ledger, QueuedTask};
use vstd::prelude::*;

verus! {

/// The outcome of one command.
pub enum Report {
    Status { path: String, ledger: Ledger },
    Check { path: String, problems: Vec<String> },
    Show { path: String, task: Task },
    Initialized { path: String, prefix: String },
    Added { path: String, id: String, destination: Destination },
    Started { path: String, id: String },
    Archived { path: String, id: String },
    Parked { path: String, id: String },
    Edited { path: String, id: String },
    Promoted { path: String, id: String },
    ClosedFromGit { path: String, archived: Vec<String>, retry_push: bool },
    Formatted { path: String, changed: bool, check: bool, differences: Vec<String> },
    HookInstalled { path: String, outcome: HookOutcome, snippet: Option<String> },
    SchemaWritten { path: String },
    Instructions { markdown: String },
}

/// Which list a new row went to.
#[derive(Clone, Copy, Debug, PartialEq, Eq, Structural)]
pub enum Destination {
    Queue,
    Horizon,
}

/// One row, with the list it was found in.
#[allow(inconsistent_fields)]
pub enum Task {
    Queued { task: QueuedTask },
    Archived { task: ArchivedTask },
    Horizon { task: HorizonTask },
}

/// What `hook install` did.
#[derive(Clone, Copy, Debug, PartialEq, Eq, Structural)]
pub enum HookOutcome {
    AlreadyConfigured,
    NeedsConfiguration,
    ForceNotApplicable,
    Installed,
}


/// Whether a report tells of a failure: problems found, a push to make again,
/// a file not in its declared style under `--check`, or a hook not installed.
pub open spec fn failing(r: Report) -> bool {
    match r {
        Report::Check { problems, .. } => problems@.len() > 0,
        Report::ClosedFromGit { retry_push, .. } => retry_push,
        Report::Formatted { changed, check, .. } => changed && check,
        Report::HookInstalled { outcome, .. } => outcome == HookOutcome::NeedsConfiguration || outcome
            == HookOutcome::ForceNotApplicable,
        _ => false,
    }
}

impl Report {
    /// Whether this report tells of a failure.
    pub fn message_kind_is_error(&self) -> (res: bool)
        ensures
            res == failing(*self),
    {
        match self {
            Report::Check { problems, .. } => problems.len() > 0,
            Report::ClosedFromGit { retry_push, .. } => *retry_push,
            Report::Formatted { changed, check, .. } => *changed && *check,
            Report::HookInstalled { outcome, .. } => match outcome {
                HookOutcome::NeedsConfiguration | HookOutcome::ForceNotApplicable => true,
                _ => false,
            },
            _ => false,
        }
    }
}

} // verus!
