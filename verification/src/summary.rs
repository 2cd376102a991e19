//! What a run reports when it ends.

use vstd::prelude::*;

verus! {

/// An identifier that ended in failure, with the last message.
#[derive(Debug, PartialEq, Eq)]
pub struct FailedItem {
    pub identifier: String,
    pub reason: String,
}

impl View for FailedItem {
    type V = (Seq<char>, Seq<char>);

    open spec fn view(&self) -> (Seq<char>, Seq<char>) {
        (self.identifier@, self.reason@)
    }
}

/// The counts of a run and the identifiers that failed in it.
#[derive(Debug, PartialEq, Eq)]
pub struct RunSummary {
    /// Identifiers that ended in success in this run.
    pub succeeded: usize,
    /// Identifiers that ended in failure in this run.
    pub failed: usize,
    /// Identifiers that were left out because an earlier run had succeeded
    /// for them.
    pub skipped: usize,
    /// The identifiers that failed, with the reason, in the order in which
    /// they failed.
    pub failures: Vec<FailedItem>,
}

/// Mathematical value of a [`RunSummary`].
pub struct RunSummaryView {
    pub succeeded: nat,
    pub failed: nat,
    pub skipped: nat,
    pub failures: Seq<(Seq<char>, Seq<char>)>,
}

impl View for RunSummary {
    type V = RunSummaryView;

    open spec fn view(&self) -> RunSummaryView {
        RunSummaryView {
            succeeded: self.succeeded as nat,
            failed: self.failed as nat,
            skipped: self.skipped as nat,
            failures: Seq::new(self.failures@.len(), |i: int| self.failures@[i]@),
        }
    }
}

impl RunSummary {
    /// Whether no identifier ended in failure. A caller that reports to a
    /// shell exits with a non-zero code when this is false.
    pub fn is_clean(&self) -> (b: bool)
        ensures
            b == (self@.failed == 0),
    {
        self.failed == 0
    }
}

} // verus!
