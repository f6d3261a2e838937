//! Per-plugin outcomes and the summary built from them.
use vstd::prelude::*;
use vstd::string::StringExecFns;

use crate::filter::PluginRef;

verus! {

/// Why a sync task failed.
pub enum TaskError {
    /// The task ran past its time limit.
    Timeout,
    /// The task failed for another reason, described by the text.
    TaskFailure(String),
}

/// What became of one plugin's sync.
pub enum SyncOutcome {
    Succeeded,
    /// Nothing was done, for the reason given ("already up to date",
    /// "cancelled").
    Skipped(String),
    Failed(TaskError),
}

/// The three classes of outcome that a report counts.
#[derive(PartialEq, Eq, Structural, Clone, Copy, Debug)]
pub enum OutcomeKind {
    Succeeded,
    Skipped,
    Failed,
}

impl Clone for TaskError {
    fn clone(&self) -> (r: Self)
        ensures
            r == *self,
    {
        match self {
            TaskError::Timeout => TaskError::Timeout,
            TaskError::TaskFailure(d) => TaskError::TaskFailure(d.clone()),
        }
    }
}

impl Clone for SyncOutcome {
    fn clone(&self) -> (r: Self)
        ensures
            r == *self,
    {
        match self {
            SyncOutcome::Succeeded => SyncOutcome::Succeeded,
            SyncOutcome::Skipped(reason) => SyncOutcome::Skipped(reason.clone()),
            SyncOutcome::Failed(e) => SyncOutcome::Failed(e.clone()),
        }
    }
}

/// The reason recorded for a job that a cancellation stopped.
pub open spec fn cancelled_reason() -> Seq<char> {
    seq!['c', 'a', 'n', 'c', 'e', 'l', 'l', 'e', 'd']
}

/// The outcome of a job that was cancelled before it completed.
pub open spec fn is_cancelled(o: SyncOutcome) -> bool {
    o matches SyncOutcome::Skipped(reason) && reason@ == cancelled_reason()
}

impl SyncOutcome {
    pub open spec fn kind_spec(&self) -> OutcomeKind {
        match self {
            SyncOutcome::Succeeded => OutcomeKind::Succeeded,
            SyncOutcome::Skipped(_) => OutcomeKind::Skipped,
            SyncOutcome::Failed(_) => OutcomeKind::Failed,
        }
    }

    #[verifier::when_used_as_spec(kind_spec)]
    pub fn kind(&self) -> (r: OutcomeKind)
        ensures
            r == self.kind_spec(),
    {
        match self {
            SyncOutcome::Succeeded => OutcomeKind::Succeeded,
            SyncOutcome::Skipped(_) => OutcomeKind::Skipped,
            SyncOutcome::Failed(_) => OutcomeKind::Failed,
        }
    }

    /// `Skipped("cancelled")`.
    pub fn cancelled() -> (r: SyncOutcome)
        ensures
            is_cancelled(r),
    {
        let reason = String::from_str("cancelled");
        proof {
            reveal_strlit("cancelled");
            assert(reason@ =~= cancelled_reason());
        }
        SyncOutcome::Skipped(reason)
    }
}

/// One line of a report: a plugin and what became of it.
pub struct SyncEntry {
    pub plugin: PluginRef,
    pub outcome: SyncOutcome,
}

/// The outcomes of a sync run, in the order in which the jobs completed.
pub struct SyncReport {
    pub outcomes: Vec<SyncEntry>,
}

/// How many entries of `s` have an outcome of class `k`.
pub open spec fn count_kind(s: Seq<SyncEntry>, k: OutcomeKind) -> nat
    decreases s.len(),
{
    if s.len() == 0 {
        0
    } else {
        count_kind(s.drop_last(), k) + if s.last().outcome.kind() == k {
            1nat
        } else {
            0nat
        }
    }
}

proof fn lemma_count_kind_bound(s: Seq<SyncEntry>, k: OutcomeKind)
    ensures
        count_kind(s, k) <= s.len(),
    decreases s.len(),
{
    if s.len() > 0 {
        lemma_count_kind_bound(s.drop_last(), k);
    }
}

/// Every entry falls in exactly one class: the three counts add up to the
/// number of entries.
pub proof fn lemma_counts_add_up(s: Seq<SyncEntry>)
    ensures
        count_kind(s, OutcomeKind::Succeeded) + count_kind(s, OutcomeKind::Failed) + count_kind(
            s,
            OutcomeKind::Skipped,
        ) == s.len(),
    decreases s.len(),
{
    if s.len() > 0 {
        lemma_counts_add_up(s.drop_last());
    }
}

impl SyncReport {
    /// A report with no entries.
    pub fn empty() -> (r: SyncReport)
        ensures
            r.outcomes@.len() == 0,
    {
        SyncReport { outcomes: Vec::new() }
    }

    /// The number of entries.
    pub fn total(&self) -> (r: usize)
        ensures
            r == self.outcomes@.len(),
    {
        self.outcomes.len()
    }

    /// The number of entries whose outcome is of class `k`.
    pub fn count(&self, k: OutcomeKind) -> (r: usize)
        ensures
            r == count_kind(self.outcomes@, k),
    {
        let mut n: usize = 0;
        let mut i: usize = 0;
        while i < self.outcomes.len()
            invariant
                i <= self.outcomes@.len(),
                n == count_kind(self.outcomes@.subrange(0, i as int), k),
            decreases self.outcomes@.len() - i,
        {
            proof {
                let s = self.outcomes@.subrange(0, i + 1);
                assert(s.drop_last() == self.outcomes@.subrange(0, i as int));
                lemma_count_kind_bound(s, k);
            }
            if self.outcomes[i].outcome.kind() == k {
                n = n + 1;
            }
            i = i + 1;
        }
        assert(self.outcomes@.subrange(0, i as int) == self.outcomes@);
        n
    }

    pub fn succeeded(&self) -> (r: usize)
        ensures
            r == count_kind(self.outcomes@, OutcomeKind::Succeeded),
    {
        self.count(OutcomeKind::Succeeded)
    }

    pub fn failed(&self) -> (r: usize)
        ensures
            r == count_kind(self.outcomes@, OutcomeKind::Failed),
    {
        self.count(OutcomeKind::Failed)
    }

    pub fn skipped(&self) -> (r: usize)
        ensures
            r == count_kind(self.outcomes@, OutcomeKind::Skipped),
    {
        self.count(OutcomeKind::Skipped)
    }

    /// Whether every plugin of the run synced successfully (true of an empty
    /// report).
    pub fn all_succeeded(&self) -> (r: bool)
        ensures
            r == (forall|k: int|
                0 <= k < self.outcomes@.len() ==> #[trigger] self.outcomes@[k].outcome.kind()
                    == OutcomeKind::Succeeded),
    {
        let mut i: usize = 0;
        while i < self.outcomes.len()
            invariant
                i <= self.outcomes@.len(),
                forall|k: int| 0 <= k < i ==> #[trigger] self.outcomes@[k].outcome.kind() == OutcomeKind::Succeeded,
            decreases self.outcomes@.len() - i,
        {
            if self.outcomes[i].outcome.kind() != OutcomeKind::Succeeded {
                return false;
            }
            i = i + 1;
        }
        true
    }
}

} // verus!
