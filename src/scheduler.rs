//! Decisions of a sync run: which jobs start, in which concurrency slot,
//! which completions count, and what the final report holds.
//!
//! The scheduler does no work itself. Its driver asks it for the jobs to
//! start (`dispatch`), runs them however it likes, hands each outcome back
//! (`complete`), and takes the report once every job is accounted for
//! (`report`), or ends the run early (`cancel`).
use vstd::prelude::*;
use vstd::set_lib::{set_int_range, lemma_int_range};

use crate::filter::PluginRef;
use crate::report::{SyncOutcome, SyncEntry, SyncReport, is_cancelled};

verus! {

/// Errors that stop a sync run before any job starts.
#[derive(PartialEq, Eq, Structural, Clone, Copy, Debug)]
pub enum SyncError {
    /// The concurrency limit is zero.
    InvalidConcurrency,
    /// The plugin registry could not be listed.
    RegistryUnavailable,
}

/// A job handed to the driver: sync `plugin`, the `index`-th plugin of the
/// selection, in concurrency slot `slot`.
pub struct SyncJob {
    pub index: usize,
    pub plugin: PluginRef,
    pub slot: usize,
}

/// The state of a run, as contracts see it.
pub struct SchedulerState {
    /// The plugins to sync, in the order in which jobs are admitted.
    pub selection: Seq<PluginRef>,
    /// How many jobs may be in flight at once.
    pub max_parallel: usize,
    /// How many jobs have been admitted: always a prefix of the selection.
    pub next: usize,
    /// The concurrency slots; `Some(i)` holds the in-flight job `i`.
    pub slots: Seq<Option<usize>>,
    /// The recorded outcome of each plugin of the selection.
    pub results: Seq<Option<SyncOutcome>>,
    /// The selection indices whose outcome is recorded, in recording order.
    pub order: Seq<usize>,
}

impl SchedulerState {
    /// The run's invariant: admitted jobs are a prefix of the selection, no
    /// more than `max_parallel` slots exist, a slot only holds an admitted
    /// job without an outcome, and `order` lists each recorded index once.
    pub open spec fn wf(self) -> bool {
        &&& self.results.len() == self.selection.len()
        &&& self.max_parallel >= 1
        &&& self.slots.len() <= self.max_parallel
        &&& self.next <= self.selection.len()
        &&& forall|s: int|
            0 <= s < self.slots.len() && #[trigger] self.slots[s] is Some ==> {
                let i = self.slots[s]->0;
                i < self.next && self.results[i as int] is None
            }
        &&& forall|i: int| 0 <= i < self.results.len() && #[trigger] self.results[i] is Some ==> i < self.next
        &&& self.order.no_duplicates()
        &&& forall|k: int|
            0 <= k < self.order.len() ==> #[trigger] self.order[k] < self.results.len()
                && self.results[self.order[k] as int] is Some
        &&& forall|i: int|
            0 <= i < self.results.len() && #[trigger] self.results[i] is Some ==> self.order.contains(
                i as usize,
            )
    }

    /// Job `i` was admitted and its outcome is not recorded yet.
    pub open spec fn in_flight(self, i: usize) -> bool {
        exists|s: int| 0 <= s < self.slots.len() && self.slots[s] == Some(i)
    }

    /// A further job may start now.
    pub open spec fn has_free_slot(self) -> bool {
        self.slots.len() < self.max_parallel || exists|s: int|
            0 <= s < self.slots.len() && self.slots[s] is None
    }

    /// Every plugin of the selection has an outcome.
    pub open spec fn all_recorded(self) -> bool {
        forall|i: int| 0 <= i < self.results.len() ==> #[trigger] self.results[i] is Some
    }

    /// The report entries for the recorded outcomes, in recording order.
    pub open spec fn entries(self) -> Seq<SyncEntry> {
        self.order.map_values(
            |i: usize| (SyncEntry { plugin: self.selection[i as int], outcome: self.results[i as int]->0 }),
        )
    }
}

/// A sync run over a fixed selection with a bound on concurrent jobs.
pub struct SyncScheduler {
    selection: Vec<PluginRef>,
    max_parallel: usize,
    next: usize,
    slots: Vec<Option<usize>>,
    results: Vec<Option<SyncOutcome>>,
    order: Vec<usize>,
}

impl View for SyncScheduler {
    type V = SchedulerState;

    closed spec fn view(&self) -> SchedulerState {
        SchedulerState {
            selection: self.selection@,
            max_parallel: self.max_parallel,
            next: self.next,
            slots: self.slots@,
            results: self.results@,
            order: self.order@,
        }
    }
}

impl SyncScheduler {
    /// The invariant that every operation of the scheduler keeps.
    pub open spec fn wf(&self) -> bool {
        self@.wf()
    }

    /// Starts a run over `selection` with at most `max_parallel` jobs in
    /// flight. A limit of zero is refused before any job exists.
    pub fn new(selection: Vec<PluginRef>, max_parallel: usize) -> (r: Result<SyncScheduler, SyncError>)
        ensures
            max_parallel == 0 <==> r is Err,
            r matches Err(e) ==> e == SyncError::InvalidConcurrency,
            r matches Ok(s) ==> {
                &&& s.wf()
                &&& s@.selection == selection@
                &&& s@.max_parallel == max_parallel
                &&& s@.next == 0
                &&& s@.slots.len() == 0
                &&& s@.order.len() == 0
                &&& forall|i: int| 0 <= i < s@.results.len() ==> #[trigger] s@.results[i] is None
            },
    {
        if max_parallel == 0 {
            return Err(SyncError::InvalidConcurrency);
        }
        let mut results: Vec<Option<SyncOutcome>> = Vec::new();
        let mut i: usize = 0;
        while i < selection.len()
            invariant
                i <= selection@.len(),
                results@.len() == i,
                forall|j: int| 0 <= j < i ==> #[trigger] results@[j] is None,
            decreases selection@.len() - i,
        {
            results.push(None);
            i = i + 1;
        }
        Ok(SyncScheduler { selection, max_parallel, next: 0, slots: Vec::new(), results, order: Vec::new() })
    }

    /// The number of plugins in the selection.
    pub fn len(&self) -> (r: usize)
        ensures
            r == self@.selection.len(),
    {
        self.selection.len()
    }

    /// A slot where a further job may start: the first empty one, else a new
    /// one while the limit allows.
    fn free_slot(&self) -> (r: Option<usize>)
        requires
            self.wf(),
        ensures
            r is None <==> !self@.has_free_slot(),
            r matches Some(s) ==> s < self@.max_parallel && s <= self@.slots.len() && (s < self@.slots.len()
                ==> self@.slots[s as int] is None),
    {
        let mut s: usize = 0;
        while s < self.slots.len()
            invariant
                self.wf(),
                s <= self@.slots.len(),
                forall|t: int| 0 <= t < s ==> #[trigger] self@.slots[t] is Some,
            decreases self@.slots.len() - s,
        {
            if self.slots[s].is_none() {
                return Some(s);
            }
            s = s + 1;
        }
        if self.slots.len() < self.max_parallel {
            Some(self.slots.len())
        } else {
            None
        }
    }

    /// Admits the next jobs of the selection, in its order, for as long as a
    /// slot is free, and returns them. Nothing is admitted once the run is
    /// complete or cancelled.
    pub fn dispatch(&mut self) -> (jobs: Vec<SyncJob>)
        requires
            old(self).wf(),
        ensures
            final(self).wf(),
            final(self)@.selection == old(self)@.selection,
            final(self)@.max_parallel == old(self)@.max_parallel,
            final(self)@.results == old(self)@.results,
            final(self)@.order == old(self)@.order,
            final(self)@.next == old(self)@.next + jobs@.len(),
            final(self)@.next == final(self)@.selection.len() || !final(self)@.has_free_slot(),
            forall|k: int|
                0 <= k < jobs@.len() ==> {
                    &&& (#[trigger] jobs@[k]).index == old(self)@.next + k
                    &&& jobs@[k].plugin == old(self)@.selection[old(self)@.next + k]
                    &&& jobs@[k].slot < final(self)@.slots.len()
                    &&& final(self)@.slots[jobs@[k].slot as int] == Some(jobs@[k].index)
                },
            final(self)@.slots.len() >= old(self)@.slots.len(),
            forall|s: int|
                0 <= s < old(self)@.slots.len() && (#[trigger] old(self)@.slots[s]) is Some
                    ==> final(self)@.slots[s] == old(self)@.slots[s],
            forall|s: int|
                0 <= s < final(self)@.slots.len() ==> {
                    let slot = #[trigger] final(self)@.slots[s];
                    (s < old(self)@.slots.len() && slot == old(self)@.slots[s]) || (slot is Some
                        && old(self)@.next <= slot->0)
                },
    {
        let mut jobs: Vec<SyncJob> = Vec::new();
        let ghost start = self.next;
        let ghost old_slots = self.slots@;
        while self.next < self.selection.len()
            invariant
                self.wf(),
                self@.selection == old(self)@.selection,
                self@.max_parallel == old(self)@.max_parallel,
                self@.results == old(self)@.results,
                self@.order == old(self)@.order,
                start == old(self)@.next,
                old_slots == old(self)@.slots,
                self.next == start + jobs@.len(),
                forall|k: int|
                    0 <= k < jobs@.len() ==> {
                        &&& (#[trigger] jobs@[k]).index == start + k
                        &&& jobs@[k].plugin == old(self)@.selection[start + k]
                        &&& jobs@[k].slot < self@.slots.len()
                        &&& self@.slots[jobs@[k].slot as int] == Some(jobs@[k].index)
                    },
                self@.slots.len() >= old_slots.len(),
                forall|s: int|
                    0 <= s < old_slots.len() && (#[trigger] old_slots[s]) is Some ==> self@.slots[s]
                        == old_slots[s],
                forall|s: int|
                    0 <= s < self@.slots.len() ==> {
                        let slot = #[trigger] self@.slots[s];
                        (s < old_slots.len() && slot == old_slots[s]) || (slot is Some && start <= slot->0)
                    },
            ensures
                self.wf(),
                self@.selection == old(self)@.selection,
                self@.max_parallel == old(self)@.max_parallel,
                self@.results == old(self)@.results,
                self@.order == old(self)@.order,
                self.next == start + jobs@.len(),
                self.next == self.selection@.len() || !self@.has_free_slot(),
                forall|k: int|
                    0 <= k < jobs@.len() ==> {
                        &&& (#[trigger] jobs@[k]).index == start + k
                        &&& jobs@[k].plugin == old(self)@.selection[start + k]
                        &&& jobs@[k].slot < self@.slots.len()
                        &&& self@.slots[jobs@[k].slot as int] == Some(jobs@[k].index)
                    },
                self@.slots.len() >= old_slots.len(),
                forall|s: int|
                    0 <= s < old_slots.len() && (#[trigger] old_slots[s]) is Some ==> self@.slots[s]
                        == old_slots[s],
                forall|s: int|
                    0 <= s < self@.slots.len() ==> {
                        let slot = #[trigger] self@.slots[s];
                        (s < old_slots.len() && slot == old_slots[s]) || (slot is Some && start <= slot->0)
                    },
            decreases self.selection@.len() - self.next,
        {
            let slot = match self.free_slot() {
                Some(s) => s,
                None => break,
            };
            let index = self.next;
            let ghost before = self.slots@;
            if slot == self.slots.len() {
                self.slots.push(Some(index));
            } else {
                self.slots[slot] = Some(index);
            }
            assert(forall|s: int| 0 <= s < before.len() && s != slot ==> self@.slots[s] == before[s]);
            jobs.push(SyncJob { index, plugin: self.selection[index].clone(), slot });
            self.next = self.next + 1;
        }
        jobs
    }

    /// Records the outcome of job `index` if that job is in flight, frees
    /// its slot, and says whether it was taken. A completion for a job that
    /// is not in flight (never admitted, already recorded, or ended by a
    /// cancellation) is discarded and changes nothing.
    pub fn complete(&mut self, index: usize, outcome: SyncOutcome) -> (accepted: bool)
        requires
            old(self).wf(),
        ensures
            final(self).wf(),
            accepted == old(self)@.in_flight(index),
            !accepted ==> final(self)@ == old(self)@,
            accepted ==> {
                &&& final(self)@.selection == old(self)@.selection
                &&& final(self)@.max_parallel == old(self)@.max_parallel
                &&& final(self)@.next == old(self)@.next
                &&& final(self)@.results == old(self)@.results.update(index as int, Some(outcome))
                &&& final(self)@.order == old(self)@.order.push(index)
                &&& final(self)@.slots.len() == old(self)@.slots.len()
                &&& forall|s: int|
                    0 <= s < old(self)@.slots.len() ==> #[trigger] final(self)@.slots[s] == if old(
                        self,
                    )@.slots[s] == Some(index) {
                        None
                    } else {
                        old(self)@.slots[s]
                    }
            },
    {
        let mut found = false;
        let mut s: usize = 0;
        while s < self.slots.len()
            invariant
                s <= self@.slots.len(),
                self@.slots.len() == old(self)@.slots.len(),
                found == exists|t: int| 0 <= t < s && old(self)@.slots[t] == Some(index),
                forall|t: int|
                    0 <= t < s ==> #[trigger] self@.slots[t] == if old(self)@.slots[t] == Some(index) {
                        None
                    } else {
                        old(self)@.slots[t]
                    },
                forall|t: int| s <= t < self@.slots.len() ==> #[trigger] self@.slots[t] == old(self)@.slots[t],
                self.selection == old(self).selection,
                self.max_parallel == old(self).max_parallel,
                self.next == old(self).next,
                self.results == old(self).results,
                self.order == old(self).order,
            decreases self@.slots.len() - s,
        {
            if self.slots[s] == Some(index) {
                self.slots[s] = None;
                found = true;
            }
            s = s + 1;
        }
        if !found {
            assert(self@.slots =~= old(self)@.slots);
            return false;
        }
        let ghost t = choose|t: int| 0 <= t < old(self)@.slots.len() && old(self)@.slots[t] == Some(index);
        assert(old(self)@.results[index as int] is None);
        self.results[index] = Some(outcome);
        assert(!old(self)@.order.contains(index));
        self.order.push(index);
        proof {
            let st = self@;
            assert forall|k: int| 0 <= k < st.order.len() implies #[trigger] st.order[k] < st.results.len()
                && st.results[st.order[k] as int] is Some by {
                if k < old(self)@.order.len() {
                    assert(st.order[k] == old(self)@.order[k]);
                }
            }
            assert forall|i: int| 0 <= i < st.results.len() && #[trigger] st.results[i] is Some
                implies st.order.contains(i as usize) by {
                if i != index {
                    assert(old(self)@.results[i] is Some);
                    let k = choose|k: int| 0 <= k < old(self)@.order.len() && old(self)@.order[k] == i as usize;
                    assert(st.order[k] == i as usize);
                } else {
                    assert(st.order[st.order.len() - 1] == index);
                }
            }
        }
        true
    }

    /// Whether every plugin of the selection has an outcome: the run is
    /// over and its report can be taken.
    pub fn is_finished(&self) -> (r: bool)
        requires
            self.wf(),
        ensures
            r == self@.all_recorded(),
    {
        let mut i: usize = 0;
        while i < self.results.len()
            invariant
                i <= self@.results.len(),
                forall|j: int| 0 <= j < i ==> #[trigger] self@.results[j] is Some,
            decreases self@.results.len() - i,
        {
            if self.results[i].is_none() {
                return false;
            }
            i = i + 1;
        }
        true
    }

    /// The report of a finished run: one entry per recorded outcome, in the
    /// order in which the outcomes were recorded.
    pub fn report(&self) -> (r: SyncReport)
        requires
            self.wf(),
            self@.all_recorded(),
        ensures
            r.outcomes@ == self@.entries(),
            r.outcomes@.len() == self@.selection.len(),
    {
        proof {
            lemma_each_plugin_reported_once(self@);
        }
        let mut outcomes: Vec<SyncEntry> = Vec::new();
        let mut k: usize = 0;
        while k < self.order.len()
            invariant
                self.wf(),
                k <= self@.order.len(),
                outcomes@ == self@.entries().subrange(0, k as int),
            decreases self@.order.len() - k,
        {
            let i = self.order[k];
            let outcome = match &self.results[i] {
                Some(o) => o.clone(),
                None => {
                    assert(false);
                    SyncOutcome::Succeeded
                },
            };
            outcomes.push(SyncEntry { plugin: self.selection[i].clone(), outcome });
            assert(self@.entries().subrange(0, k + 1) =~= self@.entries().subrange(0, k as int).push(
                self@.entries()[k as int],
            ));
            k = k + 1;
        }
        assert(self@.entries().subrange(0, k as int) =~= self@.entries());
        SyncReport { outcomes }
    }

    /// Ends the run: no further job is admitted, every plugin without an
    /// outcome (in flight or never admitted) is recorded as
    /// `Skipped("cancelled")` in selection order, later completions are
    /// discarded, and the report is returned. Outcomes already recorded keep
    /// their place and value.
    pub fn cancel(&mut self) -> (r: SyncReport)
        requires
            old(self).wf(),
        ensures
            final(self).wf(),
            final(self)@.all_recorded(),
            final(self)@.selection == old(self)@.selection,
            final(self)@.max_parallel == old(self)@.max_parallel,
            final(self)@.next == final(self)@.selection.len(),
            final(self)@.slots.len() == 0,
            forall|i: int|
                0 <= i < old(self)@.results.len() ==> {
                    &&& (#[trigger] old(self)@.results[i]) is Some ==> final(self)@.results[i]
                        == old(self)@.results[i]
                    &&& old(self)@.results[i] is None ==> is_cancelled(final(self)@.results[i]->0)
                },
            final(self)@.order.subrange(0, old(self)@.order.len() as int) == old(self)@.order,
            r.outcomes@ == final(self)@.entries(),
            r.outcomes@.len() == final(self)@.selection.len(),
    {
        self.slots = Vec::new();
        self.next = self.selection.len();
        let mut i: usize = 0;
        while i < self.results.len()
            invariant
                self.wf(),
                i <= self@.results.len(),
                self@.selection == old(self)@.selection,
                self@.max_parallel == old(self)@.max_parallel,
                self@.next == self@.selection.len(),
                self@.slots.len() == 0,
                forall|j: int| 0 <= j < i ==> #[trigger] self@.results[j] is Some,
                forall|j: int|
                    0 <= j < self@.results.len() ==> {
                        &&& (#[trigger] old(self)@.results[j]) is Some ==> self@.results[j]
                            == old(self)@.results[j]
                        &&& old(self)@.results[j] is None && j < i ==> is_cancelled(self@.results[j]->0)
                        &&& old(self)@.results[j] is None && j >= i ==> self@.results[j] is None
                    },
                self@.order.len() >= old(self)@.order.len(),
                self@.order.subrange(0, old(self)@.order.len() as int) == old(self)@.order,
            decreases self@.results.len() - i,
        {
            if self.results[i].is_none() {
                let ghost before = self@;
                self.results[i] = Some(SyncOutcome::cancelled());
                assert(!before.order.contains(i));
                self.order.push(i);
                proof {
                    let st = self@;
                    assert(st.order.subrange(0, old(self)@.order.len() as int) =~= before.order.subrange(
                        0,
                        old(self)@.order.len() as int,
                    ));
                    assert forall|k: int| 0 <= k < st.order.len() implies #[trigger] st.order[k]
                        < st.results.len() && st.results[st.order[k] as int] is Some by {
                        if k < before.order.len() {
                            assert(st.order[k] == before.order[k]);
                        }
                    }
                    assert forall|j: int| 0 <= j < st.results.len() && #[trigger] st.results[j] is Some
                        implies st.order.contains(j as usize) by {
                        if j != i {
                            assert(before.results[j] is Some);
                            let k = choose|k: int| 0 <= k < before.order.len() && before.order[k] == j as usize;
                            assert(st.order[k] == j as usize);
                        } else {
                            assert(st.order[st.order.len() - 1] == i);
                        }
                    }
                }
            }
            i = i + 1;
        }
        self.report()
    }
}

/// The unit of work for one plugin: bring its definition up to date.
/// Every failure is reported as `SyncOutcome::Failed`, never raised, so one
/// plugin's failure leaves the other jobs of a run untouched.
pub trait SyncTask {
    fn execute(&mut self, plugin: &PluginRef) -> SyncOutcome;
}

/// Runs a sync of `selection` on the calling thread: jobs are admitted in
/// selection order, at most `max_parallel` at a time, and each one runs to
/// completion through `task`. Every plugin gets exactly one entry, whatever
/// the outcomes of the others; a limit of zero is refused before any job
/// runs.
pub fn run<T: SyncTask>(selection: Vec<PluginRef>, max_parallel: usize, task: &mut T) -> (r: Result<
    SyncReport,
    SyncError,
>)
    ensures
        max_parallel == 0 <==> r is Err,
        r matches Err(e) ==> e == SyncError::InvalidConcurrency,
        r matches Ok(report) ==> {
            &&& report.outcomes@.len() == selection@.len()
            &&& forall|k: int|
                0 <= k < selection@.len() ==> (#[trigger] report.outcomes@[k]).plugin == selection@[k]
        },
{
    let ghost plugins = selection@;
    let mut sched = match SyncScheduler::new(selection, max_parallel) {
        Ok(s) => s,
        Err(e) => {
            return Err(e);
        },
    };
    let n = sched.len();
    while sched.next < n
        invariant
            sched.wf(),
            sched@.selection == plugins,
            n == plugins.len(),
            sched@.order.len() == sched@.next,
            forall|k: int| 0 <= k < sched@.order.len() ==> #[trigger] sched@.order[k] == k,
            forall|i: int| 0 <= i < n ==> (#[trigger] sched@.results[i] is Some <==> i < sched@.next),
        decreases n - sched@.next,
    {
        let ghost start = sched@.next;
        let jobs = sched.dispatch();
        if jobs.len() == 0 {
            proof {
                if sched@.slots.len() > 0 {
                    assert(sched@.slots[0] is Some);
                }
            }
        }
        let mut k: usize = 0;
        while k < jobs.len()
            invariant
                sched.wf(),
                sched@.selection == plugins,
                n == plugins.len(),
                sched@.next == start + jobs@.len(),
                k <= jobs@.len(),
                sched@.order.len() == start + k,
                forall|j: int| 0 <= j < sched@.order.len() ==> #[trigger] sched@.order[j] == j,
                forall|i: int|
                    0 <= i < n ==> (#[trigger] sched@.results[i] is Some <==> i < start + k),
                forall|j: int|
                    0 <= j < jobs@.len() ==> {
                        &&& (#[trigger] jobs@[j]).index == start + j
                        &&& jobs@[j].plugin == plugins[start + j]
                        &&& k <= j ==> jobs@[j].slot < sched@.slots.len() && sched@.slots[jobs@[j].slot as int]
                            == Some(jobs@[j].index)
                    },
            decreases jobs@.len() - k,
        {
            let outcome = task.execute(&jobs[k].plugin);
            let ghost before = sched@;
            sched.complete(jobs[k].index, outcome);
            assert(before.in_flight(jobs@[k as int].index));
            proof {
                assert forall|j: int| k < j < jobs@.len() implies sched@.slots[(#[trigger] jobs@[j]).slot as int]
                    == Some(jobs@[j].index) by {
                    assert(before.slots[jobs@[j].slot as int] == Some(jobs@[j].index));
                }
            }
            k = k + 1;
        }
    }
    proof {
        assert(sched@.all_recorded());
    }
    let report = sched.report();
    Ok(report)
}

/// Once every outcome is recorded, the report lists each plugin of the
/// selection exactly once: it has one entry per plugin, each entry names the
/// plugin at its index, and each index appears exactly once.
pub proof fn lemma_each_plugin_reported_once(st: SchedulerState)
    requires
        st.wf(),
        st.all_recorded(),
    ensures
        st.entries().len() == st.selection.len(),
        st.order.no_duplicates(),
        forall|i: usize| i < st.selection.len() ==> #[trigger] st.order.contains(i),
        forall|k: int|
            0 <= k < st.order.len() ==> #[trigger] st.order[k] < st.selection.len()
                && st.entries()[k].plugin == st.selection[st.order[k] as int],
{
    let o = st.order.map_values(|x: usize| x as int);
    let n = st.selection.len() as int;
    assert forall|k: int, l: int| 0 <= k < o.len() && 0 <= l < o.len() && k != l implies #[trigger] o[k] != #[trigger] o[l] by {
        assert(st.order[k] != st.order[l]);
    }
    assert(o.no_duplicates());
    o.unique_seq_to_set();
    assert forall|x: int| o.to_set().contains(x) <==> set_int_range(0, n).contains(x) by {
        if 0 <= x < n {
            assert(st.results[x] is Some);
            assert(st.order.contains(x as usize));
            let k = choose|k: int| 0 <= k < st.order.len() && st.order[k] == x as usize;
            assert(o[k] == x);
        }
        if o.to_set().contains(x) {
            let k = choose|k: int| 0 <= k < o.len() && o[k] == x;
            assert(st.order[k] < n);
        }
    }
    assert(o.to_set() =~= set_int_range(0, n));
    lemma_int_range(0, n);
    assert forall|i: usize| i < n implies #[trigger] st.order.contains(i) by {
        assert(st.results[i as int] is Some);
    }
}

} // verus!
