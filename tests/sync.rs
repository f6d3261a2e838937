use asdf_sync::filter::{contains_name, select, PluginRef};
use asdf_sync::report::{OutcomeKind, SyncEntry, SyncOutcome, SyncReport, TaskError};
use asdf_sync::scheduler::{run, SyncError, SyncScheduler, SyncTask};

fn plugins(names: &[&str]) -> Vec<PluginRef> {
    names.iter().map(|n| PluginRef::new(n.to_string())).collect()
}

fn strings(names: &[&str]) -> Vec<String> {
    names.iter().map(|n| n.to_string()).collect()
}

fn names_of(ps: &[PluginRef]) -> Vec<String> {
    ps.iter().map(|p| p.name.clone()).collect()
}

fn entry_names(r: &SyncReport) -> Vec<String> {
    r.outcomes.iter().map(|e| e.plugin.name.clone()).collect()
}

fn is_cancelled_skip(o: &SyncOutcome) -> bool {
    matches!(o, SyncOutcome::Skipped(reason) if reason == "cancelled")
}

/// Fails the plugins whose names it was given; the others succeed.
struct FailSome {
    failing: Vec<String>,
    calls: Vec<String>,
}

impl SyncTask for FailSome {
    fn execute(&mut self, plugin: &PluginRef) -> SyncOutcome {
        self.calls.push(plugin.name.clone());
        if self.failing.contains(&plugin.name) {
            SyncOutcome::Failed(TaskError::TaskFailure(format!("cannot update {}", plugin.name)))
        } else {
            SyncOutcome::Succeeded
        }
    }
}

#[test]
fn select_only_and_exclude() {
    let r = select(&plugins(&["a", "b", "c"]), &strings(&["a", "b"]), &strings(&["b"]));
    assert_eq!(names_of(&r), strings(&["a"]));
}

#[test]
fn select_exclude_without_only() {
    let r = select(&plugins(&["a", "b", "c"]), &strings(&[]), &strings(&["c"]));
    assert_eq!(names_of(&r), strings(&["a", "b"]));
}

#[test]
fn select_keeps_order_of_all() {
    let r = select(&plugins(&["d", "a", "c", "b"]), &strings(&["b", "c", "d"]), &strings(&[]));
    assert_eq!(names_of(&r), strings(&["d", "c", "b"]));
}

#[test]
fn select_ignores_unknown_names() {
    let r = select(&plugins(&["a", "b"]), &strings(&["zz", "b"]), &strings(&["yy"]));
    assert_eq!(names_of(&r), strings(&["b"]));
    let none = select(&plugins(&["a", "b"]), &strings(&["zz"]), &strings(&[]));
    assert!(none.is_empty());
}

#[test]
fn select_empty_inputs() {
    assert!(select(&plugins(&[]), &strings(&["a"]), &strings(&["b"])).is_empty());
    let all = select(&plugins(&["a", "b"]), &strings(&[]), &strings(&[]));
    assert_eq!(names_of(&all), strings(&["a", "b"]));
}

#[test]
fn select_is_a_subset_without_duplicates() {
    let all = plugins(&["nodejs", "python", "ruby", "golang", "java"]);
    let r = select(&all, &strings(&["ruby", "nodejs", "java", "ruby"]), &strings(&["java"]));
    assert_eq!(names_of(&r), strings(&["nodejs", "ruby"]));
    for p in &r {
        assert!(names_of(&all).contains(&p.name));
    }
}

#[test]
fn contains_name_matches_whole_names() {
    let names = strings(&["node", "python"]);
    assert!(contains_name(&names, &"python".to_string()));
    assert!(!contains_name(&names, &"nodejs".to_string()));
    assert!(!contains_name(&strings(&[]), &"node".to_string()));
}

#[test]
fn zero_concurrency_is_rejected() {
    assert_eq!(SyncScheduler::new(plugins(&["a"]), 0).err(), Some(SyncError::InvalidConcurrency));
    let mut task = FailSome { failing: vec![], calls: vec![] };
    let r = run(plugins(&["a", "b"]), 0, &mut task);
    assert_eq!(r.err(), Some(SyncError::InvalidConcurrency));
    assert!(task.calls.is_empty());
}

#[test]
fn empty_selection_finishes_at_once() {
    let mut s = SyncScheduler::new(plugins(&[]), 4).unwrap();
    assert!(s.is_finished());
    assert!(s.dispatch().is_empty());
    let r = s.report();
    assert_eq!(r.total(), 0);
    assert!(r.all_succeeded());

    let mut task = FailSome { failing: vec![], calls: vec![] };
    let r = run(plugins(&[]), 2, &mut task).unwrap();
    assert_eq!(r.total(), 0);
    assert!(r.all_succeeded());
}

#[test]
fn failing_task_does_not_stop_others() {
    let mut task = FailSome { failing: strings(&["b"]), calls: vec![] };
    let r = run(plugins(&["a", "b", "c"]), 2, &mut task).unwrap();
    assert_eq!(r.total(), 3);
    assert_eq!(r.succeeded(), 2);
    assert_eq!(r.failed(), 1);
    assert_eq!(r.skipped(), 0);
    assert!(!r.all_succeeded());
    assert_eq!(entry_names(&r), strings(&["a", "b", "c"]));
    assert_eq!(task.calls, strings(&["a", "b", "c"]));
}

#[test]
fn dispatch_respects_the_limit() {
    let mut s = SyncScheduler::new(plugins(&["a", "b", "c", "d", "e"]), 2).unwrap();
    let first = s.dispatch();
    assert_eq!(first.len(), 2);
    assert_eq!((first[0].index, first[0].slot, first[0].plugin.name.as_str()), (0, 0, "a"));
    assert_eq!((first[1].index, first[1].slot, first[1].plugin.name.as_str()), (1, 1, "b"));
    assert!(s.dispatch().is_empty());
    assert!(s.complete(1, SyncOutcome::Succeeded));
    let second = s.dispatch();
    assert_eq!(second.len(), 1);
    assert_eq!((second[0].index, second[0].slot, second[0].plugin.name.as_str()), (2, 1, "c"));
    assert!(!s.is_finished());
}

#[test]
fn outcomes_follow_completion_order_and_cover_selection_once() {
    let mut s = SyncScheduler::new(plugins(&["a", "b", "c"]), 3).unwrap();
    assert_eq!(s.dispatch().len(), 3);
    assert!(s.complete(2, SyncOutcome::Succeeded));
    assert!(s.complete(0, SyncOutcome::Failed(TaskError::Timeout)));
    assert!(!s.is_finished());
    assert!(s.complete(1, SyncOutcome::Skipped("already up to date".to_string())));
    assert!(s.is_finished());
    let r = s.report();
    assert_eq!(entry_names(&r), strings(&["c", "a", "b"]));
    assert_eq!((r.total(), r.succeeded(), r.failed(), r.skipped()), (3, 1, 1, 1));
    assert!(matches!(r.outcomes[1].outcome, SyncOutcome::Failed(TaskError::Timeout)));
}

#[test]
fn stray_completions_are_discarded() {
    let mut s = SyncScheduler::new(plugins(&["a", "b", "c"]), 1).unwrap();
    assert_eq!(s.dispatch().len(), 1);
    // not admitted yet
    assert!(!s.complete(1, SyncOutcome::Succeeded));
    // out of range
    assert!(!s.complete(7, SyncOutcome::Succeeded));
    assert!(s.complete(0, SyncOutcome::Succeeded));
    // already recorded
    assert!(!s.complete(0, SyncOutcome::Failed(TaskError::Timeout)));
    assert_eq!(s.dispatch()[0].index, 1);
}

#[test]
fn cancel_mid_flight_keeps_real_outcomes() {
    let mut s = SyncScheduler::new(plugins(&["a", "b", "c", "d"]), 2).unwrap();
    assert_eq!(s.dispatch().len(), 2);
    assert!(s.complete(1, SyncOutcome::Failed(TaskError::TaskFailure("network".to_string()))));
    let r = s.cancel();
    assert_eq!(r.total(), 4);
    assert_eq!(entry_names(&r), strings(&["b", "a", "c", "d"]));
    assert!(matches!(&r.outcomes[0].outcome, SyncOutcome::Failed(TaskError::TaskFailure(d)) if d == "network"));
    for e in &r.outcomes[1..] {
        assert!(is_cancelled_skip(&e.outcome));
    }
    assert_eq!((r.succeeded(), r.failed(), r.skipped()), (0, 1, 3));
    // the run is over: nothing more starts, late completions are dropped
    assert!(s.is_finished());
    assert!(s.dispatch().is_empty());
    assert!(!s.complete(0, SyncOutcome::Succeeded));
    assert_eq!(s.report().total(), 4);
}

#[test]
fn cancel_after_completion_changes_nothing() {
    let mut s = SyncScheduler::new(plugins(&["a"]), 1).unwrap();
    s.dispatch();
    assert!(s.complete(0, SyncOutcome::Succeeded));
    let r = s.cancel();
    assert_eq!(r.total(), 1);
    assert!(r.all_succeeded());
}

#[test]
fn cancelled_outcome_reads_cancelled() {
    assert!(is_cancelled_skip(&SyncOutcome::cancelled()));
    assert_eq!(SyncOutcome::cancelled().kind(), OutcomeKind::Skipped);
}

#[test]
fn report_counts_by_kind() {
    let mut outcomes = Vec::new();
    for (name, o) in [
        ("a", SyncOutcome::Succeeded),
        ("b", SyncOutcome::Skipped("already up to date".to_string())),
        ("c", SyncOutcome::Succeeded),
        ("d", SyncOutcome::Failed(TaskError::Timeout)),
    ] {
        outcomes.push(SyncEntry { plugin: PluginRef::new(name.to_string()), outcome: o });
    }
    let r = SyncReport { outcomes };
    assert_eq!(r.total(), 4);
    assert_eq!(r.count(OutcomeKind::Succeeded), 2);
    assert_eq!(r.succeeded(), 2);
    assert_eq!(r.skipped(), 1);
    assert_eq!(r.failed(), 1);
    assert!(!r.all_succeeded());
    assert!(SyncReport::empty().all_succeeded());
}
