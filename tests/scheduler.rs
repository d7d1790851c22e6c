use yazi_core::location::{Location, Scheme};
use yazi_core::scheduler::{CancelOutcome, Directive, OpKind, Outcome, Request, Scheduler, TaskState};
use yazi_core::tasks::Tasks;

fn url(s: &str) -> Location {
    let comps: Vec<String> = s.split('/').filter(|c| !c.is_empty()).map(|c| c.to_string()).collect();
    Location::new(Scheme::Regular, comps)
}

fn copy(from: &str, to: &str) -> Request {
    Request { kind: OpKind::Copy, from: url(from), to: url(to), force: false, follow: false, relative: false }
}

fn state(s: &Scheduler, id: u64) -> TaskState {
    s.tasks().iter().find(|t| t.id == id).unwrap().state
}

#[test]
fn cancelled_queued_task_never_starts() {
    let mut s = Scheduler::new(1, 0);
    let a = s.submit(copy("/src/a", "/dst/a"));
    let b = s.submit(copy("/src/b", "/dst/b"));
    assert_eq!(s.cancel(b), CancelOutcome::Immediate);
    assert_eq!(s.start_next(), Some(a));
    assert_eq!(s.report(a, Outcome::Done), Directive::Finished);
    assert_eq!(s.start_next(), None);
    assert_eq!(state(&s, b), TaskState::Cancelled);
    assert_eq!(s.report(b, Outcome::Done), Directive::Ignored);
    assert_eq!(state(&s, b), TaskState::Cancelled);
    let sum = s.summary();
    assert_eq!((sum.succeeded, sum.cancelled, sum.running, sum.queued), (1, 1, 0, 0));
}

#[test]
fn cancelled_running_copy_removes_partial_output() {
    let mut s = Scheduler::new(2, 0);
    let a = s.submit(copy("/src/a", "/dst/a"));
    assert_eq!(s.start_next(), Some(a));
    assert!(!s.is_cancel_requested(a));
    assert_eq!(s.cancel(a), CancelOutcome::Requested);
    assert!(s.is_cancel_requested(a));
    assert_eq!(state(&s, a), TaskState::Running);
    assert_eq!(s.report(a, Outcome::Stopped), Directive::RemovePartial);
    assert_eq!(state(&s, a), TaskState::Cancelled);
    assert_eq!(s.cancel(a), CancelOutcome::NotFound);
}

#[test]
fn cancelled_running_move_keeps_source() {
    let mut s = Scheduler::new(2, 0);
    let a = s.submit(Request { kind: OpKind::Cut, ..copy("/src/a", "/dst/a") });
    assert_eq!(s.start_next(), Some(a));
    assert_eq!(s.cancel(a), CancelOutcome::Requested);
    assert_eq!(s.report(a, Outcome::Stopped), Directive::Finished);
}

#[test]
fn same_destination_runs_one_at_a_time_in_order() {
    let mut s = Scheduler::new(4, 0);
    let a = s.submit(copy("/one/f", "/dst/f"));
    let b = s.submit(copy("/two/f", "/dst/f"));
    let c = s.submit(copy("/two/g", "/dst/g"));
    let mut trace = vec![];
    assert_eq!(s.start_next(), Some(a));
    trace.push(a);
    // b waits for a; c may run beside it.
    assert_eq!(s.start_next(), Some(c));
    trace.push(c);
    assert_eq!(s.start_next(), None);
    assert_eq!(s.report(a, Outcome::Done), Directive::Finished);
    assert_eq!(s.start_next(), Some(b));
    trace.push(b);
    assert_eq!(trace, vec![a, c, b]);
}

#[test]
fn worker_limit_bounds_running_tasks() {
    let mut s = Scheduler::new(2, 0);
    for i in 0..4 {
        s.submit(copy(&format!("/s/{i}"), &format!("/d/{i}")));
    }
    assert!(s.start_next().is_some());
    assert!(s.start_next().is_some());
    assert_eq!(s.start_next(), None);
    assert_eq!(s.summary().running, 2);
    assert_eq!(s.summary().queued, 2);
}

#[test]
fn failed_task_does_not_stop_the_others() {
    let mut s = Scheduler::new(5, 0);
    let ids: Vec<u64> = (0..5).map(|i| s.submit(copy(&format!("/s/{i}"), &format!("/d/{i}")))).collect();
    for _ in 0..5 {
        assert!(s.start_next().is_some());
    }
    assert_eq!(s.report(ids[2], Outcome::Fatal), Directive::Finished);
    for (k, id) in ids.iter().enumerate() {
        if k != 2 {
            assert_eq!(s.report(*id, Outcome::Done), Directive::Finished);
        }
    }
    let sum = s.summary();
    assert_eq!((sum.succeeded, sum.failed), (4, 1));
}

#[test]
fn transient_errors_are_retried_up_to_the_limit() {
    let mut s = Scheduler::new(1, 2);
    let a = s.submit(copy("/s/a", "/d/a"));
    assert_eq!(s.start_next(), Some(a));
    assert_eq!(s.report(a, Outcome::Transient), Directive::Retry);
    assert_eq!(s.report(a, Outcome::Transient), Directive::Retry);
    assert_eq!(state(&s, a), TaskState::Running);
    assert_eq!(s.report(a, Outcome::Transient), Directive::Finished);
    assert_eq!(state(&s, a), TaskState::Failed);
    assert_eq!(s.tasks()[0].retries, 2);
}

#[test]
fn unknown_ids_are_ignored() {
    let mut s = Scheduler::new(1, 0);
    assert_eq!(s.cancel(7), CancelOutcome::NotFound);
    assert_eq!(s.report(7, Outcome::Done), Directive::Ignored);
    assert!(!s.is_cancel_requested(7));
    assert_eq!(s.len(), 0);
}

#[test]
fn forced_paste_onto_itself_is_not_submitted() {
    let mut t = Tasks::new(Scheduler::new(2, 0));
    let src = [url("/here/a"), url("/there/b")];
    t.file_copy(&src, &url("/here"), true, false);
    let tasks = t.get_scheduler().tasks();
    assert_eq!(tasks.len(), 1);
    assert!(tasks[0].req.from.same(&url("/there/b")));
    assert!(tasks[0].req.to.same(&url("/here/b")));
    assert_eq!(tasks[0].req.kind, OpKind::Copy);
}

#[test]
fn forced_cut_link_hardlink_onto_itself_are_not_submitted() {
    let mut t = Tasks::new(Scheduler::new(2, 0));
    let src = [url("/here/a")];
    t.file_cut(&src, &url("/here"), true);
    t.file_link(&src, &url("/here"), false, true);
    t.file_hardlink(&src, &url("/here"), true, false);
    assert_eq!(t.get_scheduler().len(), 0);
}

#[test]
fn unforced_paste_onto_itself_is_submitted() {
    let mut t = Tasks::new(Scheduler::new(2, 0));
    t.file_cut(&[url("/here/a")], &url("/here"), false);
    let tasks = t.get_scheduler().tasks();
    assert_eq!(tasks.len(), 1);
    assert!(tasks[0].req.to.same(&url("/here/a")));
    assert_eq!(tasks[0].req.kind, OpKind::Cut);
    assert_eq!(tasks[0].state, TaskState::Queued);
}

#[test]
fn link_options_are_carried() {
    let mut t = Tasks::new(Scheduler::new(2, 0));
    t.file_link(&[url("/s/a")], &url("/d"), true, false);
    t.file_hardlink(&[url("/s/b")], &url("/d"), false, true);
    let tasks = t.get_scheduler().tasks();
    assert!(tasks[0].req.relative && !tasks[0].req.force);
    assert_eq!(tasks[1].req.kind, OpKind::HardLink);
    assert!(tasks[1].req.follow && !tasks[1].req.relative);
    assert!(tasks[1].req.to.same(&url("/d/b")));
}

#[test]
fn remove_routes_to_delete_or_trash() {
    let mut t = Tasks::new(Scheduler::new(2, 0));
    t.file_remove(&[url("/x/a"), url("/x/b")], true);
    t.file_remove(&[url("/x/c")], false);
    let tasks = t.get_scheduler().tasks();
    assert_eq!(tasks.len(), 3);
    assert_eq!(tasks[0].req.kind, OpKind::Delete);
    assert_eq!(tasks[2].req.kind, OpKind::Trash);
    assert!(tasks[1].req.to.same(&url("/x/b")));
}

#[test]
fn dispatched_tasks_run_through_the_scheduler() {
    let mut t = Tasks::new(Scheduler::new(1, 0));
    t.file_copy(&[url("/s/a")], &url("/d"), false, false);
    let s = t.scheduler_mut();
    let id = s.start_next().unwrap();
    assert_eq!(s.report(id, Outcome::Done), Directive::Finished);
    assert_eq!(t.get_scheduler().summary().succeeded, 1);
}

#[test]
fn progress_is_recorded_for_running_tasks() {
    let mut s = Scheduler::new(2, 0);
    let a = s.submit(copy("/s/a", "/d/a"));
    let b = s.submit(copy("/s/b", "/d/b"));
    assert!(!s.advance(a, 5, 10));
    assert_eq!(s.start_next(), Some(a));
    assert!(s.advance(a, 5, 10));
    assert_eq!(s.start_next(), Some(b));
    assert!(s.advance(b, 1, 4));
    let sum = s.summary();
    assert_eq!((sum.processed, sum.total), (6, 14));
    assert!(s.advance(b, u64::MAX, u64::MAX));
    let sum = s.summary();
    assert_eq!((sum.processed, sum.total), (u64::MAX, u64::MAX));
}

#[test]
fn purge_drops_finished_tasks_only() {
    let mut s = Scheduler::new(1, 0);
    let a = s.submit(copy("/s/a", "/d/a"));
    let b = s.submit(copy("/s/b", "/d/b"));
    let c = s.submit(copy("/s/c", "/d/c"));
    assert_eq!(s.start_next(), Some(a));
    assert_eq!(s.report(a, Outcome::Fatal), Directive::Finished);
    assert_eq!(s.cancel(c), CancelOutcome::Immediate);
    assert_eq!(s.start_next(), Some(b));
    s.purge();
    assert_eq!(s.len(), 1);
    assert_eq!(s.tasks()[0].id, b);
    assert_eq!(s.report(b, Outcome::Done), Directive::Finished);
    s.purge();
    assert_eq!(s.len(), 0);
    let d = s.submit(copy("/s/d", "/d/d"));
    assert!(d > c);
}
