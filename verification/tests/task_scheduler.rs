use reader_core::task_scheduler::{ChapterTaskScheduler, FinishAction, SubmitAction};

#[test]
fn slots_submit_then_finish_clears() {
    let mut s = ChapterTaskScheduler::new();
    assert_eq!(s.submit(0), SubmitAction::StartNow);
    assert!(s.is_running(0));
    assert!(!s.has_pending(0));
    assert_eq!(s.task_finished(0), FinishAction::Cleared);
    assert_eq!(s.active_count(), 0);
    assert!(s.is_idle());
}

#[test]
fn slots_latest_submission_replaces_pending() {
    let mut s = ChapterTaskScheduler::new();
    assert_eq!(s.submit(0), SubmitAction::StartNow);
    assert_eq!(s.submit(0), SubmitAction::Queue);
    assert_eq!(s.submit(0), SubmitAction::Queue);
    assert!(s.is_running(0));
    assert!(s.has_pending(0));
    assert_eq!(s.active_count(), 1);
    assert_eq!(s.task_finished(0), FinishAction::StartPending);
    assert!(s.is_running(0));
    assert!(!s.has_pending(0));
    assert_eq!(s.task_finished(0), FinishAction::Cleared);
    assert_eq!(s.active_count(), 0);
}

#[test]
fn slots_cancel_drops_running_and_pending() {
    let mut s = ChapterTaskScheduler::new();
    s.submit(3);
    s.submit(3);
    s.cancel(3);
    assert!(!s.is_running(3));
    assert!(!s.has_pending(3));
    assert_eq!(s.active_count(), 0);
    // the cancelled task reporting its end afterwards changes nothing
    assert_eq!(s.task_finished(3), FinishAction::NoSlot);
    assert_eq!(s.active_count(), 0);
}

#[test]
fn slots_chapters_are_independent() {
    let mut s = ChapterTaskScheduler::new();
    assert_eq!(s.submit(0), SubmitAction::StartNow);
    assert_eq!(s.submit(1), SubmitAction::StartNow);
    assert_eq!(s.task_finished(1), FinishAction::Cleared);
    assert!(s.is_running(0));
    assert!(!s.is_running(1));
    assert_eq!(s.active_count(), 1);
    s.cancel(0);
    assert_eq!(s.active_count(), 0);
}

#[test]
fn slots_cancel_all_empties() {
    let mut s = ChapterTaskScheduler::new();
    for i in 0..5 {
        assert_eq!(s.submit(i), SubmitAction::StartNow);
    }
    s.submit(2);
    assert_eq!(s.active_count(), 5);
    s.cancel_all();
    assert!(s.is_idle());
    assert!(!s.has_pending(2));
}
