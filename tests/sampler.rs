use ocdscope::sampler::{
    active_signals_after, fatal_error_notifications, is_lagging, next_status, plan_tick,
    status_notification, Notification, Status, ThreadCommand,
};
use ocdscope::sampler::Status::{Initializing, Paused, Sampling, Terminated};

#[test]
fn lifecycle_transitions() {
    assert_eq!(next_status(Sampling, &ThreadCommand::Pause), Paused);
    assert_eq!(next_status(Paused, &ThreadCommand::Resume), Sampling);
    assert_eq!(next_status(Sampling, &ThreadCommand::Resume), Sampling);
    assert_eq!(next_status(Paused, &ThreadCommand::Pause), Paused);
    assert_eq!(next_status(Paused, &ThreadCommand::Stop), Terminated);
    assert_eq!(next_status(Initializing, &ThreadCommand::Stop), Terminated);
    assert_eq!(next_status(Terminated, &ThreadCommand::Resume), Terminated);
    assert_eq!(next_status(Sampling, &ThreadCommand::SetActiveSignals(vec![1])), Sampling);
}

#[test]
fn active_signals_and_notifications() {
    assert_eq!(active_signals_after(vec![1, 2], &ThreadCommand::SetActiveSignals(vec![7])), vec![7]);
    assert_eq!(active_signals_after(vec![1, 2], &ThreadCommand::Pause), vec![1, 2]);
    assert!(status_notification(Sampling, Sampling).is_none());
    assert!(matches!(
        status_notification(Status::Initializing, Status::Sampling),
        Some(Notification::NewStatus(Status::Sampling))
    ));
    let n = fatal_error_notifications("boom".to_string());
    assert!(matches!(&n[0], Notification::Error(m) if m == "boom"));
    assert!(matches!(n[1], Notification::NewStatus(Status::Terminated)));
}

#[test]
fn scheduler_accumulates_deadlines() {
    let t = plan_tick(1000, 100, 1030);
    assert_eq!((t.due, t.sleep), (1100, 70));
    let late = plan_tick(1100, 100, 1250);
    assert_eq!((late.due, late.sleep), (1200, 0));
    assert!(is_lagging(1200, 100, 1251));
    assert!(!is_lagging(1200, 100, 1250));
    assert!(!is_lagging(1200, 100, 1100));
}
