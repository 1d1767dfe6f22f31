use event_watcher::watcher::{simulate, step, WatcherAction, WatcherEvent, WatcherStatus};

fn tick(task_failed: bool) -> WatcherEvent {
    WatcherEvent::Tick { task_failed }
}

#[test]
fn cancel_before_any_tick_runs_nothing() {
    assert_eq!(simulate(&vec![WatcherEvent::Cancel]), 0);
}

#[test]
fn ticks_then_cancel_counts_exactly_the_ticks() {
    let evs = vec![
        tick(false),
        tick(true),
        tick(false),
        WatcherEvent::Cancel,
        tick(false),
        tick(false),
    ];
    assert_eq!(simulate(&evs), 3);
}

#[test]
fn no_observations_no_invocations() {
    assert_eq!(simulate(&Vec::new()), 0);
}

#[test]
fn every_tick_runs_when_never_cancelled() {
    let evs = vec![tick(false), tick(true), tick(true), tick(false)];
    assert_eq!(simulate(&evs), 4);
}

#[test]
fn task_failure_is_not_fatal() {
    let (status, action) = step(WatcherStatus::Running, tick(true));
    assert_eq!(status, WatcherStatus::Running);
    assert_eq!(action, WatcherAction::Continue);
}

#[test]
fn cancellation_stops_the_loop() {
    let (status, action) = step(WatcherStatus::Running, WatcherEvent::Cancel);
    assert_eq!(status, WatcherStatus::Stopped);
    assert_eq!(action, WatcherAction::Exit);
}

#[test]
fn stopped_is_terminal() {
    let (status, action) = step(WatcherStatus::Stopped, tick(false));
    assert_eq!(status, WatcherStatus::Stopped);
    assert_eq!(action, WatcherAction::Exit);
    let (status2, action2) = step(WatcherStatus::Stopped, WatcherEvent::Cancel);
    assert_eq!(status2, WatcherStatus::Stopped);
    assert_eq!(action2, WatcherAction::Exit);
}
