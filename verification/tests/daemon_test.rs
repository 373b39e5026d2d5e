use soullink_levelcap::daemon::{daemon_start, daemon_step, DaemonAction, DaemonEvent, DaemonState};

#[test]
fn daemon_starts_by_searching() {
    let (s, a) = daemon_start();
    assert!(matches!(s, DaemonState::Searching));
    assert!(matches!(a[..], [DaemonAction::FindCitra]));
}

#[test]
fn daemon_connects_and_ticks() {
    let (s, a) = daemon_step(&DaemonState::Searching, &DaemonEvent::CitraFound(42));
    assert!(matches!(s, DaemonState::Opening { pid: 42 }));
    assert!(matches!(a[..], [DaemonAction::OpenMemory(42)]));
    let (s, a) = daemon_step(&s, &DaemonEvent::MemoryOpened);
    assert!(matches!(s, DaemonState::Running { last_badges: None }));
    assert!(matches!(a[..], [DaemonAction::Tick]));
    let (s, a) = daemon_step(&s, &DaemonEvent::TickOk { last_badges: Some(3) });
    assert!(matches!(s, DaemonState::Running { last_badges: Some(3) }));
    assert!(matches!(a[..], [DaemonAction::Sleep { millis: 500 }, DaemonAction::Tick]));
}

#[test]
fn daemon_reconnects_after_two_seconds() {
    for (state, event) in [
        (DaemonState::Searching, DaemonEvent::CitraNotFound),
        (DaemonState::Opening { pid: 1 }, DaemonEvent::MemoryOpenFailed),
        (DaemonState::Running { last_badges: Some(2) }, DaemonEvent::TickFailed),
    ] {
        let (s, a) = daemon_step(&state, &event);
        assert!(matches!(s, DaemonState::Searching));
        assert!(matches!(a[..], [DaemonAction::Sleep { millis: 2000 }, DaemonAction::FindCitra]));
    }
}
