use wenv::watch::ChangeKind;
use wenv::watch::RegistrationOutcome;
use wenv::watch::SpawnDecision;
use wenv::watch::Supervisor;
use wenv::watch::WatchAction;
use wenv::watch::WatchEvent;
use wenv::watch::registration_outcome;
use wenv::watch::spawn_decision;

fn change(kind: ChangeKind, at_ms: u64) -> WatchEvent {
    WatchEvent::Change { kind, at_ms }
}

#[test]
fn debounce_second_event_within_window_is_dropped() {
    let mut s = Supervisor::new(1000);
    assert_eq!(s.step(&change(ChangeKind::Modified, 1201)), WatchAction::Restart);
    // 150 ms after the accepted restart: inside the window.
    assert_eq!(s.step(&change(ChangeKind::Modified, 1351)), WatchAction::Ignore);
}

#[test]
fn debounce_second_event_outside_window_restarts_again() {
    let mut s = Supervisor::new(1000);
    assert_eq!(s.step(&change(ChangeKind::Modified, 1201)), WatchAction::Restart);
    // 201 ms after the accepted restart: outside the window.
    assert_eq!(s.step(&change(ChangeKind::Modified, 1402)), WatchAction::Restart);
}

#[test]
fn debounce_window_boundary_is_strict() {
    let mut s = Supervisor::new(1000);
    // Exactly 200 ms after the initial run: not strictly more, dropped.
    assert_eq!(s.step(&change(ChangeKind::Modified, 1200)), WatchAction::Ignore);
    assert_eq!(s.step(&change(ChangeKind::Modified, 1201)), WatchAction::Restart);
}

#[test]
fn dropped_event_does_not_reopen_the_window() {
    let mut s = Supervisor::new(1000);
    assert_eq!(s.step(&change(ChangeKind::Modified, 1201)), WatchAction::Restart);
    assert_eq!(s.step(&change(ChangeKind::Modified, 1300)), WatchAction::Ignore);
    // Still measured from the restart at 1201, not from the dropped event.
    assert_eq!(s.step(&change(ChangeKind::Modified, 1402)), WatchAction::Restart);
}

#[test]
fn creations_qualify_like_modifications() {
    let mut s = Supervisor::new(0);
    assert_eq!(s.step(&change(ChangeKind::Created, 500)), WatchAction::Restart);
}

#[test]
fn deletions_and_other_events_are_ignored() {
    let mut s = Supervisor::new(0);
    assert_eq!(s.step(&change(ChangeKind::Removed, 500)), WatchAction::Ignore);
    assert_eq!(s.step(&change(ChangeKind::Other, 900)), WatchAction::Ignore);
    // The ignored events did not move the debounce window.
    assert_eq!(s.step(&change(ChangeKind::Modified, 901)), WatchAction::Restart);
}

#[test]
fn closed_channel_means_exit() {
    let mut s = Supervisor::new(0);
    assert_eq!(s.step(&WatchEvent::Closed), WatchAction::Exit);
}

#[test]
fn spawn_follows_load_success_alone() {
    assert_eq!(spawn_decision(true), SpawnDecision::Spawn);
    assert_eq!(spawn_decision(false), SpawnDecision::SkipSpawn);
}

#[test]
fn watch_resilience_failed_registration_warns_and_continues() {
    // A failed registration is a warning, never an abort; the supervisor
    // still runs the command and reacts to the files that did register.
    assert_eq!(registration_outcome(false), RegistrationOutcome::WarnAndContinue);
    assert_eq!(registration_outcome(true), RegistrationOutcome::Watching);
    let mut s = Supervisor::new(0);
    assert_eq!(spawn_decision(true), SpawnDecision::Spawn);
    assert_eq!(s.step(&change(ChangeKind::Modified, 300)), WatchAction::Restart);
}
