use rust_apps::port_tester::{line_message, reader_step, ReadOutcome, ReaderAction};
use rust_apps::session::{
    first_action, session_step, SessionAction, SessionEvent, SessionState, RECONNECT_DELAY_SECS,
};

fn is_play(a: &SessionAction, k: usize) -> bool {
    matches!(a, SessionAction::PlayTrack(i) if *i == k)
}

#[test]
fn session_plays_cycle_then_builds_next() {
    assert!(matches!(first_action(), SessionAction::Connect));
    let s = SessionState::new();
    let (s, a) = session_step(&s, SessionEvent::Connected);
    assert!(s.connected);
    assert!(matches!(a, SessionAction::BuildCycle));
    let (s, a) = session_step(&s, SessionEvent::CycleBuilt(3));
    assert!(is_play(&a, 0));
    let (s, a) = session_step(&s, SessionEvent::TrackDone);
    assert!(is_play(&a, 1));
    let (s, a) = session_step(&s, SessionEvent::TrackDone);
    assert!(is_play(&a, 2));
    let (s, a) = session_step(&s, SessionEvent::TrackDone);
    assert!(matches!(a, SessionAction::BuildCycle));
    assert!(s.connected);
}

#[test]
fn session_rebuilds_after_empty_cycle() {
    let (s, _) = session_step(&SessionState::new(), SessionEvent::Connected);
    let (_, a) = session_step(&s, SessionEvent::CycleBuilt(0));
    assert!(matches!(a, SessionAction::BuildCycle));
}

#[test]
fn session_pauses_then_reconnects_on_failures() {
    let (s, a) = session_step(&SessionState::new(), SessionEvent::ConnectFailed);
    assert!(matches!(a, SessionAction::Pause(5)));
    assert_eq!(RECONNECT_DELAY_SECS, 5);
    let (s, a) = session_step(&s, SessionEvent::Paused);
    assert!(matches!(a, SessionAction::Connect));
    let (s, _) = session_step(&s, SessionEvent::Connected);
    let (s, _) = session_step(&s, SessionEvent::CycleBuilt(4));
    let (s, a) = session_step(&s, SessionEvent::TrackFailed);
    assert!(!s.connected);
    assert!(matches!(a, SessionAction::Pause(5)));
}

#[test]
fn reader_decisions() {
    assert!(matches!(reader_step(ReadOutcome::Closed), ReaderAction::Stop));
    assert!(matches!(reader_step(ReadOutcome::Failed), ReaderAction::Stop));
    assert!(matches!(reader_step(ReadOutcome::Data(12)), ReaderAction::ReadAgain));
    assert!(matches!(reader_step(ReadOutcome::WouldBlock), ReaderAction::Wait(100)));
}

#[test]
fn typed_line_gets_a_line_feed() {
    assert_eq!(line_message("hello"), "hello\n");
    assert_eq!(line_message(""), "\n");
}
