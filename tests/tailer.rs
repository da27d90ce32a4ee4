use svmgr::tailer::{Action, Event, FailReason, TailState, Tailer, DEFAULT_ATTEMPTS};

fn following(len: u64) -> Tailer {
    let mut t = Tailer::new(DEFAULT_ATTEMPTS);
    assert_eq!(t.on_event(Event::FileWatched { len }), Action::Wait);
    assert_eq!(t.state, TailState::WatchingFile);
    t
}

#[test]
fn truncation_is_reported() {
    let mut t = following(100);
    assert_eq!(t.on_event(Event::Modified { len: 150 }), Action::Drain);
    assert_eq!(t.on_event(Event::Drained { consumed: 50 }), Action::Wait);
    assert_eq!(t.position, 150);
    assert_eq!(t.on_event(Event::Modified { len: 20 }), Action::Retry(FailReason::Truncated));
    assert_eq!(t.state, TailState::Init);
    assert_eq!(t.attempts, 1);
}

#[test]
fn rotation_resets_position() {
    let mut t = following(100);
    assert_eq!(t.on_event(Event::Replaced), Action::Reopen);
    assert_eq!(t.position, 0);
    assert_eq!(t.state, TailState::WatchingFile);
    assert_eq!(t.on_event(Event::Modified { len: 10 }), Action::Drain);
}

#[test]
fn gives_up_after_attempts() {
    let mut t = Tailer::new(DEFAULT_ATTEMPTS);
    assert_eq!(t.on_event(Event::Failure), Action::Retry(FailReason::Error));
    assert_eq!(t.on_event(Event::Failure), Action::Retry(FailReason::Error));
    assert_eq!(t.on_event(Event::Failure), Action::GiveUp(FailReason::Error));
    assert_eq!(t.state, TailState::Failed);
    assert_eq!(t.on_event(Event::FileWatched { len: 0 }), Action::GiveUp(FailReason::Error));
}

#[test]
fn missing_file_waits_for_creation() {
    let mut t = Tailer::new(DEFAULT_ATTEMPTS);
    assert_eq!(t.on_event(Event::FileMissing), Action::WatchDirectory);
    assert_eq!(t.on_event(Event::DirectoryWatched), Action::Wait);
    assert_eq!(t.state, TailState::WatchingDirectory);
    assert_eq!(t.on_event(Event::Created { is_log_file: false }), Action::Wait);
    assert_eq!(t.on_event(Event::Created { is_log_file: true }), Action::WatchFile);
    assert_eq!(t.on_event(Event::FileWatched { len: 77 }), Action::Wait);
    assert_eq!(t.position, 0);
}

#[test]
fn position_saturates() {
    let mut t = following(u64::MAX - 1);
    assert_eq!(t.on_event(Event::Drained { consumed: 5 }), Action::Wait);
    assert_eq!(t.position, u64::MAX);
}
