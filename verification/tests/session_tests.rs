use word_chain::ServerState;
use word_chain::SessionEvent;
use word_chain::SessionOutcome;
use word_chain::session::session_step;

fn fixture() -> ServerState {
    let list: Vec<String> = ["tap", "cat", "tiger"].iter().map(|w| w.to_string()).collect();
    ServerState::new_with_word(list, "tap").unwrap()
}

fn line(text: &str) -> SessionEvent {
    SessionEvent::Line { line: text.to_string() }
}

#[test]
fn accepted_guess_replies_and_publishes() {
    let mut state = fixture();
    let out = session_step(&mut state, line("guess cat"));
    assert_eq!(out, SessionOutcome::Reply { line: "accept\n".to_string(), publish: true });
    assert_eq!(state.current_word(), "cat");
}

#[test]
fn rejected_guess_replies_without_publishing() {
    let mut state = fixture();
    let out = session_step(&mut state, line("guess tiger"));
    assert_eq!(out, SessionOutcome::Reply { line: "reject\n".to_string(), publish: false });
    assert_eq!(state.current_word(), "tap");
}

#[test]
fn broadcast_wake_reads_latest_word() {
    let mut state = fixture();
    let out = session_step(&mut state, line("guess cat"));
    assert_eq!(out, SessionOutcome::Reply { line: "accept\n".to_string(), publish: true });
    let wake = session_step(&mut state, SessionEvent::Notified);
    assert_eq!(wake, SessionOutcome::Reply { line: "update cat\n".to_string(), publish: false });
    assert_eq!(state.current_word(), "cat");
}

#[test]
fn exit_closes_without_touching_state() {
    let mut state = fixture();
    let out = session_step(&mut state, line("exit"));
    assert_eq!(out, SessionOutcome::Close);
    assert_eq!(state.current_word(), "tap");
    let mut other = fixture();
    assert!(other.try_accept("cat"));
    assert_eq!(other.current_word(), "cat");
}

#[test]
fn malformed_line_is_ignored_and_session_continues() {
    let mut state = fixture();
    assert_eq!(session_step(&mut state, line("frobnicate")), SessionOutcome::Ignored);
    assert_eq!(session_step(&mut state, line("")), SessionOutcome::Ignored);
    assert_eq!(state.current_word(), "tap");
    let out = session_step(&mut state, line("guess cat"));
    assert_eq!(out, SessionOutcome::Reply { line: "accept\n".to_string(), publish: true });
}

#[test]
fn end_of_input_closes_the_session() {
    let mut state = fixture();
    assert_eq!(session_step(&mut state, SessionEvent::InputClosed), SessionOutcome::Close);
    assert_eq!(state.current_word(), "tap");
}

#[test]
fn broadcast_teardown_closes_the_session() {
    let mut state = fixture();
    assert_eq!(session_step(&mut state, SessionEvent::NotifyClosed), SessionOutcome::Close);
    assert_eq!(state.current_word(), "tap");
}
