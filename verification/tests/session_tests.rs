use image_text_search::session::{session_step, SessionAction, SessionEvent, SessionState};

#[test]
fn nonempty_input_starts_a_search() {
    let (state, action) = session_step(
        SessionState::AwaitingQuery,
        SessionEvent::QueryLine(String::from("invoice")),
    );
    assert_eq!(state, SessionState::Searching);
    assert!(matches!(action, SessionAction::StartSearch(q) if q == "invoice"));
}

#[test]
fn empty_input_browses_instead_of_searching() {
    let (state, action) =
        session_step(SessionState::AwaitingQuery, SessionEvent::QueryLine(String::new()));
    assert_eq!(state, SessionState::BrowsingEntries);
    assert!(matches!(action, SessionAction::ShowEntries));
}

#[test]
fn interrupt_terminates_with_success() {
    let (state, action) = session_step(SessionState::AwaitingQuery, SessionEvent::Interrupt);
    assert_eq!(state, SessionState::Terminated);
    assert!(matches!(action, SessionAction::ExitSuccess));
}

#[test]
fn input_failure_is_reported_and_terminates() {
    let (state, action) = session_step(SessionState::AwaitingQuery, SessionEvent::InputFailure);
    assert_eq!(state, SessionState::Terminated);
    assert!(matches!(action, SessionAction::ReportInputError));
}

#[test]
fn search_flows_through_presentation_back_to_input() {
    let (state, action) = session_step(SessionState::Searching, SessionEvent::WorkDone);
    assert_eq!(state, SessionState::PresentingResults);
    assert!(matches!(action, SessionAction::ShowResults));
    let (state, action) = session_step(state, SessionEvent::Presented);
    assert_eq!(state, SessionState::AwaitingQuery);
    assert!(matches!(action, SessionAction::AwaitInput));
}

#[test]
fn browsing_returns_to_input() {
    let (state, action) = session_step(SessionState::BrowsingEntries, SessionEvent::Presented);
    assert_eq!(state, SessionState::AwaitingQuery);
    assert!(matches!(action, SessionAction::AwaitInput));
}

#[test]
fn terminated_is_final() {
    let (state, action) = session_step(
        SessionState::Terminated,
        SessionEvent::QueryLine(String::from("late")),
    );
    assert_eq!(state, SessionState::Terminated);
    assert!(matches!(action, SessionAction::NoAction));
}
