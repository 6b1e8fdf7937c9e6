//! The session driver's decision logic: a pure transition function from
//! state and event to next state and action.
//!
//! The caller runs the loop around it: it reads input, performs searches,
//! prints, and exits — and hands each outcome back as the next event. Every
//! decision of the interactive session is taken here.

use vstd::prelude::*;

verus! {

/// Where the interactive session stands.
#[derive(Clone, Copy, Debug, PartialEq, Eq, Structural)]
pub enum SessionState {
    /// Waiting for the user's next line of input.
    AwaitingQuery,
    /// A search is running.
    Searching,
    /// Search results are being presented.
    PresentingResults,
    /// The first entries of the index are being listed (empty query).
    BrowsingEntries,
    /// The session is over.
    Terminated,
}

/// What just happened.
#[derive(Debug)]
pub enum SessionEvent {
    /// One line of input was read; an empty line asks for the browse
    /// listing instead of a search.
    QueryLine(String),
    /// The user sent the interrupt signal while the session waited.
    Interrupt,
    /// The input channel failed.
    InputFailure,
    /// The running search finished.
    WorkDone,
    /// The current presentation (results or browse listing) was shown.
    Presented,
}

/// What the caller must do next.
#[derive(Debug)]
pub enum SessionAction {
    /// Run a search for this term and report back with `WorkDone`.
    StartSearch(String),
    /// Show the browse listing and report back with `Presented`.
    ShowEntries,
    /// Show the search results and report back with `Presented`.
    ShowResults,
    /// Read the next line of input.
    AwaitInput,
    /// Exit the process with success.
    ExitSuccess,
    /// Report the input failure and exit.
    ReportInputError,
    /// Nothing: the event does not apply to the state.
    NoAction,
}

/// The transition table of the session: next state and action for every
/// state and event. An event that does not apply to a state leaves the
/// state unchanged; `Terminated` is final.
pub open spec fn session_spec(state: SessionState, event: SessionEvent) -> (
    SessionState,
    SessionAction,
) {
    match state {
        SessionState::AwaitingQuery => match event {
            SessionEvent::QueryLine(q) => if q@.len() == 0 {
                (SessionState::BrowsingEntries, SessionAction::ShowEntries)
            } else {
                (SessionState::Searching, SessionAction::StartSearch(q))
            },
            SessionEvent::Interrupt => (SessionState::Terminated, SessionAction::ExitSuccess),
            SessionEvent::InputFailure => (
                SessionState::Terminated,
                SessionAction::ReportInputError,
            ),
            _ => (state, SessionAction::NoAction),
        },
        SessionState::Searching => match event {
            SessionEvent::WorkDone => (
                SessionState::PresentingResults,
                SessionAction::ShowResults,
            ),
            _ => (state, SessionAction::NoAction),
        },
        SessionState::PresentingResults => match event {
            SessionEvent::Presented => (SessionState::AwaitingQuery, SessionAction::AwaitInput),
            _ => (state, SessionAction::NoAction),
        },
        SessionState::BrowsingEntries => match event {
            SessionEvent::Presented => (SessionState::AwaitingQuery, SessionAction::AwaitInput),
            _ => (state, SessionAction::NoAction),
        },
        SessionState::Terminated => (state, SessionAction::NoAction),
    }
}

/// Takes one step of the session: exactly the transition table.
pub fn session_step(state: SessionState, event: SessionEvent) -> (r: (SessionState, SessionAction))
    ensures
        r == session_spec(state, event),
{
    match state {
        SessionState::AwaitingQuery => match event {
            SessionEvent::QueryLine(q) => {
                if q.as_str().unicode_len() == 0 {
                    (SessionState::BrowsingEntries, SessionAction::ShowEntries)
                } else {
                    (SessionState::Searching, SessionAction::StartSearch(q))
                }
            },
            SessionEvent::Interrupt => (SessionState::Terminated, SessionAction::ExitSuccess),
            SessionEvent::InputFailure => (
                SessionState::Terminated,
                SessionAction::ReportInputError,
            ),
            _ => (state, SessionAction::NoAction),
        },
        SessionState::Searching => match event {
            SessionEvent::WorkDone => (
                SessionState::PresentingResults,
                SessionAction::ShowResults,
            ),
            _ => (state, SessionAction::NoAction),
        },
        SessionState::PresentingResults => match event {
            SessionEvent::Presented => (SessionState::AwaitingQuery, SessionAction::AwaitInput),
            _ => (state, SessionAction::NoAction),
        },
        SessionState::BrowsingEntries => match event {
            SessionEvent::Presented => (SessionState::AwaitingQuery, SessionAction::AwaitInput),
            _ => (state, SessionAction::NoAction),
        },
        SessionState::Terminated => (state, SessionAction::NoAction),
    }
}

} // verus!
