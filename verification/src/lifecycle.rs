//! The lifecycle controller: the states a running service passes through
//! and the transition function that decides, for each observed event,
//! the next state and whether the single shutdown action is enqueued.

use vstd::prelude::*;

verus! {

/// The state of the service process.
#[derive(Clone, Copy, Debug, PartialEq, Eq, Structural)]
pub enum Phase {
    /// Loading the store from disk and binding the interface endpoint.
    Starting,
    /// The dispatch loop is consuming read and write requests.
    Serving,
    /// A termination signal was observed and one `Exit` is enqueued;
    /// further signals are ignored.
    Draining,
    /// The final save is done and the dispatch loop has returned.
    Stopped,
}

/// An occurrence the lifecycle controller reacts to.
#[derive(Clone, Copy, Debug, PartialEq, Eq, Structural)]
pub enum Event {
    /// Startup finished: the store is loaded and the endpoint is bound.
    Started,
    /// An interrupt or terminate signal arrived.
    TermSignal,
    /// The dispatch loop processed `Exit` (or lost its channel, which is
    /// treated as an implicit `Exit`) and performed the final save.
    ExitDone,
}

/// The transition function: next state, and whether to enqueue the one
/// `Exit` action. Only the first termination signal observed while
/// serving enqueues it.
pub open spec fn spec_lifecycle(p: Phase, e: Event) -> (Phase, bool) {
    match (p, e) {
        (Phase::Starting, Event::Started) => (Phase::Serving, false),
        (Phase::Serving, Event::TermSignal) => (Phase::Draining, true),
        (_, Event::ExitDone) => (Phase::Stopped, false),
        _ => (p, false),
    }
}

/// Performs one lifecycle transition, exactly as [`spec_lifecycle`] says.
pub fn lifecycle_step(phase: Phase, event: Event) -> (r: (Phase, bool))
    ensures
        r == spec_lifecycle(phase, event),
{
    match (phase, event) {
        (Phase::Starting, Event::Started) => (Phase::Serving, false),
        (Phase::Serving, Event::TermSignal) => (Phase::Draining, true),
        (_, Event::ExitDone) => (Phase::Stopped, false),
        _ => (phase, false),
    }
}

/// Law: of two termination signals in a row, at most the first enqueues
/// an `Exit`; the drain state swallows the second, so a second `Exit` is
/// never issued.
pub proof fn lemma_second_signal_ignored(p: Phase)
    ensures
        !spec_lifecycle(spec_lifecycle(p, Event::TermSignal).0, Event::TermSignal).1,
{
}

} // verus!
