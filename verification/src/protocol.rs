use std::time::Duration;

use vstd::prelude::*;

verus! {

/// A request for a build.
#[derive(Clone, Debug)]
pub struct Build {}

/// An event of a build that the server reports.
#[derive(Copy, Clone, Debug, PartialEq, Eq, Structural)]
pub enum BuildEvent {
    Started,
    /// The build has finished.
    Finished,
}

/// The error the server answers with when a request fails.
#[derive(Clone, Debug)]
pub enum ResponseError {
    Other(String),
}

/// An item of a response body; zero or more follow a response.
#[derive(Copy, Clone, Debug, PartialEq, Eq, Structural)]
pub enum BodyItem {
    /// A build event, sent by the server when one happens.
    BuildEvent(usize),
}

/// A message to the idle timer of the server.
#[derive(Copy, Clone, Debug, PartialEq, Eq, Structural)]
pub enum ShutdownMessage {
    /// Restarts the timeout.
    ResetIdle,
    /// Shuts the server down now.
    Shutdown,
}

/// Why the server shuts down.
#[derive(Copy, Clone, Debug)]
pub enum ShutdownCause {
    /// Nothing happened for this long.
    Idle(Duration),
    ShutdownRequested,
}

/// What the idle timer does next.
#[derive(Copy, Clone, Debug)]
pub enum ShutdownAction {
    /// Start the countdown again from now.
    RestartTimer,
    /// Shut down, for this cause.
    Resolve(ShutdownCause),
}

/// The idle timer's response to a message: a reset restarts the countdown,
/// a shutdown request ends it.
pub fn on_shutdown_message(message: ShutdownMessage) -> (r: ShutdownAction)
    ensures
        message == ShutdownMessage::ResetIdle ==> r is RestartTimer,
        message == ShutdownMessage::Shutdown ==> r matches ShutdownAction::Resolve(ShutdownCause::ShutdownRequested),
{
    match message {
        ShutdownMessage::ResetIdle => ShutdownAction::RestartTimer,
        ShutdownMessage::Shutdown => ShutdownAction::Resolve(ShutdownCause::ShutdownRequested),
    }
}

/// The idle timer ran out after `timeout`: the server shuts down as idle.
pub fn on_timeout(timeout: Duration) -> (r: ShutdownCause)
    ensures
        r matches ShutdownCause::Idle(d) && d == timeout,
{
    ShutdownCause::Idle(timeout)
}

} // verus!
