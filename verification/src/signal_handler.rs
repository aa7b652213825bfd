//! Signals that steer the master process.

use vstd::prelude::*;

verus! {

/// The signals the server reacts to.
#[derive(Debug, Clone, Copy, PartialEq, Eq, Structural)]
pub enum ServerSignal {
    /// `SIGTERM`.
    Terminate,
    /// `SIGINT`.
    Interrupt,
    /// `SIGHUP`.
    Hangup,
    /// `SIGCHLD`.
    ChildExited,
    /// Any other signal.
    Other,
}

/// Installs and polls the server's signal handlers.
pub struct SignalHandler;

impl SignalHandler {
    /// The handler.
    pub fn new() -> (h: Self)
        ensures
            h == SignalHandler,
    {
        SignalHandler
    }
}

} // verus!
