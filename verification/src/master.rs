//! The master process's decisions: what each signal makes it do.

use vstd::prelude::*;

use crate::signal_handler::ServerSignal;

verus! {

/// What the master process does next.
#[derive(Debug, Clone, Copy, PartialEq, Eq, Structural)]
pub enum MasterAction {
    /// Stop the workers and leave the loop.
    Shutdown,
    /// Start new workers, then stop the old ones.
    Reload,
    /// Note that a worker exited.
    WorkerExited,
    /// Nothing; keep watching.
    Continue,
}

/// The action for one pass of the master loop, given the signal received
/// since the last pass, if any.
pub open spec fn action_for(signal: Option<ServerSignal>) -> MasterAction {
    match signal {
        Some(ServerSignal::Terminate) => MasterAction::Shutdown,
        Some(ServerSignal::Interrupt) => MasterAction::Shutdown,
        Some(ServerSignal::Hangup) => MasterAction::Reload,
        Some(ServerSignal::ChildExited) => MasterAction::WorkerExited,
        _ => MasterAction::Continue,
    }
}

/// Decides what the master does after polling for a signal.
pub fn master_action(signal: Option<ServerSignal>) -> (a: MasterAction)
    ensures
        a == action_for(signal),
{
    match signal {
        Some(ServerSignal::Terminate) => MasterAction::Shutdown,
        Some(ServerSignal::Interrupt) => MasterAction::Shutdown,
        Some(ServerSignal::Hangup) => MasterAction::Reload,
        Some(ServerSignal::ChildExited) => MasterAction::WorkerExited,
        _ => MasterAction::Continue,
    }
}

} // verus!
