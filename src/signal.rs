//! How a signal received while waiting is handled.
use vstd::prelude::*;

verus! {

/// What a wait does with a signal that arrived before its deadline.
#[derive(Debug, Copy, Clone, PartialEq, Eq, Structural)]
pub enum SignalDecision {
    /// Stop waiting and carry on.
    Resume,
    /// Ignore it and wait until the deadline.
    KeepWaiting,
    /// Stop: the process is being shut down by this signal.
    Interrupt(i32),
}

/// The "new block" nudge (`usr1`) ends the wait when the caller accepts it and is
/// ignored otherwise; any other signal interrupts.
pub fn on_signal(sig: i32, usr1: i32, accept_usr1: bool) -> (r: SignalDecision)
    ensures
        sig == usr1 && accept_usr1 ==> r == SignalDecision::Resume,
        sig == usr1 && !accept_usr1 ==> r == SignalDecision::KeepWaiting,
        sig != usr1 ==> r == SignalDecision::Interrupt(sig),
{
    if sig == usr1 {
        if accept_usr1 {
            SignalDecision::Resume
        } else {
            SignalDecision::KeepWaiting
        }
    } else {
        SignalDecision::Interrupt(sig)
    }
}

} // verus!
