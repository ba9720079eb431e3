//! Readiness events as the poller reports them, and the step decision every
//! edge-triggered drain loop is driven by.

use vstd::prelude::*;

verus! {

/// The readiness kind a fired event carries.
#[derive(Clone, Copy, PartialEq, Eq, Structural, Debug)]
pub enum Readiness {
    Readable,
    Writable,
}

/// One transient readiness notification: a fired token and its readiness
/// kind. Events are produced by one poll call and consumed immediately by
/// the dispatcher; they are never persisted.
#[derive(Clone, Copy, PartialEq, Eq, Structural, Debug)]
pub struct Event {
    pub token: u64,
    pub readiness: Readiness,
}

/// What a drain loop does after one non-blocking I/O call: keep draining,
/// stop this drain, or stop and escalate a fatal error to the caller.
#[derive(Clone, Copy, PartialEq, Eq, Structural, Debug)]
pub enum DrainStep {
    Continue,
    Stop,
    StopFatal,
}

} // verus!
