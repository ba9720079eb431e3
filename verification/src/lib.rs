//! A single-threaded readiness event loop core: a socket registry handing out
//! tokens, an event dispatcher, and edge-triggered accept/read drain logic.
//!
//! The actual polling and socket I/O live outside this crate; callers feed the
//! outcomes of their non-blocking calls into the functions here, which decide
//! every registration, state transition and dispatch.

pub mod accept;
pub mod dispatch;
pub mod errors;
pub mod event;
pub mod read;
pub mod registry;
