//! Error values of the registry.

use vstd::prelude::*;

verus! {

/// Returned by a registration attempt whose socket handle is already
/// registered; the caller is expected to log and drop that socket.
#[derive(Clone, Copy, PartialEq, Eq, Structural, Debug)]
pub struct RegistrationError;

/// Returned by an operation on a token that has no live registration.
#[derive(Clone, Copy, PartialEq, Eq, Structural, Debug)]
pub struct UnknownToken;

} // verus!
