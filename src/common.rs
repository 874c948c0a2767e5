//! Types shared with the gateway.
use vstd::prelude::*;

verus! {

/// The role a node announces to service discovery.
#[derive(Clone, Copy, Debug, PartialEq, Eq, Structural)]
pub enum Role {
    Leader,
    Candidate,
    Node,
}

/// Errors of the HTTP gateway.
#[derive(Debug)]
pub enum CustomHttpErrors {
    InvalidLength,
    InvalidBody(String),
    IoCopyErr(String),
    FailedBufFlush(String),
}

} // verus!
