//! Requests and responses as the engine sees them.
use crate::event::Action;
use vstd::prelude::*;

verus! {

/// The operation of a request.
#[derive(Clone, Copy, Debug, PartialEq, Eq, Structural)]
pub enum Operation {
    Read,
    Write,
    Delete,
}

/// The wire value of each operation.
pub const OP_READ: i32 = 0;

pub const OP_WRITE: i32 = 1;

pub const OP_DELETE: i32 = 2;

pub open spec fn op_of(code: i32) -> Option<Operation> {
    if code == OP_READ {
        Some(Operation::Read)
    } else if code == OP_WRITE {
        Some(Operation::Write)
    } else if code == OP_DELETE {
        Some(Operation::Delete)
    } else {
        None
    }
}

pub open spec fn action_code(a: Action) -> i32 {
    match a {
        Action::Read => OP_READ,
        Action::Write => OP_WRITE,
        Action::Delete => OP_DELETE,
    }
}

impl Operation {
    /// The operation a wire value stands for.
    pub fn from_code(code: i32) -> (r: Option<Operation>)
        ensures
            r == op_of(code),
    {
        if code == OP_READ {
            Some(Operation::Read)
        } else if code == OP_WRITE {
            Some(Operation::Write)
        } else if code == OP_DELETE {
            Some(Operation::Delete)
        } else {
            None
        }
    }
}

pub fn code_of_action(a: Action) -> (r: i32)
    ensures
        r == action_code(a),
{
    match a {
        Action::Read => OP_READ,
        Action::Write => OP_WRITE,
        Action::Delete => OP_DELETE,
    }
}

/// What the server does with a request as it arrives.
#[derive(Clone, Copy, Debug, PartialEq, Eq, Structural)]
pub enum Route {
    /// Writes and deletes go on the queue of the writer task.
    Enqueue,
    /// Reads are answered at once from the engine.
    Read,
    /// An operation that decodes to nothing is answered `InvalidOp`.
    Reject,
}

pub open spec fn route_of(code: i32) -> Route {
    match op_of(code) {
        Some(Operation::Write) | Some(Operation::Delete) => Route::Enqueue,
        Some(Operation::Read) => Route::Read,
        None => Route::Reject,
    }
}

/// Routes a request by its operation.
pub fn route(op: i32) -> (r: Route)
    ensures
        r == route_of(op),
{
    match Operation::from_code(op) {
        Some(Operation::Write) | Some(Operation::Delete) => Route::Enqueue,
        Some(Operation::Read) => Route::Read,
        None => Route::Reject,
    }
}

/// The outcome of a request.
#[derive(Clone, Copy, Debug, PartialEq, Eq, Structural)]
pub enum Status {
    Success,
    InvalidKey,
    InvalidOp,
    ServerError,
}

/// A client request: key, operation (as sent on the wire), the sequence
/// number issued for it, and a payload.
pub struct Request {
    pub key: Vec<u8>,
    pub op: i32,
    pub seq: u64,
    pub payload: Vec<u8>,
}

/// The reply to a request.
pub struct Response {
    pub key: Vec<u8>,
    pub op: i32,
    pub status: Status,
    pub payload: Vec<u8>,
}

impl Request {
    pub fn new(key: Vec<u8>, op: i32, seq: u64, payload: Vec<u8>) -> (r: Request)
        ensures
            r.key@ == key@,
            r.op == op,
            r.seq == seq,
            r.payload@ == payload@,
    {
        Request { key, op, seq, payload }
    }
}

} // verus!
