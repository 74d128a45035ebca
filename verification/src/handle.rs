use vstd::prelude::*;

verus! {

/// Capability exposed by a pooled transport connection.
///
/// A handle is cheap to share: every copy refers to the same underlying
/// multiplexed connection, so a pooled entry and the client facade handed to a
/// caller can use the connection concurrently. The pool itself only ever asks
/// a handle two things: whether the transport has terminated, and a diagnostic
/// process id.
pub trait ConnectionHandle: Sized {
    /// Whether the underlying transport has terminated. Implementations
    /// within reach of the verifier say what this means for them; a handle
    /// wrapping a live transport leaves it unconstrained.
    open spec fn is_closed_spec(&self) -> bool {
        vstd::pervasive::arbitrary()
    }

    /// Non-blocking check of the current transport state.
    fn is_closed(&self) -> (r: bool)
        ensures
            r == self.is_closed_spec(),
    ;

    /// Diagnostic process id of the backend; `-1` when unavailable.
    fn get_process_id(&self) -> i32;

    /// A new handle sharing the same underlying transport.
    fn share(&self) -> (r: Self)
        ensures
            r == *self,
    ;
}

/// A handle whose transport state is decided at creation and never changes.
///
/// Real deployments wrap a live transport; this handle stands in wherever a
/// deterministic one is wanted, e.g. when exercising the pool from tests.
pub struct FixedHandle {
    pub closed: bool,
    pub pid: i32,
}

impl FixedHandle {
    /// A handle that reports `closed` forever.
    pub fn new(closed: bool, pid: i32) -> (r: Self)
        ensures
            r.closed == closed,
            r.pid == pid,
    {
        FixedHandle { closed, pid }
    }
}

impl ConnectionHandle for FixedHandle {
    open spec fn is_closed_spec(&self) -> bool {
        self.closed
    }

    fn is_closed(&self) -> (r: bool) {
        self.closed
    }

    fn get_process_id(&self) -> i32 {
        self.pid
    }

    fn share(&self) -> (r: Self) {
        FixedHandle { closed: self.closed, pid: self.pid }
    }
}

} // verus!
