use vstd::prelude::*;

use crate::handle::ConnectionHandle;

verus! {

/// Immutable descriptive metadata attached to a connection at creation and
/// cloned into every client facade derived from it.
#[derive(Clone, Copy, PartialEq, Eq, Structural, Debug)]
pub struct MetricsAuxInfo {
    /// Endpoint the connection belongs to, for usage accounting.
    pub endpoint_id: u64,
    /// Branch the connection belongs to, for usage accounting.
    pub branch_id: u64,
    /// Whether the connection was freshly established (diagnostic only).
    pub cold_start: bool,
}

/// Identity forwarded to the process-wide usage registrar: the pool never
/// interprets it.
#[derive(Clone, Copy, PartialEq, Eq, Structural, Debug)]
pub struct Ids {
    pub endpoint_id: u64,
    pub branch_id: u64,
}

/// One pooled connection: the shared handle, its unique identity, and the
/// metadata it carries. Sharing an entry shares the underlying handle, not
/// the pool slot.
pub struct ConnPoolEntry<C: ConnectionHandle> {
    pub conn: C,
    pub conn_id: u128,
    pub aux: MetricsAuxInfo,
}

impl<C: ConnectionHandle> ConnPoolEntry<C> {
    /// A new entry sharing the same underlying connection.
    pub fn share(&self) -> (r: Self)
        ensures
            r == *self,
    {
        ConnPoolEntry { conn: self.conn.share(), conn_id: self.conn_id, aux: self.aux }
    }
}

/// Transient facade handed to a caller; never stored in the pool.
pub struct Client<C: ConnectionHandle> {
    pub inner: C,
    pub aux: MetricsAuxInfo,
}

impl<C: ConnectionHandle> Client<C> {
    pub fn new(inner: C, aux: MetricsAuxInfo) -> (r: Self)
        ensures
            r.inner == inner,
            r.aux == aux,
    {
        Client { inner, aux }
    }

    /// The identity this client reports work under. The caller hands it to
    /// the usage registrar; the pool only forwards it.
    pub fn metrics(&self) -> (r: Ids)
        ensures
            r.endpoint_id == self.aux.endpoint_id,
            r.branch_id == self.aux.branch_id,
    {
        Ids { endpoint_id: self.aux.endpoint_id, branch_id: self.aux.branch_id }
    }
}

} // verus!
