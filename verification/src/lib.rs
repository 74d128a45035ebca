//! Connection-pooling core of a proxy that multiplexes many logical client
//! requests over a smaller set of pooled upstream connections.
//!
//! The registry ([`registry::GlobalConnPool`]) maps endpoints to per-endpoint
//! reuse queues ([`pool::EndpointConnPool`]), partitioned into shards so a
//! reclamation pass can sweep one shard at a time. Reuse is round-robin;
//! closed entries are dropped lazily; a background sweep reaps closed entries
//! of solely owned pools and evicts empty pools. Every operation carries a
//! contract over the abstract state (the map from endpoints to queues and the
//! diagnostic counters), and the laws of the design — distinct identities,
//! round-robin order, idempotent removal, a single pool per endpoint, and
//! what sweeps and shutdown leave behind — are proved alongside.
//!
//! The concurrency shell (locks, the lifecycle supervisor awaiting transport
//! termination, the tick loop of the reclamation worker) lives outside this
//! library and drives it through the operations here.

pub mod entry;
pub mod handle;
pub mod pool;
pub mod registry;
