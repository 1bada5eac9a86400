//! Core of a distributed rate-limiting service.
//!
//! Callers ask, per request, whether a given domain and set of labeled
//! descriptors is still under its configured limits; the service answers
//! and increments counters atomically with the decision.  The crate holds
//! the decision engine (limit selection, expression evaluation, counter
//! update, response headers) and the counter-replication model (CRDT
//! counter values and the peer-mesh bookkeeping); transport and process
//! wiring live outside the library.

pub mod crdt;
pub mod distributed;
pub mod engine;
pub mod expr;
pub mod headers;
pub mod limit;
pub mod replication;
pub mod service;
pub mod storage;
pub mod text;
