//! A partitioned asynchronous order pipeline.
//!
//! Accepted orders are routed to one of P independent partitions, enriched by
//! an inventory collaborator with unbounded retry, committed to a store with
//! retry, and served back through day-bucketed queries and aggregate reports.
//! This crate holds the verified core: the data model, the wire codec for the
//! bus payloads, the partition router, the query executor, and a state machine
//! for the whole pipeline whose stated laws cover delivery, retry idempotence,
//! partition isolation, malformed-message handling and read isolation.

pub mod codec;
pub mod pipeline;
pub mod store;
pub mod router;
pub mod time;
pub mod types;
