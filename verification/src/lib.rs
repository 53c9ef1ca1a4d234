//! Core of a node for a DAG-structured distributed ledger.
//!
//! Transactions reference two predecessors (trunk and branch), are grouped
//! into bundles, and are anchored by periodic signed milestones.  This crate
//! holds the verified engine: wire-message framing, the transaction
//! compression scheme, the ingress dedup cache, the priority-driven
//! transaction requester, the in-memory DAG store with its traversals, and
//! the transaction-ingest pipeline.  Network transport, task scheduling and
//! the cryptographic primitives live outside and are reached through narrow,
//! explicitly trusted seams.

pub mod trits;
pub mod hash;
pub mod message;
pub mod compression;
pub mod cache;
pub mod pqueue;
pub mod transaction;
pub mod bundle;
pub mod alist;
pub mod tangle;
pub mod sender;
pub mod requester;
pub mod t5b1;
pub mod worker;
pub mod milestone;
pub mod snapshot;
pub mod sponge;
