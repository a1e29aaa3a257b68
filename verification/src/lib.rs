//! Verified primary core of a DAG-based BFT consensus protocol.
//!
//! The crate covers the header/vote/certificate pipeline of a primary node:
//! the message model with canonical digests, the stake-weighted aggregators
//! that turn signed messages into certificates, the synchronizer and waiters
//! that gate processing on storage, the core state machine, and the proposer.

pub mod aggregators;
pub mod codec;
pub mod committee;
pub mod crypto;
pub mod error;
pub mod messages;
pub mod primary_core;
pub mod proposer;
pub mod sorting;
pub mod store;
pub mod synchronizer;
pub mod types;
pub mod validation;
pub mod waiter;
