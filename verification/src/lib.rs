//! A durable archive for benchmark results keyed by commit and platform.
//!
//! The archive lives in a version-controlled directory. This crate holds the
//! verified core: the retry queue's file format, the result store's document
//! format and filename scheme, the reconciliation of candidate commits against
//! stored results, and the timeout/retry discipline of the external
//! version-control command runner. A thin unverified shell performs the
//! actual file and subprocess work and feeds plain values to this core.
//!
//! Callers must serialize access to a given repository path: the design
//! assumes a single writer and takes no locks.

pub mod bytes;
pub mod clock;
pub mod error;
pub mod filename;
pub mod model;
pub mod reconcile;
pub mod repo;
pub mod retry;
pub mod runner;
pub mod store;
