//! Arena storage for flexbox-style layout trees.
//!
//! The crate keeps three parallel growable sequences — node records, child
//! lists and parent lists — indexed by a shared integer identity, and keeps
//! the parent/child adjacency and the memoized-measurement caches consistent
//! while nodes are created, linked, unlinked and compactly removed.

pub mod forest;
pub mod geometry;
pub mod style;
