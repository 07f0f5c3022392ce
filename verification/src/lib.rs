//! One-way directory tree reconciliation.
//!
//! The engine compares two snapshots of directory trees — an ordered map from
//! relative path to file signature — and classifies each path as missing,
//! mismatched, in sync, or stale. All of the reconciliation logic is verified;
//! the filesystem walking and copying that feed it live outside this crate.

pub mod order;
pub mod paths;
pub mod signature;
pub mod snapshot;
pub mod differ;
pub mod executor;
pub mod laws;
