//! Ingestion of per-host package inventories: package identifier parsing,
//! canonical serialization, content checksums, an idempotent keyed record
//! store and the read-side integrity check.

pub mod nevra;
pub mod canonical;
pub mod store;
pub mod bench;
