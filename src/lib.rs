//! Chart persistence and return-matrix caching for a market dashboard.
//!
//! * `container`: the versioned binary container that frames chart records.
//! * `store`: the in-memory chart store with its save, load and fingerprint.
//! * `text`: small verified string helpers (comparison, decimal digits).
//! * `calendar`: dates, leap years and period buckets.
//! * `matrix`: turning raw return rows into a year-by-period matrix.
//! * `cache`: the return-matrix cache keyed by (period, group, month).
//! * `interval`: chart interval names.

pub mod cache;
pub mod calendar;
pub mod container;
pub mod interval;
pub mod matrix;
pub mod store;
pub mod text;
