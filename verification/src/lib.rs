//! Snapshot-based two-way directory reconciliation.
//!
//! A directory tree is captured as an immutable [`model::Snapshot`]: a map
//! from root-relative path to per-path metadata. Two snapshots are diffed by
//! [`reconcile::reconcile`] into a deterministic, path-ordered report that
//! classifies every path found on either side. Snapshots can be persisted to
//! and restored from a self-describing JSON record.
//!
//! Filesystem traversal itself is left to the caller: the builder in
//! [`builder`] consumes plain per-entry records and is verified to assemble
//! the snapshot and its warning list exactly.

pub mod builder;
pub mod json;
pub mod model;
pub mod order;
pub mod reconcile;

pub use builder::RawMeta;
pub use builder::ScanError;
pub use builder::ScanItem;
pub use builder::ScanWarning;
pub use builder::build_snapshot;
pub use builder::ftype_from_flags;
pub use json::MalformedSnapshot;
pub use json::from_json;
pub use json::to_json;
pub use model::FileType;
pub use model::PathEntry;
pub use model::Snapshot;
pub use model::SnapshotEntry;
pub use order::cmp_str;
pub use reconcile::Outcome;
pub use reconcile::ReportEntry;
pub use reconcile::classify_entries;
pub use reconcile::reconcile;
