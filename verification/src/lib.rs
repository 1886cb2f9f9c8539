//! Filesystem snapshots and the patches that turn one snapshot into another.
//!
//! A snapshot records, for every path below a root directory, its kind, its
//! mode word, its modification time, a digest of a file's contents and a
//! link's target. `compute_delta` compares two snapshots and lists the steps
//! that turn the first tree into the second; `apply::plan_op` says what the
//! file system must do for each step.

pub mod apply;
pub mod delta;
pub mod delta_laws;
pub mod filetypes;
pub mod hashing;
pub mod metadata;
pub mod order;
pub mod paths;
pub mod snapshot;
pub mod text;

pub use apply::plan_op;
pub use delta::{compute_delta, PatchOp};
pub use snapshot::{Snapshot, SnapshotEntry};
