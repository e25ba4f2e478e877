//! Contributor statistics mined from a commit history.
//!
//! The crate holds the analytical core of a reporting tool: a rule table that
//! gives every author one canonical identity, the per-commit tally of changed
//! files and lines, the estimate of the time an author has worked, and the
//! merge of the per-email totals into per-person totals.
//!
//! Everything here works on plain values. Reading the object store, running
//! the worker threads and formatting a report are left to the caller.

pub mod dedup;
pub mod delta;
pub mod estimate;
pub mod keys;
pub mod mailmap;
pub mod signature;
pub mod snapshot;
pub mod stats;
pub mod table;
pub mod text;

pub use dedup::{deduplicate_identities, WorkByPerson};
pub use estimate::{estimate_hours, WorkByEmail};
pub use mailmap::{Entry, MatchKey, Replacement};
pub use signature::{Signature, Time};
pub use snapshot::Snapshot;
pub use stats::{FileStats, LineStats};
