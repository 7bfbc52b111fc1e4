//! A two-way synchronization core for time-tracking records.
//!
//! Records (time entries, projects, categories) live in a revisioned store with
//! tombstones; every accepted or overridden change is appended to a gapless
//! change journal; clients exchange a journal cursor (the watermark) for the
//! deduplicated delta of everything that changed after it.

pub mod record;
pub mod merge;
pub mod store;
pub mod coordinator;
