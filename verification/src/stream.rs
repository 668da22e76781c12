//! Cursors that walk container indexes and path entries.
//!
//! A stream value holds plain cursor fields — source index, container index,
//! progress within an entry — and re-resolves them against the archive on
//! each step, so it borrows nothing between steps.

pub mod index;
pub mod paths;

pub use index::IndexStream;
pub use paths::PathsStream;
