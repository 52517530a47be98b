//! One-directional directory mirroring: a verified diff engine that
//! compares a source tree against a destination tree and produces the
//! ordered list of copy, update and delete actions that makes the
//! destination match the source, judging staleness by size and
//! modification time alone.
//!
//! `record` holds the data model: timestamps, scanned file records and
//! actions. `level` diffs one directory level; `engine` drives the
//! breadth-first walk over whole trees; `laws` states and proves what the
//! engine guarantees: completeness, staleness and deletion correctness,
//! the parent-before-child ordering of the action list, and convergence
//! of a second run to an empty list.

pub mod engine;
pub mod laws;
pub mod level;
pub mod record;
