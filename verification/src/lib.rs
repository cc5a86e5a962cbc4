//! A line-oriented detector for copy-paste-then-forget-to-edit mistakes.
//!
//! Each source line is tokenized, split into an assignment triple
//! `(lhs, op, rhs)` when an assignment operator occurs, and its sides are
//! normalized so that structurally identical expressions compare equal.
//! A rule engine then scans a bounded window of prior lines and reports
//! suspicious repetitions, which the reporter serializes as text or JSON
//! records.

pub mod analysis;
pub mod pattern;
pub mod report;
