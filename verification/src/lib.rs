//! High-throughput forensic log analysis engine.
//!
//! The scanner answers counting, filtering, grouping and aggregation
//! queries over structured text logs (Apache/Nginx combined and RFC 3164
//! syslog) by locating field boundaries with byte searches, evaluating
//! pushed-down predicates during the scan, and merging per-chunk partial
//! aggregates.

pub mod agg;
pub mod apache;
pub mod bytes;
pub mod columns;
pub mod fast;
pub mod format;
pub mod gen;
pub mod groupmap;
pub mod lines;
pub mod order;
pub mod plan;
pub mod records;
pub mod scan;
pub mod status;
pub mod syslog;
pub mod syslog_scan;
pub mod textsearch;
pub mod time;
pub mod tools;

use vstd::prelude::*;

verus! {

/// Errors reported by the scanner and the query planner.
#[derive(Debug)]
pub enum ParseError {
    /// A file could not be opened or mapped.
    IoError,
    /// Format auto-detection failed and no hint was given.
    UnknownFormat,
    /// A line parser, regex or timestamp failed.
    ParseFailed(String),
    /// A parameter combination is not supported.
    InvalidQuery(String),
    /// The dataframe fallback reported a failure.
    EngineError(String),
}

} // verus!
