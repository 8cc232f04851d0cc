//! A resumable, multi-client fetch pipeline for per-wallet points data.
//!
//! The library holds the verified core: building the frozen working set of
//! identifiers (source minus exclusions minus checkpoint, in `working_set`),
//! claiming each work index exactly once (`claim`), the bounded
//! exponential-backoff retry policy (`retry`), reading a points response
//! body into a fetch record (`scan`, `points`, `decimal`, `records`), and
//! aggregating completed records into a duplicate-free checkpoint
//! (`aggregate`). Network and file I/O live outside the library and hand it
//! plain values.

pub mod aggregate;
pub mod claim;
pub mod config;
pub mod decimal;
pub mod points;
pub mod records;
pub mod retry;
pub mod scan;
pub mod working_set;
