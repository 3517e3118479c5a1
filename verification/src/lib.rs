//! Aggregation of per-run benchmark samples, collected across many software
//! versions and many distinct test maps, into version-aligned summary series.
//!
//! The core pieces are: a strictly ordered three-component version identifier
//! (`version`), fixed records of per-phase timing metrics held as nanosecond
//! counts (`metrics`), a sample table grouping per-map series (`table`), and
//! the checkpoint discovery and chain aggregation algorithms (`aggregate`).

pub mod aggregate;
pub mod errors;
pub mod metrics;
pub mod table;
pub mod version;
