//! Per-sequence divergence statistics over pairwise alignment records.
//!
//! The library orders alignment records by query name and query start,
//! drops records whose query interval runs into the next one, and collects
//! either one row per admissible record or the weighted terms of a
//! length-weighted mean divergence.
pub mod divergence;
pub mod order;
pub mod record;
pub mod sorter;
