//! Audit of a live filesystem against a package database: the decisions of the
//! reconciliation passes, the exclusion matcher and the ordered report.
pub mod engine;
pub mod exclusion;
pub mod index;
pub mod laws;
pub mod order;
pub mod paths;
pub mod report;
