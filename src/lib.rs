//! Tallies the addresses found in log lines and builds a ranked report of them.
pub mod config;
pub mod laws;
pub mod report;
pub mod scan;
pub mod table;
