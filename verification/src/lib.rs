//! Changelog manager for a commit-and-push helper.
//!
//! The library owns the logic of two markdown log documents: a cumulative
//! development log and a "today" log that holds one calendar day's numbered
//! entries. Committing a message appends an ordinal entry to the today log,
//! rolling the previous day's log into the cumulative log when the date has
//! changed. All documents are modelled as sequences of lines; the surrounding
//! binary does the file and terminal work and hands plain values in and out.

pub mod cli;
pub mod git;
pub mod log_manager;
pub mod text;
pub mod utils;
