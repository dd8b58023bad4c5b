//! Verified core of a shell-history cleaning tool.
//!
//! The library reconstructs logical shell-history entries from raw lines
//! (single-line entries and backslash-continued multiline entries), applies a
//! line-count threshold to decide which entries to keep, and proves that the
//! reconstruction partitions the input and that cleaning is idempotent.

pub mod history;
pub mod laws;
pub mod shell;
