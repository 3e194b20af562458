//! A directory-query engine: it filters the entries of a walked tree by
//! policy, path pattern or content, caps the results, and renders them.
//!
//! The walk itself, the reading of files and the writing of output are the
//! caller's; the library takes what was walked and read as plain values.
//!
//! - [`types`]: the records and the configuration, with their views.
//! - [`text`]: substring search, trimming, splitting, lines, decimal notation.
//! - [`filter`]: exclusion by literal substrings and the admission policy.
//! - [`matcher`]: glob patterns, extensions, hidden segments.
//! - [`traverse`]: the choice of how a tree is walked.
//! - [`commands`]: `find`, `list` and `search`.
//! - [`format`]: the output formats.
//! - [`estimate`]: the estimator.

pub mod commands;
pub mod estimate;
pub mod filter;
pub mod format;
pub mod matcher;
pub mod text;
pub mod traverse;
pub mod types;
