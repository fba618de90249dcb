//! Selection of commits and rendering of grouped activity reports.
//!
//! The library works on plain values: paths, messages and author names are
//! strings, modelled in contracts as sequences of characters; instants are
//! seconds since the Unix epoch.

pub mod text;
pub mod normalize;
pub mod config;
pub mod commit;
pub mod order;
pub mod path;
pub mod git_repo;
pub mod report;
