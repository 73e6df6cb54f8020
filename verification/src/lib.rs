//! Code-churn statistics over the commit history of several branches.
//!
//! The log of each branch is read into the branch's linear history
//! (`gitlog`, `branches`). The histories are merged into one forest
//! that holds what the branches share once and forks where they part
//! (`tree`, `forest`). The commits of a date window are taken from the
//! forest, each once (`date`, `dedup`), spread over workers and
//! measured (`pipeline`, `shortstat`), and their statistics are summed
//! for the report (`statistic`, `render`).
//!
//! `merge_laws` and `window_laws` state what holds of merging and of
//! selecting in general.

pub mod args;
pub mod branches;
pub mod commit;
pub mod date;
pub mod dedup;
pub mod forest;
pub mod gitlog;
pub mod merge_laws;
pub mod pattern;
pub mod pipeline;
pub mod render;
pub mod shortstat;
pub mod statistic;
pub mod text;
pub mod tree;
pub mod window_laws;
