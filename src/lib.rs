//! The core of a parallel test runner for a dynamically typed guest
//! language: scoped fixture caches and their teardown order, the runner's
//! per-variant decisions, partitioning tests over workers, and the snapshot
//! engine with its in-place rewriting of inline snapshot literals.
pub mod cli;
pub mod fixtures;
pub mod format;
pub mod inline;
pub mod literal;
pub mod partition;
pub mod paths;
pub mod runner;
pub mod scan;
pub mod snapshot;
pub mod storage;
pub mod tags;
pub mod text;

pub use cli::ExitStatus;
