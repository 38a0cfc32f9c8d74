//! Task orchestration: dependency graphs, execution levels, cache keys,
//! retry policy and affected-task resolution, with machine-checked contracts.

pub mod affected;
pub mod ai;
pub mod artifacts;
pub mod config;
pub mod db;
pub mod execution;
pub mod git;
pub mod graph;
pub mod junit;
pub mod notifications;
pub mod order;
pub mod pattern;
pub mod task;
pub mod test_model;
pub mod test_runner;
pub mod text;
pub mod tui;
pub mod watcher;
