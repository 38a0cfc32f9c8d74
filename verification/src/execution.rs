//! Running tasks: caching, retries, parallel batches and the run itself.

pub mod cache;
pub mod parallel;
pub mod retry;
pub mod runner;

pub use cache::CacheManager;
pub use parallel::{calculate_execution_levels, filter_parallel_tasks, ParallelExecutor};
pub use retry::{RetryConfig, RetryTracker};
pub use runner::{RunOptions, RunState};
