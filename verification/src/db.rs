//! What the run history keeps: cached task results and the pass and
//! failure counts of tests, as values in memory.

pub mod cache;
pub mod flaky;
pub mod runs;

pub use cache::{CacheEntry, CacheStats, CacheTable};
pub use flaky::{FlakyHistory, FlakyTest};
pub use runs::Run;
