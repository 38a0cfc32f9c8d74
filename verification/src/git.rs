//! Changed files, sorted by kind.

pub mod diff;

pub use diff::{categorize_files, FileCategories};
