//! Dependency graphs of tasks: required closure, ordering, and the tasks
//! that a change to a file affects.

pub mod affected;
pub mod kahn;
pub mod toposort;

pub use affected::{
    filter_tasks_by_pattern, find_affected_tasks_from_files, preview_affected, AffectedPreview,
};
pub use toposort::{find_tasks_watching_file, get_dependent_tasks, topological_sort, GraphError};
