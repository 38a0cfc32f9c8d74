//! Status of a test case in a JUnit report.

use vstd::prelude::*;

verus! {

#[derive(Debug, Clone, Copy, PartialEq, Eq, Structural)]
pub enum TestStatus {
    Passed,
    Failed,
    Error,
    Skipped,
}

impl Default for TestStatus {
    fn default() -> (s: TestStatus)
        ensures
            s == TestStatus::Passed,
    {
        TestStatus::Passed
    }
}

impl TestStatus {
    /// The status as it is written in the history.
    pub fn as_text(&self) -> (s: &'static str)
        ensures
            s@ == match *self {
                TestStatus::Passed => "passed"@,
                TestStatus::Failed => "failed"@,
                TestStatus::Error => "error"@,
                TestStatus::Skipped => "skipped"@,
            },
    {
        match self {
            TestStatus::Passed => "passed",
            TestStatus::Failed => "failed",
            TestStatus::Error => "error",
            TestStatus::Skipped => "skipped",
        }
    }
}

/// A test case as the history keeps it.
#[derive(Debug, Clone)]
pub struct TestCase {
    pub id: i64,
    pub task_result_id: String,
    pub name: String,
    pub classname: Option<String>,
    pub status: String,
    pub duration_ms: Option<i64>,
    pub error_message: Option<String>,
    pub error_type: Option<String>,
}

} // verus!
