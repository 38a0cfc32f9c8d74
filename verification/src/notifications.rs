//! What a notification says of a run.

use vstd::prelude::*;
use crate::db::runs::Run;
use crate::text::str_eq;

verus! {

#[derive(Debug, Clone)]
pub struct NotificationSummary {
    pub project_name: String,
    pub run_id: String,
    pub status: String,
    pub status_emoji: String,
    pub status_text: String,
    pub passed: i32,
    pub failed: i32,
    pub total: i32,
    pub duration_seconds: i64,
}

/// The seconds that a run took: from its start to its end; 0 for a run
/// that has not ended.
pub open spec fn run_seconds(run: Run) -> int {
    match run.finished_at {
        Some(end) => end - run.started_at,
        None => 0,
    }
}

/// What a notification says of `run`: its counts, the seconds it took, and
/// its status in words and as a sign.
pub fn build_summary(run: &Run, project_name: &str) -> (summary: NotificationSummary)
    requires
        i64::MIN <= run_seconds(*run) <= i64::MAX,
    ensures
        summary.project_name@ == project_name@,
        summary.run_id@ == run.id@,
        summary.status@ == run.status@,
        summary.status_emoji@ == if run.status@ == "passed"@ {
            "✅"@
        } else {
            "❌"@
        },
        summary.status_text@ == if run.status@ == "passed"@ {
            "PASSED"@
        } else {
            "FAILED"@
        },
        summary.passed == run.passed,
        summary.failed == run.failed,
        summary.total == run.total_tasks,
        summary.duration_seconds == run_seconds(*run),
{
    let passed = str_eq(run.status.as_str(), "passed");
    NotificationSummary {
        project_name: project_name.to_owned(),
        run_id: run.id.clone(),
        status: run.status.clone(),
        status_emoji: if passed {
            "✅".to_owned()
        } else {
            "❌".to_owned()
        },
        status_text: if passed {
            "PASSED".to_owned()
        } else {
            "FAILED".to_owned()
        },
        passed: run.passed,
        failed: run.failed,
        total: run.total_tasks,
        duration_seconds: match run.finished_at {
            Some(end) => end - run.started_at,
            None => 0,
        },
    }
}

/// Whether `run` is notified of under the given settings: where
/// notifications are on, and, where only failures are asked for, the run
/// has not passed.
pub fn notifies(enabled: bool, on_failure: bool, run: &Run) -> (r: bool)
    ensures
        r == (enabled && !(on_failure && run.status@ == "passed"@)),
{
    enabled && !(on_failure && str_eq(run.status.as_str(), "passed"))
}

} // verus!
