//! Runs as the history keeps them.

use vstd::prelude::*;

verus! {

/// One run. Times are seconds since the epoch.
#[derive(Debug, Clone)]
pub struct Run {
    pub id: String,
    pub started_at: i64,
    pub finished_at: Option<i64>,
    pub status: String,
    pub total_tasks: i32,
    pub passed: i32,
    pub failed: i32,
}

/// The status of a run that has ended: `failed` where a task failed, else
/// `passed`.
pub fn finished_status(failed: i32) -> (s: &'static str)
    ensures
        s@ == if failed > 0 {
            "failed"@
        } else {
            "passed"@
        },
{
    if failed > 0 {
        "failed"
    } else {
        "passed"
    }
}

impl Run {
    /// A run of `total_tasks` tasks that has started at `now`.
    pub fn started(id: &str, total_tasks: i32, now: i64) -> (run: Run)
        ensures
            run.id@ == id@,
            run.started_at == now,
            run.finished_at is None,
            run.status@ == "running"@,
            run.total_tasks == total_tasks,
            run.passed == 0,
            run.failed == 0,
    {
        Run {
            id: id.to_owned(),
            started_at: now,
            finished_at: None,
            status: "running".to_owned(),
            total_tasks,
            passed: 0,
            failed: 0,
        }
    }

    /// Ends the run at `now` with the given counts.
    pub fn finish(&mut self, passed: i32, failed: i32, now: i64)
        ensures
            final(self).id == old(self).id,
            final(self).started_at == old(self).started_at,
            final(self).total_tasks == old(self).total_tasks,
            final(self).finished_at == Some(now),
            final(self).passed == passed,
            final(self).failed == failed,
            final(self).status@ == if failed > 0 {
                "failed"@
            } else {
                "passed"@
            },
    {
        self.finished_at = Some(now);
        self.status = finished_status(failed).to_owned();
        self.passed = passed;
        self.failed = failed;
    }
}

} // verus!
