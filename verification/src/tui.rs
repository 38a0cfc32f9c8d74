//! What the terminal view keeps of a task.

use vstd::prelude::*;

verus! {

/// The part of the view that takes the keys.
#[derive(Debug, Clone, Copy, PartialEq, Eq, Structural)]
pub enum Focus {
    TestList,
    Output,
    Filter,
}

impl Default for Focus {
    fn default() -> (f: Focus)
        ensures
            f == Focus::TestList,
    {
        Focus::TestList
    }
}

/// Whether the view goes on after an event.
#[derive(Debug, Clone, Copy, PartialEq, Eq, Structural)]
pub enum EventResult {
    Continue,
    Quit,
}

/// Status of a task in the view.
#[derive(Debug, Clone, Copy, PartialEq, Eq, Structural)]
pub enum TaskStatus {
    Pending,
    Running,
    Passed,
    Failed,
    Skipped,
}

impl TaskStatus {
    /// The sign shown for the status.
    pub fn symbol(&self) -> (s: &'static str)
        ensures
            s@ == match *self {
                TaskStatus::Pending => "○"@,
                TaskStatus::Running => "●"@,
                TaskStatus::Passed => "✓"@,
                TaskStatus::Failed => "✗"@,
                TaskStatus::Skipped => "⊘"@,
            },
    {
        match self {
            TaskStatus::Pending => "○",
            TaskStatus::Running => "●",
            TaskStatus::Passed => "✓",
            TaskStatus::Failed => "✗",
            TaskStatus::Skipped => "⊘",
        }
    }
}

/// The most lines of output that the view keeps of a task.
pub const MAX_OUTPUT_LINES: usize = 1000;

/// A task in the view.
#[derive(Debug, Clone)]
pub struct TuiTask {
    pub name: String,
    pub status: TaskStatus,
    pub duration_ms: Option<u128>,
    pub output: Vec<String>,
}

/// The last `limit` items of `lines`; all of them where there are fewer.
pub open spec fn last_lines<A>(lines: Seq<A>, limit: int) -> Seq<A> {
    if lines.len() > limit {
        lines.subrange(lines.len() - limit, lines.len() as int)
    } else {
        lines
    }
}

impl TuiTask {
    /// A pending task without output.
    pub fn new(name: String) -> (t: TuiTask)
        ensures
            t.name == name,
            t.status == TaskStatus::Pending,
            t.duration_ms is None,
            t.output@.len() == 0,
    {
        TuiTask { name, status: TaskStatus::Pending, duration_ms: None, output: Vec::new() }
    }

    /// Adds a line of output and keeps the last 1000 lines.
    pub fn add_output(&mut self, line: String)
        ensures
            final(self).output@ == last_lines(old(self).output@.push(line), 1000),
            final(self).name == old(self).name,
            final(self).status == old(self).status,
            final(self).duration_ms == old(self).duration_ms,
    {
        self.output.push(line);
        let ghost all = self.output@;
        assert(all.subrange(0, all.len() as int) =~= all);
        while self.output.len() > MAX_OUTPUT_LINES
            invariant
                self.output@.len() <= all.len(),
                all.len() > 1000 ==> self.output@.len() >= 1000,
                all.len() <= 1000 ==> self.output@.len() == all.len(),
                self.output@ == all.subrange(all.len() - self.output@.len(), all.len() as int),
                self.name == old(self).name,
                self.status == old(self).status,
                self.duration_ms == old(self).duration_ms,
            decreases self.output@.len(),
        {
            let ghost before = self.output@;
            self.output.remove(0);
            assert(self.output@ =~= all.subrange(all.len() - self.output@.len(), all.len() as int));
        }
        assert(all.subrange(0, all.len() as int) =~= all);
    }
}

} // verus!
