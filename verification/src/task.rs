//! Task results, and the supervision of background tasks: when a started
//! process counts as ready, and in which order processes are stopped.

use vstd::prelude::*;
use crate::config::Task;
use crate::text::{has_substring, str_contains, strs};

verus! {

/// What one executed task came to.
#[derive(Debug, Clone)]
pub struct TaskResult {
    pub name: String,
    pub success: bool,
    pub duration_ms: u128,
    pub category: Option<String>,
}

/// The milliseconds between two looks at a background task that is waited
/// for.
pub const READY_POLL_MS: u64 = 100;

/// The milliseconds after which a background task without a ready pattern
/// is judged.
pub const GRACE_PERIOD_MS: u64 = 500;

/// Why a background task did not become ready.
#[derive(Debug, Clone, Copy, PartialEq, Eq)]
pub enum BackgroundError {
    /// Its output ended before the ready pattern appeared.
    ExitedBeforeReady,
    /// The ready pattern did not appear within the given seconds.
    TimedOut { seconds: u64 },
    /// Its output could not be followed.
    FailedToStart,
    /// It exited with an error while waited for.
    ExitedWithError,
    /// It has no ready pattern and exited with an error right away.
    ExitedImmediately,
}

/// What the supervisor learns while it waits for a background task.
#[derive(Debug, Clone)]
pub enum ReadinessEvent {
    /// The process wrote this line to its output or its error output.
    Line(String),
    /// The process closed its output.
    OutputEnded,
    /// Nothing happened; this many milliseconds have passed since the start.
    Tick { elapsed_ms: u64 },
    /// Nobody follows the output of the process any more.
    ReadersGone,
}

/// What the supervisor does next.
#[derive(Debug, Clone, Copy, PartialEq, Eq)]
pub enum ReadinessStep {
    /// The task is ready: go on with the run.
    Ready,
    /// Wait for the next event.
    KeepWaiting,
    /// Give up on the task.
    Fail(BackgroundError),
    /// Kill the process, then give up on the task.
    KillAndFail(BackgroundError),
}

/// What the waiting supervisor does when nothing decisive happened: it
/// gives up if the process is known to have exited with an error.
pub open spec fn after_quiet_event(exited: Option<bool>) -> ReadinessStep {
    if exited == Some(false) {
        ReadinessStep::Fail(BackgroundError::ExitedWithError)
    } else {
        ReadinessStep::KeepWaiting
    }
}

/// The step that follows `event` while waiting for `pattern`, with
/// `timeout_seconds` allowed; `exited` is the exit state of the process as
/// far as known: `None` while it runs, else whether it exited successfully.
pub open spec fn readiness_step_spec(
    pattern: Seq<char>,
    timeout_seconds: u64,
    event: ReadinessEvent,
    exited: Option<bool>,
) -> ReadinessStep {
    match event {
        ReadinessEvent::Line(text) => if has_substring(text@, pattern) {
            ReadinessStep::Ready
        } else {
            after_quiet_event(exited)
        },
        ReadinessEvent::OutputEnded => ReadinessStep::Fail(BackgroundError::ExitedBeforeReady),
        ReadinessEvent::Tick { elapsed_ms } => if elapsed_ms > timeout_seconds * 1000 {
            ReadinessStep::KillAndFail(BackgroundError::TimedOut { seconds: timeout_seconds })
        } else {
            after_quiet_event(exited)
        },
        ReadinessEvent::ReadersGone => ReadinessStep::Fail(BackgroundError::FailedToStart),
    }
}

/// Decides what follows `event` while a background task with a ready
/// pattern is waited for. A line that contains the pattern makes the task
/// ready, from whichever stream it came; the end of the output before that
/// is an error; once more than `timeout_seconds` have passed the process is
/// killed.
pub fn readiness_step(
    pattern: &str,
    timeout_seconds: u64,
    event: &ReadinessEvent,
    exited: Option<bool>,
) -> (step: ReadinessStep)
    ensures
        step == readiness_step_spec(pattern@, timeout_seconds, *event, exited),
{
    match event {
        ReadinessEvent::Line(text) => {
            if str_contains(text.as_str(), pattern) {
                ReadinessStep::Ready
            } else {
                quiet_step(exited)
            }
        },
        ReadinessEvent::OutputEnded => ReadinessStep::Fail(BackgroundError::ExitedBeforeReady),
        ReadinessEvent::Tick { elapsed_ms } => {
            let allowed: u128 = (timeout_seconds as u128) * 1000;
            if (*elapsed_ms as u128) > allowed {
                ReadinessStep::KillAndFail(BackgroundError::TimedOut { seconds: timeout_seconds })
            } else {
                quiet_step(exited)
            }
        },
        ReadinessEvent::ReadersGone => ReadinessStep::Fail(BackgroundError::FailedToStart),
    }
}

/// The step after an event that decided nothing.
fn quiet_step(exited: Option<bool>) -> (step: ReadinessStep)
    ensures
        step == after_quiet_event(exited),
{
    match exited {
        Some(false) => ReadinessStep::Fail(BackgroundError::ExitedWithError),
        _ => ReadinessStep::KeepWaiting,
    }
}

/// Whether the output of a background task has to be followed: only where
/// it has a ready pattern.
pub fn follows_output(task: &Task) -> (r: bool)
    ensures
        r == task@.ready_when is Some,
{
    task.ready_when.is_some()
}

/// Judges a background task without a ready pattern after its grace
/// period: it counts as started unless it has exited with an error.
pub fn after_grace_period(exited: Option<bool>) -> (r: Result<(), BackgroundError>)
    ensures
        r == if exited == Some(false) {
            Err::<(), BackgroundError>(BackgroundError::ExitedImmediately)
        } else {
            Ok::<(), BackgroundError>(())
        },
{
    match exited {
        Some(false) => Err(BackgroundError::ExitedImmediately),
        _ => Ok(()),
    }
}

/// The background tasks of a run, in the order in which they were started.
/// The processes themselves belong to the caller; the supervisor says in
/// which order they are stopped.
#[derive(Debug, Clone)]
pub struct Supervisor {
    pub started: Vec<String>,
}

impl Supervisor {
    /// A supervisor with nothing started.
    pub fn new() -> (s: Supervisor)
        ensures
            s.started@.len() == 0,
    {
        Supervisor { started: Vec::new() }
    }

    /// Notes that the background task `name` was started, after all those
    /// noted before.
    pub fn register(&mut self, name: String)
        ensures
            final(self).started@ == old(self).started@.push(name),
    {
        self.started.push(name);
    }

    /// How many background tasks are running.
    pub fn running(&self) -> (n: usize)
        ensures
            n == self.started@.len(),
    {
        self.started.len()
    }

    /// Ends the supervision: returns the tasks to stop, last started first,
    /// and forgets them.
    pub fn shutdown_all(&mut self) -> (order: Vec<String>)
        ensures
            strs(order@) == strs(old(self).started@).reverse(),
            final(self).started@.len() == 0,
    {
        let mut order: Vec<String> = Vec::new();
        let ghost all = strs(self.started@);
        while self.started.len() > 0
            invariant
                self.started@.len() + order@.len() == all.len(),
                forall|i: int| 0 <= i < self.started@.len() ==> self.started@[i]@ == all[i],
                forall|j: int| 0 <= j < order@.len() ==> order@[j]@ == all[all.len() - 1 - j],
            decreases self.started@.len(),
        {
            let last = self.started.pop();
            match last {
                Some(name) => {
                    order.push(name);
                },
                None => {},
            }
        }
        assert(strs(order@) =~= all.reverse());
        order
    }
}

} // verus!
