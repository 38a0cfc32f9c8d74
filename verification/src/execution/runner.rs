//! One run of a plan: which task or batch comes next, what each outcome
//! does to the run, and when the run ends.
//!
//! The caller executes; the run decides. Levels are taken strictly in
//! order. Within a level the pool batch comes first, then the other tasks
//! one by one. A failure under fail-fast, or a background task that does
//! not become ready, ends the run at once. However the run ends, the
//! background tasks that it started are handed back to be stopped, last
//! started first.

use vstd::prelude::*;
use crate::config::{Config, Profile, Task};
use crate::execution::parallel::{filter_parallel_tasks, runs_alone, runs_in_pool};
use crate::task::{BackgroundError, Supervisor, TaskResult};
use crate::text::{clone_strings, strs};

verus! {

/// How a run is carried out.
#[derive(Debug, Clone)]
pub struct RunOptions {
    /// Run the tasks of a level side by side where they allow it.
    pub parallel: bool,
    /// Number of workers of the pool.
    pub workers: usize,
    /// Skip tasks whose cached result is alive.
    pub use_cache: bool,
    /// End the run at the first failure.
    pub fail_fast: bool,
    /// Run quarantined tests too.
    pub include_quarantined: bool,
    /// Name of the profile to use.
    pub profile: Option<String>,
    /// Verbose output.
    pub verbose: bool,
}

impl Default for RunOptions {
    fn default() -> (o: RunOptions)
        ensures
            !o.parallel,
            o.workers == 0,
            !o.use_cache,
            !o.fail_fast,
            !o.include_quarantined,
            o.profile is None,
            !o.verbose,
    {
        RunOptions {
            parallel: false,
            workers: 0,
            use_cache: false,
            fail_fast: false,
            include_quarantined: false,
            profile: None,
            verbose: false,
        }
    }
}

impl RunOptions {
    /// The options that a profile asks for; 4 workers where it names no
    /// number.
    pub fn from_profile(profile: &Profile) -> (o: RunOptions)
        ensures
            o.parallel == profile.parallel,
            o.workers == match profile.workers {
                Some(w) => w,
                None => 4usize,
            },
            o.use_cache == profile.cache,
            o.fail_fast == profile.fail_fast,
            !o.include_quarantined,
            o.profile is None,
            o.verbose == profile.verbose,
    {
        RunOptions {
            parallel: profile.parallel,
            workers: match profile.workers {
                Some(w) => w,
                None => 4,
            },
            use_cache: profile.cache,
            fail_fast: profile.fail_fast,
            include_quarantined: false,
            profile: None,
            verbose: profile.verbose,
        }
    }
}

/// How a task is handled in a run.
#[derive(Debug, Clone, Copy, PartialEq, Eq)]
pub enum TaskKind {
    /// Its cached result is alive: it is skipped.
    Cached,
    /// It is started in the background and supervised.
    Background,
    /// It is executed and waited for, with retries where `retries` is set.
    Foreground { retries: bool },
}

/// Decides how a task is handled: a cache hit skips it, whatever it is;
/// else a background task is supervised and any other task executed.
pub fn classify_task(task: &Task, cache_hit: bool) -> (kind: TaskKind)
    ensures
        kind == if cache_hit {
            TaskKind::Cached
        } else if task@.background {
            TaskKind::Background
        } else {
            TaskKind::Foreground { retries: task@.retry > 0 }
        },
{
    if cache_hit {
        TaskKind::Cached
    } else if task.background {
        TaskKind::Background
    } else {
        TaskKind::Foreground { retries: task.retry > 0 }
    }
}

/// What became of a task that the run asked for.
#[derive(Debug, Clone)]
pub enum TaskOutcome {
    /// It was skipped for its cached result.
    Cached,
    /// It was executed.
    Completed(TaskResult),
    /// It was started in the background and is ready.
    BackgroundStarted,
    /// It was started in the background and did not become ready.
    BackgroundFailed(BackgroundError),
    /// It could not be executed at all; nothing is known of it.
    Lost,
}

/// Why a run ended before its plan.
#[derive(Debug, Clone, Copy, PartialEq, Eq)]
pub enum StopReason {
    /// A task failed and the run is fail-fast.
    TaskFailed,
    /// A background task did not become ready.
    Background(BackgroundError),
}

/// The tasks of one level, split for execution.
#[derive(Debug, Clone)]
pub struct LevelPlan {
    /// The tasks that run side by side in the worker pool.
    pub parallel: Vec<String>,
    /// The tasks that run one after another, after the pool batch.
    pub sequential: Vec<String>,
}

/// What the caller does next.
#[derive(Debug, Clone)]
pub enum RunAction {
    /// Run these tasks side by side, then report all their outcomes.
    RunBatch { tasks: Vec<String> },
    /// Run the named task, then report its outcome.
    RunTask { name: String },
    /// The run is over: stop the background tasks and report.
    Finish,
}

/// What a run came to.
#[derive(Debug, Clone)]
pub struct RunSummary {
    pub passed: usize,
    pub failed: usize,
    pub cached: usize,
    pub total_duration_ms: u128,
    pub failed_tasks: Vec<String>,
}

/// The state of a run.
#[derive(Debug, Clone)]
pub struct RunState {
    pub fail_fast: bool,
    pub levels: Vec<LevelPlan>,
    /// The level that is being run.
    pub level: usize,
    /// Whether the pool batch of the level has been reported.
    pub batch_done: bool,
    /// How many of the level's other tasks have been reported.
    pub next_sequential: usize,
    pub stopped: Option<StopReason>,
    /// The results of the executed tasks, in the order reported.
    pub results: Vec<TaskResult>,
    /// The tasks skipped for their cached results, in the order reported.
    pub skipped: Vec<String>,
    pub supervisor: Supervisor,
}

/// The successes among `results`.
pub open spec fn passes_of(results: Seq<TaskResult>) -> Seq<TaskResult> {
    results.filter(|r: TaskResult| r.success)
}

/// The failures among `results`.
pub open spec fn failures_of(results: Seq<TaskResult>) -> Seq<TaskResult> {
    results.filter(|r: TaskResult| !r.success)
}

/// One of `outcomes` is a failed task.
pub open spec fn any_failure(outcomes: Seq<TaskOutcome>) -> bool {
    exists|i: int|
        0 <= i < outcomes.len() && (#[trigger] outcomes[i] matches TaskOutcome::Completed(r)
            && !r.success)
}

/// The first background error among `outcomes`, if there is one.
pub open spec fn first_background_error(outcomes: Seq<TaskOutcome>) -> Option<BackgroundError>
    decreases outcomes.len(),
{
    if outcomes.len() == 0 {
        None
    } else {
        match first_background_error(outcomes.drop_last()) {
            Some(e) => Some(e),
            None => match outcomes.last() {
                TaskOutcome::BackgroundFailed(e) => Some(e),
                _ => None,
            },
        }
    }
}

/// The results that `outcomes` add to a run, in order.
pub open spec fn results_of(outcomes: Seq<TaskOutcome>) -> Seq<TaskResult>
    decreases outcomes.len(),
{
    if outcomes.len() == 0 {
        Seq::empty()
    } else {
        match outcomes.last() {
            TaskOutcome::Completed(r) => results_of(outcomes.drop_last()).push(r),
            _ => results_of(outcomes.drop_last()),
        }
    }
}

/// The names, among `names`, whose outcome in `outcomes` is `Cached`.
pub open spec fn skipped_of(names: Seq<Seq<char>>, outcomes: Seq<TaskOutcome>) -> Seq<Seq<char>>
    decreases outcomes.len(),
{
    if outcomes.len() == 0 || names.len() != outcomes.len() {
        Seq::empty()
    } else {
        match outcomes.last() {
            TaskOutcome::Cached => skipped_of(names.drop_last(), outcomes.drop_last()).push(
                names.last(),
            ),
            _ => skipped_of(names.drop_last(), outcomes.drop_last()),
        }
    }
}

/// The names, among `names`, whose outcome in `outcomes` is a background
/// task that is ready.
pub open spec fn started_of(names: Seq<Seq<char>>, outcomes: Seq<TaskOutcome>) -> Seq<Seq<char>>
    decreases outcomes.len(),
{
    if outcomes.len() == 0 || names.len() != outcomes.len() {
        Seq::empty()
    } else {
        match outcomes.last() {
            TaskOutcome::BackgroundStarted => started_of(
                names.drop_last(),
                outcomes.drop_last(),
            ).push(names.last()),
            _ => started_of(names.drop_last(), outcomes.drop_last()),
        }
    }
}

/// Something is due at the place `(level, batch_done, next)` of the plan:
/// the pool batch of the level, or one of its other tasks.
pub open spec fn due_at(levels: Seq<LevelPlan>, level: int, batch_done: bool, next: int) -> bool {
    &&& 0 <= level < levels.len()
    &&& (!batch_done && levels[level].parallel@.len() > 0) || next
        < levels[level].sequential@.len()
}

/// The first place at or after `(level, batch_done, next)` at which
/// something is due; the end of the plan where nothing is.
pub open spec fn next_due(levels: Seq<LevelPlan>, level: int, batch_done: bool, next: int) -> (
    int,
    bool,
    int,
)
    decreases levels.len() - level,
{
    if level < 0 || level >= levels.len() || due_at(levels, level, batch_done, next) {
        (level, batch_done, next)
    } else {
        next_due(levels, level + 1, false, 0)
    }
}

impl RunState {
    /// The place of the run in its plan: the level, whether its pool batch
    /// has been reported, and how many of its other tasks have.
    pub open spec fn place(&self) -> (int, bool, int) {
        (self.level as int, self.batch_done, self.next_sequential as int)
    }

    /// The pool batch of the current level is due.
    pub open spec fn batch_due(&self) -> bool {
        &&& self.stopped is None
        &&& self.level < self.levels@.len()
        &&& !self.batch_done
        &&& self.levels@[self.level as int].parallel@.len() > 0
    }

    /// One of the other tasks of the current level is due.
    pub open spec fn task_due(&self) -> bool {
        &&& self.stopped is None
        &&& self.level < self.levels@.len()
        &&& !self.batch_due()
        &&& self.next_sequential < self.levels@[self.level as int].sequential@.len()
    }

    /// The run is over: it was stopped, or its plan is done.
    pub open spec fn is_over(&self) -> bool {
        self.stopped is Some || self.level >= self.levels@.len()
    }

    /// The cursor stands inside the plan and, unless the run is over, on
    /// something that is due.
    pub open spec fn wf(&self) -> bool {
        &&& self.level <= self.levels@.len()
        &&& self.level < self.levels@.len() ==> self.next_sequential
            <= self.levels@[self.level as int].sequential@.len()
        &&& !self.is_over() ==> self.batch_due() || self.task_due()
    }

    /// The background tasks that the run has started, in order.
    pub open spec fn backgrounds(&self) -> Seq<Seq<char>> {
        strs(self.supervisor.started@)
    }

    /// Moves the cursor past the levels on which nothing is due.
    fn settle(&mut self)
        requires
            old(self).level <= old(self).levels@.len(),
            old(self).level < old(self).levels@.len() ==> old(self).next_sequential
                <= old(self).levels@[old(self).level as int].sequential@.len(),
        ensures
            final(self).wf(),
            final(self).fail_fast == old(self).fail_fast,
            final(self).levels == old(self).levels,
            final(self).stopped == old(self).stopped,
            final(self).results == old(self).results,
            final(self).skipped == old(self).skipped,
            final(self).supervisor == old(self).supervisor,
            final(self).level >= old(self).level,
            old(self).is_over() || old(self).batch_due() || old(self).task_due() ==> *final(self)
                == *old(self),
            final(self).place() == if old(self).stopped is Some {
                old(self).place()
            } else {
                next_due(
                    old(self).levels@,
                    old(self).level as int,
                    old(self).batch_done,
                    old(self).next_sequential as int,
                )
            },
    {
        while self.stopped.is_none() && self.level < self.levels.len() && !((!self.batch_done
            && self.levels[self.level].parallel.len() > 0) || self.next_sequential
            < self.levels[self.level].sequential.len())
            invariant
                self.level <= self.levels@.len(),
                self.level < self.levels@.len() ==> self.next_sequential
                    <= self.levels@[self.level as int].sequential@.len(),
                self.fail_fast == old(self).fail_fast,
                self.levels == old(self).levels,
                self.stopped == old(self).stopped,
                self.results == old(self).results,
                self.skipped == old(self).skipped,
                self.supervisor == old(self).supervisor,
                self.level >= old(self).level,
                old(self).is_over() || old(self).batch_due() || old(self).task_due() ==> *self
                    == *old(self),
                old(self).stopped is Some ==> self.place() == old(self).place(),
                next_due(
                    self.levels@,
                    self.level as int,
                    self.batch_done,
                    self.next_sequential as int,
                ) == next_due(
                    old(self).levels@,
                    old(self).level as int,
                    old(self).batch_done,
                    old(self).next_sequential as int,
                ),
            decreases self.levels@.len() - self.level,
        {
            self.level = self.level + 1;
            self.batch_done = false;
            self.next_sequential = 0;
        }
    }

    /// A run of the plan `levels`. Where the options ask for parallel
    /// execution each level is split into its pool batch and its other
    /// tasks; else every task runs on its own, level after level.
    pub fn new(config: &Config, levels: &Vec<Vec<String>>, options: &RunOptions, profile: &Profile) -> (run:
        RunState)
        requires
            config.wf(),
        ensures
            run.wf(),
            run.fail_fast == options.fail_fast,
            run.stopped is None,
            run.place() == next_due(run.levels@, 0, false, 0),
            run.results@.len() == 0,
            run.skipped@.len() == 0,
            run.backgrounds().len() == 0,
            run.levels@.len() == levels@.len(),
            forall|l: int|
                0 <= l < levels@.len() ==> {
                    &&& strs((#[trigger] run.levels@[l]).parallel@) == if options.parallel {
                        strs(levels@[l]@).filter(
                            |name: Seq<char>| runs_in_pool(config, profile.parallel, name),
                        )
                    } else {
                        Seq::<Seq<char>>::empty()
                    }
                    &&& strs(run.levels@[l].sequential@) == if options.parallel {
                        strs(levels@[l]@).filter(
                            |name: Seq<char>| runs_alone(config, profile.parallel, name),
                        )
                    } else {
                        strs(levels@[l]@)
                    }
                },
    {
        let mut plans: Vec<LevelPlan> = Vec::new();
        let mut l: usize = 0;
        while l < levels.len()
            invariant
                l <= levels@.len(),
                config.wf(),
                plans@.len() == l,
                forall|j: int|
                    0 <= j < l ==> {
                        &&& strs((#[trigger] plans@[j]).parallel@) == if options.parallel {
                            strs(levels@[j]@).filter(
                                |name: Seq<char>| runs_in_pool(config, profile.parallel, name),
                            )
                        } else {
                            Seq::<Seq<char>>::empty()
                        }
                        &&& strs(plans@[j].sequential@) == if options.parallel {
                            strs(levels@[j]@).filter(
                                |name: Seq<char>| runs_alone(config, profile.parallel, name),
                            )
                        } else {
                            strs(levels@[j]@)
                        }
                    },
            decreases levels.len() - l,
        {
            let plan = if options.parallel {
                let (parallel, sequential) = filter_parallel_tasks(
                    config,
                    levels[l].as_slice(),
                    profile,
                );
                LevelPlan { parallel, sequential }
            } else {
                let none: Vec<String> = Vec::new();
                assert(strs(none@) =~= Seq::<Seq<char>>::empty());
                LevelPlan { parallel: none, sequential: clone_strings(&levels[l]) }
            };
            plans.push(plan);
            l += 1;
        }
        let mut run = RunState {
            fail_fast: options.fail_fast,
            levels: plans,
            level: 0,
            batch_done: false,
            next_sequential: 0,
            stopped: None,
            results: Vec::new(),
            skipped: Vec::new(),
            supervisor: Supervisor::new(),
        };
        run.settle();
        run
    }

    /// What the caller does next: the pool batch of the current level, then
    /// its other tasks in order, and `Finish` once the run is over.
    pub fn next_action(&self) -> (action: RunAction)
        requires
            self.wf(),
        ensures
            match action {
                RunAction::RunBatch { tasks } => self.batch_due() && strs(tasks@) == strs(
                    self.levels@[self.level as int].parallel@,
                ),
                RunAction::RunTask { name } => self.task_due() && name@
                    == self.levels@[self.level as int].sequential@[self.next_sequential as int]@,
                RunAction::Finish => self.is_over(),
            },
    {
        if self.stopped.is_some() || self.level >= self.levels.len() {
            return RunAction::Finish;
        }
        let plan = &self.levels[self.level];
        if !self.batch_done && plan.parallel.len() > 0 {
            RunAction::RunBatch { tasks: clone_strings(&plan.parallel) }
        } else {
            RunAction::RunTask { name: plan.sequential[self.next_sequential].clone() }
        }
    }

    /// Takes in the outcome of the task that was due. A skipped task is
    /// noted, a result kept, a started background task put under
    /// supervision. The run stops where the task failed and the run is
    /// fail-fast, and where a background task did not become ready.
    pub fn record_task(&mut self, outcome: TaskOutcome)
        requires
            old(self).wf(),
            old(self).task_due(),
        ensures
            final(self).wf(),
            final(self).fail_fast == old(self).fail_fast,
            final(self).levels == old(self).levels,
            final(self).level >= old(self).level,
            final(self).place() == if final(self).stopped is Some {
                (old(self).level as int, old(self).batch_done, old(self).next_sequential + 1)
            } else {
                next_due(
                    old(self).levels@,
                    old(self).level as int,
                    old(self).batch_done,
                    old(self).next_sequential + 1,
                )
            },
            final(self).stopped == match outcome {
                TaskOutcome::Completed(r) => if !r.success && old(self).fail_fast {
                    Some(StopReason::TaskFailed)
                } else {
                    None
                },
                TaskOutcome::BackgroundFailed(e) => Some(StopReason::Background(e)),
                _ => None,
            },
            final(self).results@ == match outcome {
                TaskOutcome::Completed(r) => old(self).results@.push(r),
                _ => old(self).results@,
            },
            strs(final(self).skipped@) == match outcome {
                TaskOutcome::Cached => strs(old(self).skipped@).push(
                    old(self).levels@[old(self).level as int].sequential@[old(
                        self,
                    ).next_sequential as int]@,
                ),
                _ => strs(old(self).skipped@),
            },
            final(self).backgrounds() == match outcome {
                TaskOutcome::BackgroundStarted => old(self).backgrounds().push(
                    old(self).levels@[old(self).level as int].sequential@[old(
                        self,
                    ).next_sequential as int]@,
                ),
                _ => old(self).backgrounds(),
            },
    {
        let ghost before = *self;
        let name = self.levels[self.level].sequential[self.next_sequential].clone();
        let due = self.levels[self.level].sequential.len();
        assert(self.next_sequential < due);
        self.next_sequential = self.next_sequential + 1;
        match outcome {
            TaskOutcome::Cached => {
                self.skipped.push(name);
                assert(strs(self.skipped@) =~= strs(before.skipped@).push(name@));
            },
            TaskOutcome::Completed(result) => {
                if !result.success && self.fail_fast {
                    self.stopped = Some(StopReason::TaskFailed);
                }
                self.results.push(result);
            },
            TaskOutcome::BackgroundStarted => {
                self.supervisor.register(name);
                assert(self.backgrounds() =~= before.backgrounds().push(name@));
            },
            TaskOutcome::BackgroundFailed(error) => {
                self.stopped = Some(StopReason::Background(error));
            },
            TaskOutcome::Lost => {},
        }
        self.settle();
    }

    /// Takes in the outcomes of the pool batch that was due, one for each
    /// task of the batch, in the order of the batch. The tasks of a batch
    /// end in any order, so all of them are taken in; then the run stops
    /// where one of them failed and the run is fail-fast, and where a
    /// background task did not become ready.
    pub fn record_batch(&mut self, outcomes: Vec<TaskOutcome>)
        requires
            old(self).wf(),
            old(self).batch_due(),
            outcomes@.len() == old(self).levels@[old(self).level as int].parallel@.len(),
        ensures
            final(self).wf(),
            final(self).fail_fast == old(self).fail_fast,
            final(self).levels == old(self).levels,
            final(self).level >= old(self).level,
            final(self).place() == if final(self).stopped is Some {
                (old(self).level as int, true, old(self).next_sequential as int)
            } else {
                next_due(
                    old(self).levels@,
                    old(self).level as int,
                    true,
                    old(self).next_sequential as int,
                )
            },
            final(self).stopped == match first_background_error(outcomes@) {
                Some(e) => Some(StopReason::Background(e)),
                None => if old(self).fail_fast && any_failure(outcomes@) {
                    Some(StopReason::TaskFailed)
                } else {
                    None
                },
            },
            final(self).results@ == old(self).results@ + results_of(outcomes@),
            strs(final(self).skipped@) == strs(old(self).skipped@) + skipped_of(
                strs(old(self).levels@[old(self).level as int].parallel@),
                outcomes@,
            ),
            final(self).backgrounds() == old(self).backgrounds() + started_of(
                strs(old(self).levels@[old(self).level as int].parallel@),
                outcomes@,
            ),
    {
        let ghost before = *self;
        let ghost names = strs(self.levels@[self.level as int].parallel@);
        let ghost all = outcomes@;
        let mut failed = false;
        let mut error: Option<BackgroundError> = None;
        let mut outcomes = outcomes;
        let mut rest: Vec<TaskOutcome> = Vec::new();
        // Take the outcomes from the back, so that each is moved out once.
        while outcomes.len() > 0
            invariant
                rest@.len() + outcomes@.len() == all.len(),
                forall|i: int| 0 <= i < outcomes@.len() ==> outcomes@[i] == all[i],
                forall|j: int| 0 <= j < rest@.len() ==> rest@[j] == all[all.len() - 1 - j],
            decreases outcomes@.len(),
        {
            match outcomes.pop() {
                Some(o) => {
                    rest.push(o);
                },
                None => {},
            }
        }
        let n = rest.len();
        let mut i: usize = 0;
        proof {
            assert(all.subrange(0, 0) =~= Seq::<TaskOutcome>::empty());
            assert(names.subrange(0, 0) =~= Seq::<Seq<char>>::empty());
            assert(self.results@ =~= before.results@ + results_of(all.subrange(0, 0)));
            assert(strs(self.skipped@) =~= strs(before.skipped@) + skipped_of(
                names.subrange(0, 0),
                all.subrange(0, 0),
            ));
            assert(self.backgrounds() =~= before.backgrounds() + started_of(
                names.subrange(0, 0),
                all.subrange(0, 0),
            ));
        }
        while i < n
            invariant
                i <= n,
                n == all.len(),
                rest@.len() == n - i,
                forall|j: int| 0 <= j < rest@.len() ==> rest@[j] == all[all.len() - 1 - j],
                names == strs(before.levels@[before.level as int].parallel@),
                names.len() == all.len(),
                self.levels == before.levels,
                self.level == before.level,
                self.fail_fast == before.fail_fast,
                self.next_sequential == before.next_sequential,
                self.stopped == before.stopped,
                self.batch_done == before.batch_done,
                before.batch_due(),
                failed == any_failure(all.subrange(0, i as int)),
                error == first_background_error(all.subrange(0, i as int)),
                self.results@ == before.results@ + results_of(all.subrange(0, i as int)),
                strs(self.skipped@) == strs(before.skipped@) + skipped_of(
                    names.subrange(0, i as int),
                    all.subrange(0, i as int),
                ),
                self.backgrounds() == before.backgrounds() + started_of(
                    names.subrange(0, i as int),
                    all.subrange(0, i as int),
                ),
            decreases n - i,
        {
            let ghost head = all.subrange(0, i as int);
            let ghost next = all.subrange(0, i + 1);
            let ghost head_names = names.subrange(0, i as int);
            let ghost next_names = names.subrange(0, i + 1);
            let ghost old_skipped = strs(self.skipped@);
            let ghost old_started = self.backgrounds();
            proof {
                assert(next.drop_last() =~= head);
                assert(next.last() == all[i as int]);
                assert(next_names.drop_last() =~= head_names);
                assert(next_names.last() == names[i as int]);
                if any_failure(next) {
                    let w = choose|w: int|
                        0 <= w < next.len() && (#[trigger] next[w] matches TaskOutcome::Completed(
                            r,
                        ) && !r.success);
                    if w < i {
                        assert(head[w] == next[w]);
                    }
                }
                if any_failure(head) {
                    let w = choose|w: int|
                        0 <= w < head.len() && (#[trigger] head[w] matches TaskOutcome::Completed(
                            r,
                        ) && !r.success);
                    assert(next[w] == head[w]);
                }
            }
            let name = self.levels[self.level].parallel[i].clone();
            assert(name@ == names[i as int]);
            let outcome = match rest.pop() {
                Some(o) => o,
                None => {
                    proof {
                        assert(false);
                    }
                    TaskOutcome::Lost
                },
            };
            assert(outcome == all[i as int]);
            match outcome {
                TaskOutcome::Cached => {
                    self.skipped.push(name);
                    assert(strs(self.skipped@) =~= old_skipped.push(name@));
                },
                TaskOutcome::Completed(result) => {
                    if !result.success {
                        failed = true;
                        assert(next[i as int] == all[i as int]);
                    }
                    self.results.push(result);
                },
                TaskOutcome::BackgroundStarted => {
                    self.supervisor.register(name);
                    assert(self.backgrounds() =~= old_started.push(name@));
                },
                TaskOutcome::BackgroundFailed(e) => {
                    if error.is_none() {
                        error = Some(e);
                    }
                },
                TaskOutcome::Lost => {},
            }
            proof {
                assert(self.results@ =~= before.results@ + results_of(next));
                assert(strs(self.skipped@) =~= strs(before.skipped@) + skipped_of(next_names, next));
                assert(self.backgrounds() =~= before.backgrounds() + started_of(next_names, next));
            }
            i += 1;
        }
        proof {
            assert(all.subrange(0, n as int) =~= all);
            assert(names.subrange(0, n as int) =~= names);
        }
        self.batch_done = true;
        match error {
            Some(e) => {
                self.stopped = Some(StopReason::Background(e));
            },
            None => {
                if failed && self.fail_fast {
                    self.stopped = Some(StopReason::TaskFailed);
                }
            },
        }
        self.settle();
    }

    /// Ends the run: returns the background tasks to stop, last started
    /// first, and leaves none under supervision. This is due on every way
    /// out of a run.
    pub fn finish(&mut self) -> (teardown: Vec<String>)
        ensures
            strs(teardown@) == old(self).backgrounds().reverse(),
            final(self).backgrounds().len() == 0,
            final(self).results == old(self).results,
            final(self).skipped == old(self).skipped,
            final(self).stopped == old(self).stopped,
    {
        self.supervisor.shutdown_all()
    }

    /// What the run came to so far: how many tasks passed, failed and were
    /// skipped, the time the executed tasks took together, and the names of
    /// the failed ones in the order reported. `None` where the times do not
    /// add up in 128 bits.
    pub fn summary(&self) -> (r: Option<RunSummary>)
        ensures
            match r {
                Some(s) => {
                    &&& s.passed == passes_of(self.results@).len()
                    &&& s.failed == failures_of(self.results@).len()
                    &&& s.cached == self.skipped@.len()
                    &&& s.total_duration_ms == total_duration(self.results@)
                    &&& strs(s.failed_tasks@) == failed_names(self.results@)
                },
                None => total_duration(self.results@) > u128::MAX,
            },
    {
        let ghost pass = |r: TaskResult| r.success;
        let ghost fail = |r: TaskResult| !r.success;
        let mut passed: usize = 0;
        let mut failed: usize = 0;
        let mut total: u128 = 0;
        let mut names: Vec<String> = Vec::new();
        let mut i: usize = 0;
        proof {
            reveal(Seq::filter);
            assert(self.results@.subrange(0, 0) =~= Seq::<TaskResult>::empty());
        }
        while i < self.results.len()
            invariant
                i <= self.results@.len(),
                pass == |r: TaskResult| r.success,
                fail == |r: TaskResult| !r.success,
                passed == self.results@.subrange(0, i as int).filter(pass).len(),
                failed == self.results@.subrange(0, i as int).filter(fail).len(),
                total == total_duration(self.results@.subrange(0, i as int)),
                strs(names@) == failed_names(self.results@.subrange(0, i as int)),
            decreases self.results.len() - i,
        {
            let ghost head = self.results@.subrange(0, i as int);
            let ghost next = self.results@.subrange(0, i + 1);
            let ghost prev_names = strs(names@);
            proof {
                assert(next =~= head.push(self.results@[i as int]));
                assert(next.drop_last() =~= head);
                head.lemma_filter_push(self.results@[i as int], pass);
                head.lemma_filter_push(self.results@[i as int], fail);
                next.lemma_filter_len(pass);
                next.lemma_filter_len(fail);
            }
            let result = &self.results[i];
            if result.success {
                passed = passed + 1;
            } else {
                failed = failed + 1;
                names.push(result.name.clone());
                assert(strs(names@) =~= prev_names.push(result.name@));
            }
            match total.checked_add(result.duration_ms) {
                Some(sum) => {
                    total = sum;
                },
                None => {
                    proof {
                        lemma_duration_prefix(self.results@, i + 1);
                    }
                    return None;
                },
            }
            i += 1;
        }
        assert(self.results@.subrange(0, self.results@.len() as int) =~= self.results@);
        Some(
            RunSummary {
                passed,
                failed,
                cached: self.skipped.len(),
                total_duration_ms: total,
                failed_tasks: names,
            },
        )
    }
}

/// The milliseconds that the executed tasks took together.
pub open spec fn total_duration(results: Seq<TaskResult>) -> int
    decreases results.len(),
{
    if results.len() == 0 {
        0
    } else {
        total_duration(results.drop_last()) + results.last().duration_ms
    }
}

/// The names of the failed tasks, in order.
pub open spec fn failed_names(results: Seq<TaskResult>) -> Seq<Seq<char>>
    decreases results.len(),
{
    if results.len() == 0 {
        Seq::empty()
    } else if results.last().success {
        failed_names(results.drop_last())
    } else {
        failed_names(results.drop_last()).push(results.last().name@)
    }
}

/// The first results take no longer than all of them.
proof fn lemma_duration_prefix(results: Seq<TaskResult>, i: int)
    requires
        0 <= i <= results.len(),
    ensures
        total_duration(results.subrange(0, i)) <= total_duration(results),
    decreases results.len() - i,
{
    if i < results.len() {
        lemma_duration_prefix(results, i + 1);
        let next = results.subrange(0, i + 1);
        assert(next.drop_last() =~= results.subrange(0, i));
    } else {
        assert(results.subrange(0, i) =~= results);
    }
}

/// Under fail-fast a failed task ends the run: nothing is due after it.
pub proof fn lemma_fail_fast_stops(run: RunState)
    requires
        run.wf(),
        run.stopped is Some,
    ensures
        run.is_over(),
        !run.batch_due(),
        !run.task_due(),
{
}

/// The process exit code of a run: zero exactly when no task failed.
pub fn exit_code(summary: &RunSummary) -> (code: i32)
    ensures
        code == if summary.failed == 0 {
            0i32
        } else {
            1i32
        },
{
    if summary.failed == 0 {
        0
    } else {
        1
    }
}

} // verus!
