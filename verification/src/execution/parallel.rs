//! Running the tasks of one level side by side.
//!
//! A level is split into the tasks that may share the worker pool and those
//! that run one after another. The pool starts the tasks of a batch in
//! order and never has more of them running than it has workers.

use vstd::prelude::*;
use crate::config::{Config, Profile};
use crate::graph::kahn::concat;
use crate::graph::toposort::level_names;
use crate::text::{clone_strings_slice, strs};

verus! {

/// The task called `name` exists and runs in the worker pool: it is marked
/// parallel, by itself or by the profile, and is no background task.
pub open spec fn runs_in_pool(cfg: &Config, profile_parallel: bool, name: Seq<char>) -> bool {
    cfg.has_task(name) && (cfg.task(name)@.parallel || profile_parallel) && !cfg.task(
        name,
    )@.background
}

/// The task called `name` exists and runs outside the worker pool.
pub open spec fn runs_alone(cfg: &Config, profile_parallel: bool, name: Seq<char>) -> bool {
    cfg.has_task(name) && !runs_in_pool(cfg, profile_parallel, name)
}

/// Splits the tasks of a level into those that run in the worker pool and
/// those that run one after another, each part in the order given. Names
/// that are no tasks are in neither part.
pub fn filter_parallel_tasks(config: &Config, tasks: &[String], profile: &Profile) -> (parts: (
    Vec<String>,
    Vec<String>,
))
    requires
        config.wf(),
    ensures
        strs(parts.0@) == strs(tasks@).filter(
            |name: Seq<char>| runs_in_pool(config, profile.parallel, name),
        ),
        strs(parts.1@) == strs(tasks@).filter(
            |name: Seq<char>| runs_alone(config, profile.parallel, name),
        ),
{
    let ghost pool = |name: Seq<char>| runs_in_pool(config, profile.parallel, name);
    let ghost alone = |name: Seq<char>| runs_alone(config, profile.parallel, name);
    let mut parallel_tasks: Vec<String> = Vec::new();
    let mut sequential_tasks: Vec<String> = Vec::new();
    let mut i: usize = 0;
    proof {
        reveal(Seq::filter);
        assert(strs(tasks@).subrange(0, 0) =~= Seq::<Seq<char>>::empty());
    }
    while i < tasks.len()
        invariant
            i <= tasks@.len(),
            config.wf(),
            pool == |name: Seq<char>| runs_in_pool(config, profile.parallel, name),
            alone == |name: Seq<char>| runs_alone(config, profile.parallel, name),
            strs(parallel_tasks@) == strs(tasks@).subrange(0, i as int).filter(pool),
            strs(sequential_tasks@) == strs(tasks@).subrange(0, i as int).filter(alone),
        decreases tasks.len() - i,
    {
        let ghost head = strs(tasks@).subrange(0, i as int);
        let ghost name = tasks@[i as int]@;
        proof {
            assert(strs(tasks@).subrange(0, i + 1) =~= head.push(name));
            head.lemma_filter_push(name, pool);
            head.lemma_filter_push(name, alone);
        }
        let ghost prev_pool = strs(parallel_tasks@);
        let ghost prev_alone = strs(sequential_tasks@);
        match config.get_task(tasks[i].as_str()) {
            Some(task) => {
                let is_parallel = task.parallel || profile.parallel;
                if is_parallel && !task.background {
                    parallel_tasks.push(tasks[i].clone());
                    assert(strs(parallel_tasks@) =~= prev_pool.push(name));
                } else {
                    sequential_tasks.push(tasks[i].clone());
                    assert(strs(sequential_tasks@) =~= prev_alone.push(name));
                }
            },
            None => {},
        }
        i += 1;
    }
    assert(strs(tasks@).subrange(0, tasks@.len() as int) =~= strs(tasks@));
    (parallel_tasks, sequential_tasks)
}

/// Runs batches of tasks with a bound on how many run at once.
#[derive(Debug, Clone, Copy)]
pub struct ParallelExecutor {
    pub max_workers: usize,
}

/// What the driver of a worker pool does next.
#[derive(Debug, Clone)]
pub enum PoolAction {
    /// Start the named task on a free worker.
    Start(String),
    /// Every worker is busy, or nothing is left to start: wait for a
    /// running task to end.
    Wait,
    /// Every task has been started and has ended.
    Done,
}

/// A batch of tasks on its way through a worker pool.
#[derive(Debug, Clone)]
pub struct WorkerPool {
    pub max_workers: usize,
    /// The tasks of the batch, in the order in which they are started.
    pub tasks: Vec<String>,
    /// How many tasks have been started.
    pub started: usize,
    /// How many tasks have ended.
    pub finished: usize,
}

impl ParallelExecutor {
    /// An executor with `max_workers` workers, and with one where none is
    /// asked for.
    pub fn new(max_workers: usize) -> (e: ParallelExecutor)
        ensures
            e.max_workers == if max_workers == 0 {
                1
            } else {
                max_workers
            },
    {
        ParallelExecutor {
            max_workers: if max_workers == 0 {
                1
            } else {
                max_workers
            },
        }
    }

    /// A pool for the batch `tasks`, with nothing started.
    pub fn pool(&self, tasks: &[String]) -> (p: WorkerPool)
        requires
            self.max_workers >= 1,
        ensures
            p.wf(),
            p.max_workers == self.max_workers,
            strs(p.tasks@) == strs(tasks@),
            p.started == 0,
            p.finished == 0,
    {
        WorkerPool {
            max_workers: self.max_workers,
            tasks: clone_strings_slice(tasks),
            started: 0,
            finished: 0,
        }
    }
}

impl WorkerPool {
    /// How many tasks are running.
    pub open spec fn running(&self) -> int {
        self.started - self.finished
    }

    /// The pool has a worker, has started no task that the batch lacks, and
    /// has no more tasks running than it has workers.
    pub open spec fn wf(&self) -> bool {
        &&& self.max_workers >= 1
        &&& self.finished <= self.started <= self.tasks@.len()
        &&& self.running() <= self.max_workers
    }

    /// Decides what the driver does next. A task is started only while a
    /// worker is free, and the tasks are started in the order of the batch.
    pub fn next_action(&mut self) -> (action: PoolAction)
        requires
            old(self).wf(),
        ensures
            final(self).wf(),
            final(self).tasks == old(self).tasks,
            final(self).max_workers == old(self).max_workers,
            final(self).finished == old(self).finished,
            match action {
                PoolAction::Start(name) => {
                    &&& old(self).started < old(self).tasks@.len()
                    &&& old(self).running() < old(self).max_workers
                    &&& name@ == old(self).tasks@[old(self).started as int]@
                    &&& final(self).started == old(self).started + 1
                },
                PoolAction::Wait => {
                    &&& old(self).running() > 0
                    &&& old(self).started == old(self).tasks@.len() || old(self).running()
                        == old(self).max_workers
                    &&& final(self).started == old(self).started
                },
                PoolAction::Done => {
                    &&& old(self).started == old(self).tasks@.len()
                    &&& old(self).running() == 0
                    &&& final(self).started == old(self).started
                },
            },
    {
        let running = self.started - self.finished;
        if self.started < self.tasks.len() && running < self.max_workers {
            let name = self.tasks[self.started].clone();
            self.started = self.started + 1;
            PoolAction::Start(name)
        } else if running > 0 {
            PoolAction::Wait
        } else {
            PoolAction::Done
        }
    }

    /// Notes that a running task has ended. Returns `false`, and changes
    /// nothing, where no task is running.
    pub fn task_finished(&mut self) -> (noted: bool)
        requires
            old(self).wf(),
        ensures
            final(self).wf(),
            noted == (old(self).running() > 0),
            final(self).tasks == old(self).tasks,
            final(self).max_workers == old(self).max_workers,
            final(self).started == old(self).started,
            final(self).finished == old(self).finished + if noted {
                1int
            } else {
                0int
            },
    {
        if self.finished < self.started {
            self.finished = self.finished + 1;
            true
        } else {
            false
        }
    }
}

/// Counts over an execution plan.
#[derive(Debug, Clone, Copy, PartialEq, Eq)]
pub struct ParallelStats {
    pub total_tasks: usize,
    pub parallel_tasks: usize,
    pub sequential_tasks: usize,
    pub levels: usize,
    pub max_parallelism: usize,
}

/// The size of the largest pool batch among the levels.
pub open spec fn widest_batch(cfg: &Config, profile_parallel: bool, levels: Seq<Seq<Seq<char>>>) -> nat
    decreases levels.len(),
{
    if levels.len() == 0 {
        0
    } else {
        let rest = widest_batch(cfg, profile_parallel, levels.drop_last());
        let here = levels.last().filter(|name: Seq<char>| runs_in_pool(cfg, profile_parallel, name)).len();
        if here > rest {
            here
        } else {
            rest
        }
    }
}

impl ParallelStats {
    /// Counts the tasks of a plan: all of them, those that run in the pool,
    /// those that run alone, the levels, and the largest pool batch.
    pub fn from_levels(levels: &[Vec<String>], config: &Config, profile: &Profile) -> (stats:
        ParallelStats)
        requires
            config.wf(),
            concat(level_names(levels@)).len() <= usize::MAX,
        ensures
            stats.total_tasks == concat(level_names(levels@)).len(),
            stats.parallel_tasks == concat(level_names(levels@)).filter(
                |name: Seq<char>| runs_in_pool(config, profile.parallel, name),
            ).len(),
            stats.sequential_tasks == concat(level_names(levels@)).filter(
                |name: Seq<char>| runs_alone(config, profile.parallel, name),
            ).len(),
            stats.levels == levels@.len(),
            stats.max_parallelism == widest_batch(config, profile.parallel, level_names(levels@)),
    {
        let ghost pool = |name: Seq<char>| runs_in_pool(config, profile.parallel, name);
        let ghost alone = |name: Seq<char>| runs_alone(config, profile.parallel, name);
        let ghost all = level_names(levels@);
        let mut total_tasks: usize = 0;
        let mut parallel_tasks: usize = 0;
        let mut sequential_tasks: usize = 0;
        let mut max_parallelism: usize = 0;
        let mut l: usize = 0;
        proof {
            reveal(Seq::filter);
            assert(all.subrange(0, 0) =~= Seq::<Seq<Seq<char>>>::empty());
        }
        while l < levels.len()
            invariant
                l <= levels@.len(),
                config.wf(),
                all == level_names(levels@),
                concat(all).len() <= usize::MAX,
                pool == |name: Seq<char>| runs_in_pool(config, profile.parallel, name),
                alone == |name: Seq<char>| runs_alone(config, profile.parallel, name),
                total_tasks == concat(all.subrange(0, l as int)).len(),
                parallel_tasks == concat(all.subrange(0, l as int)).filter(pool).len(),
                sequential_tasks == concat(all.subrange(0, l as int)).filter(alone).len(),
                max_parallelism == widest_batch(config, profile.parallel, all.subrange(0, l as int)),
            decreases levels.len() - l,
        {
            let (parallel, sequential) = filter_parallel_tasks(config, levels[l].as_slice(), profile);
            proof {
                let head = all.subrange(0, l as int);
                let next = all.subrange(0, l + 1);
                let level = all[l as int];
                assert(next.drop_last() =~= head);
                assert(next.last() == level);
                assert(concat(next) == concat(head) + level);
                Seq::filter_distributes_over_add(concat(head), level, pool);
                Seq::filter_distributes_over_add(concat(head), level, alone);
                level.lemma_filter_len(pool);
                level.lemma_filter_len(alone);
                lemma_concat_prefix_len(all, l + 1);
                concat(next).lemma_filter_len(pool);
                concat(next).lemma_filter_len(alone);
            }
            total_tasks = total_tasks + levels[l].len();
            parallel_tasks = parallel_tasks + parallel.len();
            sequential_tasks = sequential_tasks + sequential.len();
            if parallel.len() > max_parallelism {
                max_parallelism = parallel.len();
            }
            l += 1;
        }
        assert(all.subrange(0, all.len() as int) =~= all);
        ParallelStats {
            total_tasks,
            parallel_tasks,
            sequential_tasks,
            levels: levels.len(),
            max_parallelism,
        }
    }
}

/// The first levels of a plan hold no more names than the whole plan.
proof fn lemma_concat_prefix_len<A>(levels: Seq<Seq<A>>, l: int)
    requires
        0 <= l <= levels.len(),
    ensures
        concat(levels.subrange(0, l)).len() <= concat(levels).len(),
    decreases levels.len() - l,
{
    if l < levels.len() {
        lemma_concat_prefix_len(levels, l + 1);
        let next = levels.subrange(0, l + 1);
        assert(next.drop_last() =~= levels.subrange(0, l));
    } else {
        assert(levels.subrange(0, l) =~= levels);
    }
}

} // verus!

pub use crate::graph::toposort::calculate_execution_levels;
