//! Retrying failed tasks, and telling flaky tasks from stable ones.

use vstd::prelude::*;
use vstd::arithmetic::power2::{lemma_pow2_strictly_increases, lemma_pow2_unfold, pow2};
use crate::config::Task;
use crate::db::flaky::FlakyHistory;
use crate::execution::cache::status_text;
use crate::task::TaskResult;

verus! {

/// How often and how fast a failed task is tried again.
#[derive(Debug, Clone, Copy, PartialEq, Eq)]
pub struct RetryConfig {
    /// Attempts allowed after the first one.
    pub max_retries: u32,
    /// Milliseconds to wait before the second attempt.
    pub delay_ms: u64,
    /// Whether the wait doubles with every further attempt.
    pub exponential_backoff: bool,
}

impl Default for RetryConfig {
    fn default() -> (c: RetryConfig)
        ensures
            c.max_retries == 0,
            c.delay_ms == 1000,
            !c.exponential_backoff,
    {
        RetryConfig { max_retries: 0, delay_ms: 1000, exponential_backoff: false }
    }
}

impl<'a> From<&'a Task> for RetryConfig {
    fn from(task: &'a Task) -> (c: RetryConfig) {
        RetryConfig::from_task(task)
    }
}

impl<'a> vstd::std_specs::convert::FromSpecImpl<&'a Task> for RetryConfig {
    open spec fn obeys_from_spec() -> bool {
        true
    }

    open spec fn from_spec(task: &'a Task) -> RetryConfig {
        RetryConfig {
            max_retries: task.retry,
            delay_ms: task.retry_delay_ms,
            exponential_backoff: false,
        }
    }
}

/// What one run learned about the flakiness of a task.
#[derive(Debug, Clone, Copy, PartialEq, Eq)]
pub struct FlakyInfo {
    /// Attempts made.
    pub attempts: u32,
    /// The task passed, and not at the first attempt.
    pub passed_on_retry: bool,
    /// The attempts of this run hold both a pass and a failure.
    pub is_flaky: bool,
}

/// The milliseconds to wait before attempt number `attempt` (the first
/// attempt is number 1 and is not waited for): the configured delay, doubled
/// for each attempt after the second where the backoff is exponential.
pub open spec fn delay_before(config: RetryConfig, attempt: int) -> int {
    if attempt <= 1 {
        0
    } else if config.exponential_backoff {
        config.delay_ms * pow2((attempt - 2) as nat)
    } else {
        config.delay_ms as int
    }
}

/// The delays grow with the attempt number.
pub proof fn lemma_delay_monotone(config: RetryConfig, a: int, b: int)
    requires
        2 <= a <= b,
    ensures
        delay_before(config, a) <= delay_before(config, b),
{
    if config.exponential_backoff && a < b {
        lemma_pow2_strictly_increases((a - 2) as nat, (b - 2) as nat);
        assert(config.delay_ms * pow2((a - 2) as nat) <= config.delay_ms * pow2((b - 2) as nat))
            by (nonlinear_arith)
            requires
                pow2((a - 2) as nat) <= pow2((b - 2) as nat),
        ;
    }
}

impl RetryConfig {
    /// The retry settings of a task: its retry count and delay, without
    /// exponential backoff.
    pub fn from_task(task: &Task) -> (c: RetryConfig)
        ensures
            c.max_retries == task@.retry,
            c.delay_ms == task@.retry_delay_ms,
            !c.exponential_backoff,
    {
        RetryConfig {
            max_retries: task.retry,
            delay_ms: task.retry_delay_ms,
            exponential_backoff: false,
        }
    }

    /// The milliseconds to wait before attempt number `attempt`, or `None`
    /// where that number of milliseconds does not fit in 64 bits.
    pub fn delay_for_attempt(&self, attempt: u32) -> (r: Option<u64>)
        ensures
            match r {
                Some(d) => d == delay_before(*self, attempt as int),
                None => delay_before(*self, attempt as int) > u64::MAX,
            },
    {
        if attempt <= 1 {
            return Some(0);
        }
        if !self.exponential_backoff {
            return Some(self.delay_ms);
        }
        let doublings: u32 = attempt - 2;
        let mut delay: u64 = self.delay_ms;
        let mut done: u32 = 0;
        proof {
            assert(pow2(0) == 1) by {
                lemma_pow2_unfold(1);
                vstd::arithmetic::power2::lemma2_to64();
            }
        }
        while done < doublings
            invariant
                done <= doublings,
                attempt >= 2,
                doublings == attempt - 2,
                self.exponential_backoff,
                delay == self.delay_ms * pow2(done as nat),
            decreases doublings - done,
        {
            proof {
                lemma_pow2_unfold((done + 1) as nat);
                assert(self.delay_ms * pow2((done + 1) as nat) == 2 * (self.delay_ms * pow2(
                    done as nat,
                ))) by (nonlinear_arith)
                    requires
                        pow2((done + 1) as nat) == 2 * pow2(done as nat),
                ;
            }
            match delay.checked_mul(2) {
                Some(next) => {
                    delay = next;
                },
                None => {
                    proof {
                        let config = *self;
                        assert(delay_before(config, done + 3) > u64::MAX);
                        lemma_delay_monotone(config, done + 3, attempt as int);
                    }
                    return None;
                },
            }
            done += 1;
        }
        Some(delay)
    }
}

/// The list holds a pass.
pub open spec fn has_pass(results: Seq<bool>) -> bool {
    exists|i: int| 0 <= i < results.len() && #[trigger] results[i]
}

/// The list holds a failure.
pub open spec fn has_failure(results: Seq<bool>) -> bool {
    exists|i: int| 0 <= i < results.len() && !#[trigger] results[i]
}

/// Whether a run with these attempts, in order, showed the task to be
/// flaky: more than one attempt, with both a pass and a failure among them.
pub open spec fn is_flaky_run(results: Seq<bool>) -> bool {
    results.len() > 1 && has_pass(results) && has_failure(results)
}

/// What follows an attempt.
#[derive(Debug, Clone)]
pub enum RetryStep {
    /// Wait `delay_ms` milliseconds, then make attempt number `attempt`.
    RunAgain { attempt: u32, delay_ms: u64 },
    /// The task is done; `result` is that of its last attempt.
    Finished { result: TaskResult, info: FlakyInfo },
}

/// After the attempts `results`, the task has passed.
pub open spec fn has_passed(results: Seq<bool>) -> bool {
    results.len() > 0 && results.last()
}

/// After the attempts `results`, none of which passed, no attempt is left.
pub open spec fn is_exhausted(config: RetryConfig, results: Seq<bool>) -> bool {
    results.len() > 0 && !results.last() && results.len() > config.max_retries
}

/// The flakiness that a run reports when it ends after the attempts
/// `results`.
pub open spec fn flaky_info_of(results: Seq<bool>) -> FlakyInfo {
    if has_passed(results) {
        FlakyInfo {
            attempts: results.len() as u32,
            passed_on_retry: results.len() > 1,
            is_flaky: is_flaky_run(results),
        }
    } else {
        FlakyInfo { attempts: results.len() as u32, passed_on_retry: false, is_flaky: false }
    }
}

/// The attempts of one task in one run.
#[derive(Debug, Clone)]
pub struct RetryTracker {
    pub config: RetryConfig,
    /// Whether each attempt so far passed, in order.
    pub results: Vec<bool>,
}

impl RetryTracker {
    /// The tracker may take another attempt: the task has not passed, an
    /// attempt is left, and every delay that may be asked for fits in 64
    /// bits.
    pub open spec fn wf(&self) -> bool {
        &&& self.results@.len() <= self.config.max_retries
        &&& self.config.max_retries < u32::MAX
        &&& forall|i: int| 0 <= i < self.results@.len() ==> !self.results@[i]
        &&& delay_before(self.config, self.config.max_retries + 1) <= u64::MAX
    }

    /// A tracker for a task that has not been attempted yet, or `None`
    /// where the settings ask for more than 64 bits can count: a delay of
    /// more than `u64::MAX` milliseconds, or `u32::MAX` retries.
    pub fn new(config: RetryConfig) -> (r: Option<RetryTracker>)
        ensures
            match r {
                Some(t) => t.wf() && t.config == config && t.results@.len() == 0,
                None => config.max_retries == u32::MAX || delay_before(
                    config,
                    config.max_retries + 1,
                ) > u64::MAX,
            },
    {
        if config.max_retries == u32::MAX {
            return None;
        }
        match config.delay_for_attempt(config.max_retries + 1) {
            Some(_) => Some(RetryTracker { config, results: Vec::new() }),
            None => None,
        }
    }

    /// Records the attempt that has just ended with `result` and decides
    /// what follows. A pass ends the task. A failure ends it once the
    /// retries are used up, with the result of this last attempt; before
    /// that, the task runs again after the delay of the next attempt.
    pub fn record(&mut self, result: TaskResult) -> (step: RetryStep)
        requires
            old(self).wf(),
        ensures
            final(self).config == old(self).config,
            final(self).results@ == old(self).results@.push(result.success),
            match step {
                RetryStep::Finished { result: last, info } => {
                    &&& last == result
                    &&& has_passed(final(self).results@) || is_exhausted(
                        final(self).config,
                        final(self).results@,
                    )
                    &&& info == flaky_info_of(final(self).results@)
                },
                RetryStep::RunAgain { attempt, delay_ms } => {
                    &&& !result.success
                    &&& final(self).wf()
                    &&& attempt == final(self).results@.len() + 1
                    &&& delay_ms == delay_before(final(self).config, attempt as int)
                },
            },
    {
        let ghost before = self.results@;
        let success = result.success;
        self.results.push(success);
        let attempts: u32 = self.results.len() as u32;
        proof {
            assert(self.results@.last() == success);
        }
        if success {
            let flaky = attempts > 1;
            proof {
                if flaky {
                    assert(!self.results@[0]);
                    assert(self.results@[self.results@.len() - 1]);
                }
            }
            return RetryStep::Finished {
                result,
                info: FlakyInfo { attempts, passed_on_retry: attempts > 1, is_flaky: flaky },
            };
        }
        if attempts > self.config.max_retries {
            return RetryStep::Finished {
                result,
                info: FlakyInfo { attempts, passed_on_retry: false, is_flaky: false },
            };
        }
        proof {
            lemma_delay_monotone(self.config, attempts + 1, self.config.max_retries + 1);
        }
        let delay = match self.config.delay_for_attempt(attempts + 1) {
            Some(d) => d,
            None => {
                proof {
                    assert(false);
                }
                0
            },
        };
        RetryStep::RunAgain { attempt: attempts + 1, delay_ms: delay }
    }
}

impl RetryTracker {
    /// Records the attempt as [`RetryTracker::record`] does, after it has
    /// been counted in the history of `name`: every attempt is counted
    /// there, not only the last of a run.
    pub fn record_with_history(
        &mut self,
        history: &mut FlakyHistory,
        name: &str,
        category: Option<&str>,
        result: TaskResult,
    ) -> (step: RetryStep)
        requires
            old(self).wf(),
            old(history).wf(),
        ensures
            final(history).wf(),
            old(history).runs(name@) < u32::MAX ==> final(history).runs(name@) == old(
                history,
            ).runs(name@) + 1 && final(history).passes(name@) == old(history).passes(name@)
                + if result.success {
                1int
            } else {
                0int
            },
            forall|other: Seq<char>|
                other != name@ ==> final(history).runs(other) == old(history).runs(other)
                    && final(history).passes(other) == old(history).passes(other),
            final(self).config == old(self).config,
            final(self).results@ == old(self).results@.push(result.success),
            match step {
                RetryStep::Finished { result: last, info } => {
                    &&& last == result
                    &&& has_passed(final(self).results@) || is_exhausted(
                        final(self).config,
                        final(self).results@,
                    )
                    &&& info == flaky_info_of(final(self).results@)
                },
                RetryStep::RunAgain { attempt, delay_ms } => {
                    &&& !result.success
                    &&& final(self).wf()
                    &&& attempt == final(self).results@.len() + 1
                    &&& delay_ms == delay_before(final(self).config, attempt as int)
                },
            },
    {
        let status = status_text(result.success);
        proof {
            reveal_strlit("passed");
            reveal_strlit("failed");
            assert("passed"@ != "failed"@) by {
                assert("passed"@[0] != "failed"@[0]);
            }
        }
        history.record_test_history(name, category, name, status);
        self.record(result)
    }
}

/// A task that fails at every attempt is attempted once more than it has
/// retries, and no more: after fewer failures it runs again, after that
/// many it is done.
pub proof fn lemma_always_failing(config: RetryConfig, results: Seq<bool>)
    requires
        results.len() > 0,
        forall|i: int| 0 <= i < results.len() ==> !results[i],
    ensures
        !has_passed(results),
        is_exhausted(config, results) <==> results.len() >= config.max_retries + 1,
        is_exhausted(config, results) ==> flaky_info_of(results) == (FlakyInfo {
            attempts: results.len() as u32,
            passed_on_retry: false,
            is_flaky: false,
        }),
{
}

/// The share of passes among `total_runs` runs in percent, rounded down; 100
/// where nothing has been run.
pub open spec fn flaky_score_spec(pass_count: u32, total_runs: u32) -> int {
    if total_runs == 0 {
        100
    } else {
        (pass_count * 100) / (total_runs as int)
    }
}

/// A history is flaky when its pass rate lies strictly between 20% and
/// 80%. A task without history is not flaky.
pub open spec fn is_flaky_history(pass_count: u32, total_runs: u32) -> bool {
    total_runs > 0 && 20 * total_runs < 100 * pass_count && 100 * pass_count < 80 * total_runs
}

/// The distance of the pass rate from 50% is less than `threshold`
/// percent.
pub open spec fn near_even(pass_count: u32, total_runs: u32, threshold: u32) -> bool {
    let distance = if 100 * pass_count >= 50 * total_runs {
        100 * pass_count - 50 * total_runs
    } else {
        50 * total_runs - 100 * pass_count
    };
    distance < threshold * total_runs
}

/// A task is to be quarantined when its history is flaky, holds at least 10
/// runs, and has a pass rate less than `threshold` percent away from 50%.
pub open spec fn quarantine_spec(pass_count: u32, total_runs: u32, threshold: u32) -> bool {
    is_flaky_history(pass_count, total_runs) && total_runs >= 10 && near_even(
        pass_count,
        total_runs,
        threshold,
    )
}

/// The pass rate of a history in percent, rounded down; 100 where nothing
/// has been run.
pub fn calculate_flaky_score(pass_count: u32, total_runs: u32) -> (score: u64)
    ensures
        score == flaky_score_spec(pass_count, total_runs),
{
    if total_runs == 0 {
        100
    } else {
        (pass_count as u64 * 100) / (total_runs as u64)
    }
}

/// Whether a history of `pass_count` passes in `total_runs` runs is flaky.
pub fn is_flaky(pass_count: u32, total_runs: u32) -> (r: bool)
    ensures
        r == is_flaky_history(pass_count, total_runs),
{
    let passes: u64 = pass_count as u64 * 100;
    let runs: u64 = total_runs as u64;
    total_runs > 0 && 20 * runs < passes && passes < 80 * runs
}

/// Whether a task with this history is to be quarantined.
pub fn should_quarantine(pass_count: u32, total_runs: u32, threshold: u32) -> (r: bool)
    ensures
        r == quarantine_spec(pass_count, total_runs, threshold),
{
    if !is_flaky(pass_count, total_runs) || total_runs < 10 {
        return false;
    }
    let passes: u64 = pass_count as u64 * 100;
    let half: u64 = total_runs as u64 * 50;
    let distance: u64 = if passes >= half {
        passes - half
    } else {
        half - passes
    };
    assert(threshold * total_runs <= u64::MAX) by (nonlinear_arith)
        requires
            threshold <= u32::MAX,
            total_runs <= u32::MAX,
    ;
    distance < (threshold as u64) * (total_runs as u64)
}

/// Whether a task takes part in a run: always, unless it is quarantined and
/// the run leaves quarantined tasks out.
pub fn takes_part(quarantined: bool, include_quarantined: bool) -> (r: bool)
    ensures
        r == (!quarantined || include_quarantined),
{
    !quarantined || include_quarantined
}

} // verus!
