//! Tests as a test explorer shows them: their status, and the filters over
//! it.

use vstd::prelude::*;

verus! {

/// Status of a test.
#[derive(Debug, Clone, Copy, PartialEq, Eq, Structural)]
pub enum TestStatus {
    /// The test has never been run.
    Pending,
    /// The test is running.
    Running,
    /// The test passed.
    Passed,
    /// The test failed.
    Failed,
    /// The test is marked to be ignored.
    Ignored,
}

impl Default for TestStatus {
    fn default() -> (s: TestStatus)
        ensures
            s == TestStatus::Pending,
    {
        TestStatus::Pending
    }
}

impl TestStatus {
    /// The sign shown for the status.
    pub fn symbol(&self) -> (s: &'static str)
        ensures
            s@ == match *self {
                TestStatus::Pending => "○"@,
                TestStatus::Running => "●"@,
                TestStatus::Passed => "✓"@,
                TestStatus::Failed => "✗"@,
                TestStatus::Ignored => "⊘"@,
            },
    {
        match self {
            TestStatus::Pending => "○",
            TestStatus::Running => "●",
            TestStatus::Passed => "✓",
            TestStatus::Failed => "✗",
            TestStatus::Ignored => "⊘",
        }
    }
}

/// Which tests a list shows.
#[derive(Debug, Clone, Copy, PartialEq, Eq, Structural)]
pub enum FilterMode {
    All,
    Passed,
    Failed,
    Pending,
    Ignored,
}

impl Default for FilterMode {
    fn default() -> (m: FilterMode)
        ensures
            m == FilterMode::All,
    {
        FilterMode::All
    }
}

impl FilterMode {
    /// The name shown for the filter.
    pub fn label(&self) -> (s: &'static str)
        ensures
            s@ == match *self {
                FilterMode::All => "All"@,
                FilterMode::Passed => "Passed"@,
                FilterMode::Failed => "Failed"@,
                FilterMode::Pending => "Pending"@,
                FilterMode::Ignored => "Ignored"@,
            },
    {
        match self {
            FilterMode::All => "All",
            FilterMode::Passed => "Passed",
            FilterMode::Failed => "Failed",
            FilterMode::Pending => "Pending",
            FilterMode::Ignored => "Ignored",
        }
    }

    /// Whether the filter shows a test of the given status. A running test
    /// is shown by `All` only.
    pub fn matches(&self, status: TestStatus) -> (r: bool)
        ensures
            r == match *self {
                FilterMode::All => true,
                FilterMode::Passed => status == TestStatus::Passed,
                FilterMode::Failed => status == TestStatus::Failed,
                FilterMode::Pending => status == TestStatus::Pending,
                FilterMode::Ignored => status == TestStatus::Ignored,
            },
    {
        match self {
            FilterMode::All => true,
            FilterMode::Passed => status == TestStatus::Passed,
            FilterMode::Failed => status == TestStatus::Failed,
            FilterMode::Pending => status == TestStatus::Pending,
            FilterMode::Ignored => status == TestStatus::Ignored,
        }
    }

    /// The filter that follows this one when the filters are stepped
    /// through; after the last comes the first.
    pub fn cycle_next(&self) -> (m: FilterMode)
        ensures
            m == match *self {
                FilterMode::All => FilterMode::Passed,
                FilterMode::Passed => FilterMode::Failed,
                FilterMode::Failed => FilterMode::Pending,
                FilterMode::Pending => FilterMode::Ignored,
                FilterMode::Ignored => FilterMode::All,
            },
    {
        match self {
            FilterMode::All => FilterMode::Passed,
            FilterMode::Passed => FilterMode::Failed,
            FilterMode::Failed => FilterMode::Pending,
            FilterMode::Pending => FilterMode::Ignored,
            FilterMode::Ignored => FilterMode::All,
        }
    }
}

/// Stepping through the filters five times leads back to where it began.
pub proof fn lemma_filter_cycle(m: FilterMode)
    ensures
        next_filter(next_filter(next_filter(next_filter(next_filter(m))))) == m,
{
}

/// The filter after `m`.
pub open spec fn next_filter(m: FilterMode) -> FilterMode {
    match m {
        FilterMode::All => FilterMode::Passed,
        FilterMode::Passed => FilterMode::Failed,
        FilterMode::Failed => FilterMode::Pending,
        FilterMode::Pending => FilterMode::Ignored,
        FilterMode::Ignored => FilterMode::All,
    }
}

/// How many tests there are of each status.
#[derive(Debug, Clone, Copy, PartialEq, Eq)]
pub struct TestStats {
    pub total: usize,
    pub passed: usize,
    pub failed: usize,
    pub pending: usize,
    pub running: usize,
    pub ignored: usize,
}

/// The statuses equal to `status`.
pub open spec fn status_is(status: TestStatus) -> spec_fn(TestStatus) -> bool {
    |s: TestStatus| s == status
}

/// How often `status` stands in `statuses`.
pub open spec fn count_status(statuses: Seq<TestStatus>, status: TestStatus) -> nat {
    statuses.filter(status_is(status)).len()
}

impl TestStats {
    /// The counts of the given statuses.
    pub fn from_statuses(statuses: &Vec<TestStatus>) -> (stats: TestStats)
        ensures
            stats.total == statuses@.len(),
            stats.passed == count_status(statuses@, TestStatus::Passed),
            stats.failed == count_status(statuses@, TestStatus::Failed),
            stats.pending == count_status(statuses@, TestStatus::Pending),
            stats.running == count_status(statuses@, TestStatus::Running),
            stats.ignored == count_status(statuses@, TestStatus::Ignored),
    {
        let ghost is_passed = status_is(TestStatus::Passed);
        let ghost is_failed = status_is(TestStatus::Failed);
        let ghost is_pending = status_is(TestStatus::Pending);
        let ghost is_running = status_is(TestStatus::Running);
        let ghost is_ignored = status_is(TestStatus::Ignored);
        let mut stats = TestStats {
            total: statuses.len(),
            passed: 0,
            failed: 0,
            pending: 0,
            running: 0,
            ignored: 0,
        };
        let mut i: usize = 0;
        proof {
            reveal(Seq::filter);
            assert(statuses@.subrange(0, 0) =~= Seq::<TestStatus>::empty());
        }
        while i < statuses.len()
            invariant
                i <= statuses@.len(),
                stats.total == statuses@.len(),
                is_passed == status_is(TestStatus::Passed),
                is_failed == status_is(TestStatus::Failed),
                is_pending == status_is(TestStatus::Pending),
                is_running == status_is(TestStatus::Running),
                is_ignored == status_is(TestStatus::Ignored),
                stats.passed == statuses@.subrange(0, i as int).filter(is_passed).len(),
                stats.failed == statuses@.subrange(0, i as int).filter(is_failed).len(),
                stats.pending == statuses@.subrange(0, i as int).filter(is_pending).len(),
                stats.running == statuses@.subrange(0, i as int).filter(is_running).len(),
                stats.ignored == statuses@.subrange(0, i as int).filter(is_ignored).len(),
            decreases statuses.len() - i,
        {
            proof {
                let head = statuses@.subrange(0, i as int);
                let next = statuses@.subrange(0, i + 1);
                let x = statuses@[i as int];
                assert(next =~= head.push(x));
                head.lemma_filter_push(x, is_passed);
                head.lemma_filter_push(x, is_failed);
                head.lemma_filter_push(x, is_pending);
                head.lemma_filter_push(x, is_running);
                head.lemma_filter_push(x, is_ignored);
                next.lemma_filter_len(is_passed);
                next.lemma_filter_len(is_failed);
                next.lemma_filter_len(is_pending);
                next.lemma_filter_len(is_running);
                next.lemma_filter_len(is_ignored);
            }
            match statuses[i] {
                TestStatus::Passed => {
                    stats.passed = stats.passed + 1;
                },
                TestStatus::Failed => {
                    stats.failed = stats.failed + 1;
                },
                TestStatus::Pending => {
                    stats.pending = stats.pending + 1;
                },
                TestStatus::Running => {
                    stats.running = stats.running + 1;
                },
                TestStatus::Ignored => {
                    stats.ignored = stats.ignored + 1;
                },
            }
            i += 1;
        }
        assert(statuses@.subrange(0, statuses@.len() as int) =~= statuses@);
        stats
    }
}

} // verus!
