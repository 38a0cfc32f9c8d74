//! The pass and failure counts of tests over all runs.

use vstd::prelude::*;
use crate::execution::retry::{
    calculate_flaky_score, flaky_score_spec, is_flaky, is_flaky_history,
};
use crate::text::{clone_opt_string, str_eq};

verus! {

/// What is known of one test.
#[derive(Debug, Clone)]
pub struct FlakyTest {
    pub test_name: String,
    pub classname: Option<String>,
    pub task_name: String,
    pub total_runs: u32,
    pub pass_count: u32,
    pub fail_count: u32,
    pub quarantined: bool,
}

impl FlakyTest {
    /// Every run is counted once, as a pass or as a failure.
    pub open spec fn wf(&self) -> bool {
        self.pass_count + self.fail_count == self.total_runs
    }

    /// The pass rate in percent, rounded down.
    pub fn flaky_score(&self) -> (score: u64)
        ensures
            score == flaky_score_spec(self.pass_count, self.total_runs),
    {
        calculate_flaky_score(self.pass_count, self.total_runs)
    }

    /// Whether the test counts as flaky: at least 3 runs, with a pass rate
    /// strictly between 20% and 80%.
    pub fn is_flaky(&self) -> (r: bool)
        ensures
            r == (self.total_runs >= 3 && is_flaky_history(self.pass_count, self.total_runs)),
    {
        self.total_runs >= 3 && is_flaky(self.pass_count, self.total_runs)
    }
}

/// The tests that have a history, each under its name.
#[derive(Debug, Clone)]
pub struct FlakyHistory {
    pub tests: Vec<FlakyTest>,
}

impl FlakyHistory {
    /// The names of the tests, in order.
    pub open spec fn names(&self) -> Seq<Seq<char>> {
        Seq::new(self.tests@.len(), |i: int| self.tests@[i].test_name@)
    }

    /// No name stands twice, every count adds up, and no count is at its
    /// limit.
    pub open spec fn wf(&self) -> bool {
        &&& self.names().no_duplicates()
        &&& forall|i: int| 0 <= i < self.tests@.len() ==> (#[trigger] self.tests@[i]).wf()
    }

    /// The passes counted for `test_name`; 0 where it has no history.
    pub open spec fn passes(&self, test_name: Seq<char>) -> int {
        if self.names().contains(test_name) {
            self.tests@[self.names().index_of(test_name)].pass_count as int
        } else {
            0
        }
    }

    /// The runs counted for `test_name`; 0 where it has no history.
    pub open spec fn runs(&self, test_name: Seq<char>) -> int {
        if self.names().contains(test_name) {
            self.tests@[self.names().index_of(test_name)].total_runs as int
        } else {
            0
        }
    }

    /// Whether `test_name` is quarantined; a test without history is not.
    pub open spec fn quarantined(&self, test_name: Seq<char>) -> bool {
        self.names().contains(test_name) && self.tests@[self.names().index_of(
            test_name,
        )].quarantined
    }

    /// A history without tests.
    pub fn new() -> (h: FlakyHistory)
        ensures
            h.wf(),
            h.tests@.len() == 0,
    {
        FlakyHistory { tests: Vec::new() }
    }

    /// The position of the test called `test_name`.
    pub fn find(&self, test_name: &str) -> (r: Option<usize>)
        requires
            self.wf(),
        ensures
            match r {
                Some(i) => i < self.tests@.len() && self.names().contains(test_name@) && i
                    == self.names().index_of(test_name@),
                None => !self.names().contains(test_name@),
            },
    {
        let mut i: usize = 0;
        while i < self.tests.len()
            invariant
                self.wf(),
                i <= self.tests@.len(),
                forall|j: int| 0 <= j < i ==> self.names()[j] != test_name@,
            decreases self.tests.len() - i,
        {
            if str_eq(self.tests[i].test_name.as_str(), test_name) {
                proof {
                    assert(self.names()[i as int] == test_name@);
                    assert(self.names().contains(test_name@));
                    let k = self.names().index_of(test_name@);
                    assert(0 <= k < self.names().len() && self.names()[k] == test_name@);
                    assert(k == i);
                }
                return Some(i);
            }
            i += 1;
        }
        proof {
            if self.names().contains(test_name@) {
                let k = self.names().index_of(test_name@);
                assert(self.names()[k] == test_name@);
            }
        }
        None
    }

    /// Counts one more run of `test_name`: a pass where `status` is
    /// `passed`, else a failure. A test without history gets one. Returns
    /// `false`, and counts nothing, where the count of the test is at its
    /// limit.
    pub fn record_test_history(
        &mut self,
        test_name: &str,
        classname: Option<&str>,
        task_name: &str,
        status: &str,
    ) -> (counted: bool)
        requires
            old(self).wf(),
        ensures
            final(self).wf(),
            counted == (old(self).runs(test_name@) < u32::MAX),
            counted ==> final(self).runs(test_name@) == old(self).runs(test_name@) + 1,
            counted ==> final(self).passes(test_name@) == old(self).passes(test_name@) + if status@
                == "passed"@ {
                1int
            } else {
                0int
            },
            !counted ==> *final(self) == *old(self),
            forall|other: Seq<char>|
                other != test_name@ ==> final(self).runs(other) == old(self).runs(other)
                    && final(self).passes(other) == old(self).passes(other),
            forall|any: Seq<char>| final(self).quarantined(any) == old(self).quarantined(any),
    {
        let ghost before = *self;
        let is_pass = str_eq(status, "passed");
        match self.find(test_name) {
            Some(i) => {
                if self.tests[i].total_runs == u32::MAX {
                    return false;
                }
                let current = &self.tests[i];
                let updated = FlakyTest {
                    test_name: current.test_name.clone(),
                    classname: clone_opt_string(&current.classname),
                    task_name: current.task_name.clone(),
                    total_runs: current.total_runs + 1,
                    pass_count: if is_pass {
                        current.pass_count + 1
                    } else {
                        current.pass_count
                    },
                    fail_count: if is_pass {
                        current.fail_count
                    } else {
                        current.fail_count + 1
                    },
                    quarantined: current.quarantined,
                };
                self.tests.set(i, updated);
                proof {
                    assert(self.names() =~= before.names());
                    assert forall|j: int| 0 <= j < self.tests@.len() implies (
                    #[trigger] self.tests@[j]).wf() by {
                        if j != i {
                            assert(self.tests@[j] == before.tests@[j]);
                        }
                    }
                    assert forall|other: Seq<char>| other != test_name@ implies self.runs(other)
                        == before.runs(other) && self.passes(other) == before.passes(other) by {
                        if before.names().contains(other) {
                            let k = before.names().index_of(other);
                            assert(before.names()[k] == other);
                            assert(k != i);
                        }
                    }
                    assert forall|any: Seq<char>| self.quarantined(any) == before.quarantined(
                        any,
                    ) by {
                        if before.names().contains(any) {
                            let k = before.names().index_of(any);
                            assert(before.names()[k] == any);
                            if k != i {
                                assert(self.tests@[k] == before.tests@[k]);
                            }
                        }
                    }
                }
                true
            },
            None => {
                let classname = match classname {
                    Some(c) => Some(c.to_owned()),
                    None => None,
                };
                self.tests.push(
                    FlakyTest {
                        test_name: test_name.to_owned(),
                        classname,
                        task_name: task_name.to_owned(),
                        total_runs: 1,
                        pass_count: if is_pass {
                            1
                        } else {
                            0
                        },
                        fail_count: if is_pass {
                            0
                        } else {
                            1
                        },
                        quarantined: false,
                    },
                );
                proof {
                    let last = before.tests@.len() as int;
                    assert(self.names() =~= before.names().push(test_name@));
                    assert(self.names()[last] == test_name@);
                    assert forall|a: int, b: int|
                        0 <= a < self.names().len() && 0 <= b < self.names().len() && a
                            != b implies self.names()[a] != self.names()[b] by {
                        if a < last && b < last {
                            assert(before.names()[a] != before.names()[b]);
                        } else if a < last {
                            assert(before.names()[a] == self.names()[a]);
                        } else {
                            assert(before.names()[b] == self.names()[b]);
                        }
                    }
                    assert forall|j: int| 0 <= j < self.tests@.len() implies (
                    #[trigger] self.tests@[j]).wf() by {
                        if j < last {
                            assert(self.tests@[j] == before.tests@[j]);
                        }
                    }
                    let k = self.names().index_of(test_name@);
                    assert(self.names()[k] == test_name@);
                    assert(k == last);
                    assert forall|other: Seq<char>| other != test_name@ implies self.runs(other)
                        == before.runs(other) && self.passes(other) == before.passes(other) by {
                        if before.names().contains(other) {
                            let j = before.names().index_of(other);
                            assert(before.names()[j] == other);
                            assert(self.names()[j] == other);
                            let j2 = self.names().index_of(other);
                            assert(self.names()[j2] == other);
                        }
                        if self.names().contains(other) {
                            let j = self.names().index_of(other);
                            assert(self.names()[j] == other);
                            assert(before.names()[j] == other);
                        }
                    }
                    assert forall|any: Seq<char>| self.quarantined(any) == before.quarantined(
                        any,
                    ) by {
                        if any == test_name@ {
                            assert(!before.names().contains(any));
                            assert(!self.tests@[last].quarantined);
                        } else {
                            if before.names().contains(any) {
                                let j = before.names().index_of(any);
                                assert(before.names()[j] == any);
                                assert(self.names()[j] == any);
                                let j2 = self.names().index_of(any);
                                assert(self.names()[j2] == any);
                                assert(self.tests@[j] == before.tests@[j]);
                            }
                            if self.names().contains(any) {
                                let j = self.names().index_of(any);
                                assert(self.names()[j] == any);
                                assert(before.names()[j] == any);
                            }
                        }
                    }
                }
                true
            },
        }
    }

    /// The pass rate of `test_name` in percent, rounded down; 100 where it
    /// has no history.
    pub fn calculate_flaky_score(&self, test_name: &str) -> (score: u64)
        requires
            self.wf(),
        ensures
            score == if self.runs(test_name@) == 0 {
                100
            } else {
                self.passes(test_name@) * 100 / self.runs(test_name@)
            },
    {
        match self.find(test_name) {
            Some(i) => self.tests[i].flaky_score(),
            None => 100,
        }
    }

    /// Puts `test_name` in quarantine or takes it out; a test without
    /// history is left alone.
    fn set_quarantined(&mut self, test_name: &str, quarantined: bool)
        requires
            old(self).wf(),
        ensures
            final(self).wf(),
            final(self).names() == old(self).names(),
            forall|j: int|
                0 <= j < old(self).tests@.len() ==> {
                    &&& (#[trigger] final(self).tests@[j]).total_runs == old(self).tests@[j].total_runs
                    &&& final(self).tests@[j].pass_count == old(self).tests@[j].pass_count
                    &&& final(self).tests@[j].fail_count == old(self).tests@[j].fail_count
                    &&& final(self).tests@[j].quarantined == if old(self).tests@[j].test_name@
                        == test_name@ {
                        quarantined
                    } else {
                        old(self).tests@[j].quarantined
                    }
                },
    {
        let ghost before = *self;
        match self.find(test_name) {
            Some(i) => {
                let current = &self.tests[i];
                let updated = FlakyTest {
                    test_name: current.test_name.clone(),
                    classname: clone_opt_string(&current.classname),
                    task_name: current.task_name.clone(),
                    total_runs: current.total_runs,
                    pass_count: current.pass_count,
                    fail_count: current.fail_count,
                    quarantined,
                };
                self.tests.set(i, updated);
                proof {
                    assert(self.names() =~= before.names());
                    assert forall|j: int| 0 <= j < self.tests@.len() implies (
                    #[trigger] self.tests@[j]).wf() by {
                        if j != i {
                            assert(self.tests@[j] == before.tests@[j]);
                        } else {
                            assert(before.tests@[i as int].wf());
                        }
                    }
                    assert forall|j: int| 0 <= j < before.tests@.len() && j
                        != i implies before.tests@[j].test_name@ != test_name@ by {
                        assert(before.names()[j] == before.tests@[j].test_name@);
                        assert(before.names()[i as int] == test_name@);
                    }
                }
            },
            None => {
                proof {
                    assert forall|j: int| 0 <= j < before.tests@.len() implies before.tests@[j].test_name@
                        != test_name@ by {
                        assert(before.names()[j] == before.tests@[j].test_name@);
                    }
                }
            },
        }
    }

    /// Puts `test_name` in quarantine; a test without history is left
    /// alone.
    pub fn quarantine_test(&mut self, test_name: &str)
        requires
            old(self).wf(),
        ensures
            final(self).wf(),
            final(self).names() == old(self).names(),
            forall|j: int|
                0 <= j < old(self).tests@.len() ==> (#[trigger] final(self).tests@[j]).quarantined
                    == (old(self).tests@[j].test_name@ == test_name@
                    || old(self).tests@[j].quarantined),
    {
        self.set_quarantined(test_name, true);
    }

    /// Takes `test_name` out of quarantine.
    pub fn unquarantine_test(&mut self, test_name: &str)
        requires
            old(self).wf(),
        ensures
            final(self).wf(),
            final(self).names() == old(self).names(),
            forall|j: int|
                0 <= j < old(self).tests@.len() ==> (#[trigger] final(self).tests@[j]).quarantined
                    == (old(self).tests@[j].test_name@ != test_name@
                    && old(self).tests@[j].quarantined),
    {
        self.set_quarantined(test_name, false);
    }

    /// Whether `test_name` is quarantined; a test without history is not.
    pub fn is_test_quarantined(&self, test_name: &str) -> (r: bool)
        requires
            self.wf(),
        ensures
            r == self.quarantined(test_name@),
    {
        match self.find(test_name) {
            Some(i) => self.tests[i].quarantined,
            None => false,
        }
    }
}

} // verus!
