//! What a test run prints, line by line, and what it comes to.

use vstd::prelude::*;
use crate::test_model::TestStatus;
use crate::text::{
    chars_contain_str, chars_end_with_str, chars_equal_str, chars_range, chars_start_with_str,
    clone_strings, find_first, first_occurrence, from_chars, has_prefix, has_substring,
    has_suffix, strs, to_chars, trim, trimmed,
};

verus! {

/// What happens during a test run.
#[derive(Debug, Clone)]
pub enum TestEvent {
    /// A test started.
    Started { test_name: String },
    /// A test wrote a line.
    Output { test_name: String, line: String },
    /// A test ended.
    Completed { test_name: String, status: TestStatus, duration_ms: u64 },
    /// All tests ended.
    AllCompleted { passed: usize, failed: usize, ignored: usize },
    /// The run went wrong.
    Error { message: String },
}

/// What one line of a test run says: the name of a test and its status.
#[derive(Debug, Clone)]
pub struct TestLineInfo {
    pub name: String,
    pub status: TestStatus,
}

/// The result of one test.
#[derive(Debug, Clone)]
pub struct SingleTestResult {
    pub name: String,
    pub status: TestStatus,
    pub duration_ms: Option<u64>,
    pub output: Vec<String>,
}

/// The result of a test run.
#[derive(Debug, Clone)]
pub struct TestRunResult {
    pub success: bool,
    pub passed: usize,
    pub failed: usize,
    pub ignored: usize,
    pub duration_ms: u64,
    pub test_results: Vec<SingleTestResult>,
}

impl Default for TestRunResult {
    fn default() -> (r: TestRunResult)
        ensures
            !r.success,
            r.passed == 0,
            r.failed == 0,
            r.ignored == 0,
            r.duration_ms == 0,
            r.test_results@.len() == 0,
    {
        TestRunResult {
            success: false,
            passed: 0,
            failed: 0,
            ignored: 0,
            duration_ms: 0,
            test_results: Vec::new(),
        }
    }
}

impl TestRunResult {
    /// The counts are those of the results: every result is a pass, a
    /// failure or an ignored test.
    pub open spec fn wf(&self) -> bool {
        self.passed + self.failed + self.ignored == self.test_results@.len()
    }

    /// How many tests ran or were ignored.
    pub fn total(&self) -> (n: usize)
        requires
            self.passed + self.failed + self.ignored <= usize::MAX,
        ensures
            n == self.passed + self.failed + self.ignored,
    {
        self.passed + self.failed + self.ignored
    }

    /// Takes in the result of one test and counts it.
    pub fn record(&mut self, result: SingleTestResult)
        requires
            old(self).wf(),
            result.status != TestStatus::Running,
            result.status != TestStatus::Pending,
        ensures
            final(self).wf(),
            final(self).test_results@ == old(self).test_results@.push(result),
            final(self).passed == old(self).passed + if result.status == TestStatus::Passed {
                1int
            } else {
                0int
            },
            final(self).failed == old(self).failed + if result.status == TestStatus::Failed {
                1int
            } else {
                0int
            },
            final(self).ignored == old(self).ignored + if result.status == TestStatus::Ignored {
                1int
            } else {
                0int
            },
            final(self).success == old(self).success,
            final(self).duration_ms == old(self).duration_ms,
    {
        let status = result.status;
        self.test_results.push(result);
        let n = self.test_results.len();
        match status {
            TestStatus::Passed => {
                self.passed = self.passed + 1;
            },
            TestStatus::Failed => {
                self.failed = self.failed + 1;
            },
            _ => {
                self.ignored = self.ignored + 1;
            },
        }
    }
}

/// The name and the status text of a test line without its `test ` at the
/// start. The name ends at the first ` ... `; else, on a line that ends
/// with ` ...`, before that; else at the first ` - `; else it is the whole
/// line without the white space around it, and there is no status text.
pub open spec fn split_test_line(rest: Seq<char>) -> (Seq<char>, Seq<char>) {
    match first_occurrence(rest, " ... "@) {
        Some(at) => (rest.subrange(0, at), rest.subrange(at + 5, rest.len() as int)),
        None => if has_suffix(rest, " ..."@) {
            (rest.subrange(0, rest.len() - 4), Seq::empty())
        } else {
            match first_occurrence(rest, " - "@) {
                Some(at) => (rest.subrange(0, at), rest.subrange(at + 3, rest.len() as int)),
                None => (trimmed(rest), Seq::empty()),
            }
        },
    }
}

/// The status that a status text stands for: running for no text and for
/// `...`; else passed, failed or ignored by the first of `ok`, `FAILED` and
/// `ignored`, in this order, that the text holds; else running.
pub open spec fn status_of_text(text: Seq<char>) -> TestStatus {
    if text.len() == 0 || trimmed(text) == "..."@ {
        TestStatus::Running
    } else if has_substring(text, "ok"@) {
        TestStatus::Passed
    } else if has_substring(text, "FAILED"@) {
        TestStatus::Failed
    } else if has_substring(text, "ignored"@) {
        TestStatus::Ignored
    } else {
        TestStatus::Running
    }
}

/// What a line of a test run says, where it begins with `test `.
pub open spec fn parsed_test_line(line: Seq<char>) -> Option<(Seq<char>, TestStatus)> {
    if has_prefix(line, "test "@) {
        let parts = split_test_line(line.subrange(5, line.len() as int));
        Some((parts.0, status_of_text(parts.1)))
    } else {
        None
    }
}

/// Reads a line such as `test module::name ... ok`.
pub fn parse_test_line(line: &str) -> (r: Option<TestLineInfo>)
    ensures
        match r {
            Some(info) => parsed_test_line(line@) == Some((info.name@, info.status)),
            None => parsed_test_line(line@) is None,
        },
{
    let chars = to_chars(line);
    proof {
        reveal_strlit("test ");
        reveal_strlit(" ... ");
        reveal_strlit(" ...");
        reveal_strlit(" - ");
    }
    if !chars_start_with_str(&chars, "test ") {
        return None;
    }
    let rest = chars_range(&chars, 5, chars.len());
    let (name, status_part) = match find_first(&rest, " ... ") {
        Some(at) => (chars_range(&rest, 0, at), chars_range(&rest, at + 5, rest.len())),
        None => {
            if chars_end_with_str(&rest, " ...") {
                (chars_range(&rest, 0, rest.len() - 4), Vec::new())
            } else {
                match find_first(&rest, " - ") {
                    Some(at) => (chars_range(&rest, 0, at), chars_range(&rest, at + 3, rest.len())),
                    None => (trim(&rest), Vec::new()),
                }
            }
        },
    };
    let status = if status_part.len() == 0 || chars_equal_str(&trim(&status_part), "...") {
        TestStatus::Running
    } else if chars_contain_str(&status_part, "ok") {
        TestStatus::Passed
    } else if chars_contain_str(&status_part, "FAILED") {
        TestStatus::Failed
    } else if chars_contain_str(&status_part, "ignored") {
        TestStatus::Ignored
    } else {
        TestStatus::Running
    };
    Some(TestLineInfo { name: from_chars(&name), status })
}

/// Reads the output of a test run line by line.
#[derive(Debug, Clone)]
pub struct TestOutputParser {
    /// What the run came to so far.
    pub result: TestRunResult,
    /// The test that has started and not ended yet.
    pub current_test: Option<String>,
    /// The lines that the current test has written.
    pub current_output: Vec<String>,
}

/// A line that names a test: it begins with `test ` and is not the summary.
pub open spec fn is_test_line(line: Seq<char>) -> bool {
    has_prefix(line, "test "@) && !has_prefix(line, "test result:"@)
}

/// The status with which a line ends the current test, if it does: passed,
/// failed or ignored by the first of ` ok`, ` FAILED` and ` ignored`, in
/// this order, that the line holds.
pub open spec fn closing_status(line: Seq<char>) -> Option<TestStatus> {
    if has_substring(line, " ok"@) {
        Some(TestStatus::Passed)
    } else if has_substring(line, " FAILED"@) {
        Some(TestStatus::Failed)
    } else if has_substring(line, " ignored"@) {
        Some(TestStatus::Ignored)
    } else {
        None
    }
}

impl TestOutputParser {
    /// The counts are those of the results.
    pub open spec fn wf(&self) -> bool {
        self.result.wf()
    }

    /// A parser that has read nothing: no test has run, none is running,
    /// and the run has neither succeeded nor taken any time yet.
    pub fn new() -> (p: TestOutputParser)
        ensures
            p.wf(),
            p.result.test_results@.len() == 0,
            p.result.passed == 0,
            p.result.failed == 0,
            p.result.ignored == 0,
            !p.result.success,
            p.result.duration_ms == 0,
            p.current_test is None,
            p.current_output@.len() == 0,
    {
        TestOutputParser {
            result: TestRunResult::default(),
            current_test: None,
            current_output: Vec::new(),
        }
    }

    /// Reads one line of output. A test line with a status is a test that
    /// has ended at once; one without is a test that has started. While a
    /// test runs, a line with a status word ends it, with `duration_ms` as
    /// its duration, and any other line is its output. Returns what happened,
    /// in order.
    pub fn feed(&mut self, line: &str, duration_ms: Option<u64>) -> (events: Vec<TestEvent>)
        requires
            old(self).wf(),
        ensures
            final(self).wf(),
            final(self).result.success == old(self).result.success,
            final(self).result.duration_ms == old(self).result.duration_ms,
            if is_test_line(line@) {
                let parsed = parsed_test_line(line@)->0;
                if parsed.1 == TestStatus::Running {
                    &&& final(self).current_test matches Some(name)
                    &&& name@ == parsed.0
                    &&& final(self).current_output@.len() == 0
                    &&& final(self).result == old(self).result
                    &&& events@.len() == 1
                    &&& events@[0] matches TestEvent::Started { test_name }
                    &&& test_name@ == parsed.0
                } else {
                    &&& final(self).current_test == old(self).current_test
                    &&& final(self).current_output == old(self).current_output
                    &&& final(self).result.test_results@.len() == old(
                        self,
                    ).result.test_results@.len() + 1
                    &&& final(self).result.test_results@.last().name@ == parsed.0
                    &&& final(self).result.test_results@.last().status == parsed.1
                    &&& final(self).result.test_results@.last().duration_ms == Some(0u64)
                    &&& final(self).result.test_results@.last().output@.len() == 0
                    &&& events@.len() == 2
                    &&& events@[0] matches TestEvent::Started { test_name }
                    &&& test_name@ == parsed.0
                    &&& events@[1] matches TestEvent::Completed {
                        test_name: ended,
                        status,
                        duration_ms: taken,
                    }
                    &&& ended@ == parsed.0
                    &&& status == parsed.1
                    &&& taken == 0
                }
            } else {
                match old(self).current_test {
                    Some(current) => match closing_status(line@) {
                        Some(status) => {
                            &&& final(self).current_test is None
                            &&& final(self).current_output@.len() == 0
                            &&& final(self).result.test_results@.len() == old(
                                self,
                            ).result.test_results@.len() + 1
                            &&& final(self).result.test_results@.last().name@ == current@
                            &&& final(self).result.test_results@.last().status == status
                            &&& final(self).result.test_results@.last().duration_ms
                                == duration_ms
                            &&& strs(final(self).result.test_results@.last().output@) == strs(
                                old(self).current_output@,
                            )
                            &&& events@.len() == 1
                            &&& events@[0] matches TestEvent::Completed {
                                test_name,
                                status: ended,
                                duration_ms: taken,
                            }
                            &&& test_name@ == current@
                            &&& ended == status
                            &&& taken == match duration_ms {
                                Some(d) => d,
                                None => 0u64,
                            }
                        },
                        None => {
                            &&& final(self).current_test == old(self).current_test
                            &&& final(self).result == old(self).result
                            &&& strs(final(self).current_output@) == strs(
                                old(self).current_output@,
                            ).push(line@)
                            &&& events@.len() == 1
                            &&& events@[0] matches TestEvent::Output { test_name, line: written }
                            &&& test_name@ == current@
                            &&& written@ == line@
                        },
                    },
                    None => {
                        &&& *final(self) == *old(self)
                        &&& events@.len() == 0
                    },
                }
            },
    {
        let mut events: Vec<TestEvent> = Vec::new();
        let chars = to_chars(line);
        if chars_start_with_str(&chars, "test ") && !chars_start_with_str(&chars, "test result:") {
            let info = match parse_test_line(line) {
                Some(info) => info,
                None => {
                    proof {
                        assert(false);
                    }
                    return events;
                },
            };
            events.push(TestEvent::Started { test_name: info.name.clone() });
            match info.status {
                TestStatus::Running => {
                    self.current_test = Some(info.name);
                    self.current_output = Vec::new();
                },
                status => {
                    proof {
                        // A test line stands for no pending test.
                        assert(status_of_text(
                            split_test_line(line@.subrange(5, line@.len() as int)).1,
                        ) != TestStatus::Pending);
                    }
                    events.push(
                        TestEvent::Completed {
                            test_name: info.name.clone(),
                            status,
                            duration_ms: 0,
                        },
                    );
                    self.result.record(
                        SingleTestResult {
                            name: info.name,
                            status,
                            duration_ms: Some(0),
                            output: Vec::new(),
                        },
                    );
                },
            }
            return events;
        }
        let current = match &self.current_test {
            Some(name) => name.clone(),
            None => {
                return events;
            },
        };
        let status = if chars_contain_str(&chars, " ok") {
            Some(TestStatus::Passed)
        } else if chars_contain_str(&chars, " FAILED") {
            Some(TestStatus::Failed)
        } else if chars_contain_str(&chars, " ignored") {
            Some(TestStatus::Ignored)
        } else {
            None
        };
        match status {
            Some(status) => {
                events.push(
                    TestEvent::Completed {
                        test_name: current.clone(),
                        status,
                        duration_ms: match duration_ms {
                            Some(d) => d,
                            None => 0,
                        },
                    },
                );
                let output = clone_strings(&self.current_output);
                self.result.record(
                    SingleTestResult { name: current, status, duration_ms, output },
                );
                self.current_test = None;
                self.current_output = Vec::new();
            },
            None => {
                let ghost before = strs(self.current_output@);
                self.current_output.push(line.to_owned());
                assert(strs(self.current_output@) =~= before.push(line@));
                events.push(TestEvent::Output { test_name: current, line: line.to_owned() });
            },
        }
        events
    }
}

/// Runs the tests of a project. The process belongs to the caller; the
/// runner says how it is called and what its end means.
#[derive(Debug, Clone)]
pub struct TestRunner {
    pub project_dir: String,
}

impl TestRunner {
    pub fn new(project_dir: &str) -> (r: TestRunner)
        ensures
            r.project_dir@ == project_dir@,
    {
        TestRunner { project_dir: project_dir.to_owned() }
    }

    /// The arguments with which `cargo` runs the tests: `test`, the filter
    /// if there is one, and the request for one test thread, so that the
    /// output of the tests does not mix.
    pub fn arguments(&self, filter: Option<&str>) -> (args: Vec<String>)
        ensures
            strs(args@) == match filter {
                Some(f) => seq!["test"@, f@, "--"@, "--test-threads=1"@],
                None => seq!["test"@, "--"@, "--test-threads=1"@],
            },
    {
        let mut args: Vec<String> = Vec::new();
        args.push("test".to_owned());
        match filter {
            Some(f) => {
                args.push(f.to_owned());
            },
            None => {},
        }
        args.push("--".to_owned());
        args.push("--test-threads=1".to_owned());
        proof {
            match filter {
                Some(f) => {
                    assert(strs(args@) =~= seq!["test"@, f@, "--"@, "--test-threads=1"@]);
                },
                None => {
                    assert(strs(args@) =~= seq!["test"@, "--"@, "--test-threads=1"@]);
                },
            }
        }
        args
    }

    /// Ends a run: it has succeeded where the process did or no test
    /// failed, and has taken `duration_ms`. Returns what is to be announced.
    pub fn conclude(&self, result: &mut TestRunResult, exited_ok: bool, duration_ms: u64) -> (event:
        TestEvent)
        ensures
            final(result).success == (exited_ok || old(result).failed == 0),
            final(result).duration_ms == duration_ms,
            final(result).passed == old(result).passed,
            final(result).failed == old(result).failed,
            final(result).ignored == old(result).ignored,
            final(result).test_results == old(result).test_results,
            event == (TestEvent::AllCompleted {
                passed: old(result).passed,
                failed: old(result).failed,
                ignored: old(result).ignored,
            }),
    {
        result.success = exited_ok || result.failed == 0;
        result.duration_ms = duration_ms;
        TestEvent::AllCompleted {
            passed: result.passed,
            failed: result.failed,
            ignored: result.ignored,
        }
    }
}

impl TestRunResult {
    /// Adds the results of another run to those of this one. Returns
    /// `false`, and changes nothing, where a count would not fit the machine
    /// word.
    pub fn absorb(&mut self, other: TestRunResult) -> (done: bool)
        ensures
            done == (old(self).passed + other.passed <= usize::MAX && old(self).failed
                + other.failed <= usize::MAX && old(self).ignored + other.ignored <= usize::MAX),
            !done ==> *final(self) == *old(self),
            done ==> {
                &&& final(self).passed == old(self).passed + other.passed
                &&& final(self).failed == old(self).failed + other.failed
                &&& final(self).ignored == old(self).ignored + other.ignored
                &&& final(self).test_results@ == old(self).test_results@ + other.test_results@
                &&& final(self).success == old(self).success
                &&& final(self).duration_ms == old(self).duration_ms
            },
    {
        let passed = match self.passed.checked_add(other.passed) {
            Some(n) => n,
            None => {
                return false;
            },
        };
        let failed = match self.failed.checked_add(other.failed) {
            Some(n) => n,
            None => {
                return false;
            },
        };
        let ignored = match self.ignored.checked_add(other.ignored) {
            Some(n) => n,
            None => {
                return false;
            },
        };
        self.passed = passed;
        self.failed = failed;
        self.ignored = ignored;
        let mut rest = other.test_results;
        self.test_results.append(&mut rest);
        true
    }
}

} // verus!
