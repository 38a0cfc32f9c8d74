use runx::config::Task;
use runx::db::FlakyHistory;
use runx::execution::retry::{
    calculate_flaky_score, is_flaky, should_quarantine, takes_part, FlakyInfo, RetryStep,
};
use runx::execution::{RetryConfig, RetryTracker};
use runx::task::TaskResult;

fn create_test_task() -> Task {
    let mut t = Task::new("echo test");
    t.retry = 2;
    t.retry_delay_ms = 100;
    t
}

fn result(success: bool, duration_ms: u128) -> TaskResult {
    TaskResult { name: "t".to_string(), success, duration_ms, category: None }
}

#[test]
fn test_retry_config_from_task() {
    let task = create_test_task();
    let config = RetryConfig::from(&task);

    assert_eq!(config.max_retries, 2);
    assert_eq!(config.delay_ms, 100);
}

#[test]
fn default_retry_settings() {
    let config = RetryConfig::default();
    assert_eq!(
        config,
        RetryConfig { max_retries: 0, delay_ms: 1000, exponential_backoff: false }
    );
    assert_eq!(RetryConfig::from_task(&create_test_task()), RetryConfig::from(&create_test_task()));
}

#[test]
fn a_task_that_always_fails_is_tried_once_more_than_it_has_retries() {
    let config = RetryConfig { max_retries: 2, delay_ms: 100, exponential_backoff: false };
    let mut tracker = RetryTracker::new(config).unwrap();
    match tracker.record(result(false, 1)) {
        RetryStep::RunAgain { attempt, delay_ms } => {
            assert_eq!(attempt, 2);
            assert_eq!(delay_ms, 100);
        }
        other => panic!("expected another attempt, got {:?}", other),
    }
    match tracker.record(result(false, 2)) {
        RetryStep::RunAgain { attempt, delay_ms } => {
            assert_eq!(attempt, 3);
            assert_eq!(delay_ms, 100);
        }
        other => panic!("expected another attempt, got {:?}", other),
    }
    match tracker.record(result(false, 3)) {
        RetryStep::Finished { result, info } => {
            assert!(!result.success);
            // The last attempt is the one reported.
            assert_eq!(result.duration_ms, 3);
            assert_eq!(info, FlakyInfo { attempts: 3, passed_on_retry: false, is_flaky: false });
        }
        other => panic!("expected the end, got {:?}", other),
    }
    assert_eq!(tracker.results, vec![false, false, false]);
}

#[test]
fn a_pass_ends_the_attempts() {
    let config = RetryConfig { max_retries: 3, delay_ms: 10, exponential_backoff: false };
    let mut tracker = RetryTracker::new(config).unwrap();
    match tracker.record(result(true, 7)) {
        RetryStep::Finished { result, info } => {
            assert!(result.success);
            assert_eq!(info, FlakyInfo { attempts: 1, passed_on_retry: false, is_flaky: false });
        }
        other => panic!("expected the end, got {:?}", other),
    }
}

#[test]
fn a_pass_after_a_failure_is_flaky() {
    let config = RetryConfig { max_retries: 3, delay_ms: 10, exponential_backoff: false };
    let mut tracker = RetryTracker::new(config).unwrap();
    assert!(matches!(tracker.record(result(false, 1)), RetryStep::RunAgain { attempt: 2, .. }));
    match tracker.record(result(true, 2)) {
        RetryStep::Finished { result, info } => {
            assert!(result.success);
            assert_eq!(result.duration_ms, 2);
            assert_eq!(info, FlakyInfo { attempts: 2, passed_on_retry: true, is_flaky: true });
        }
        other => panic!("expected the end, got {:?}", other),
    }
}

#[test]
fn without_retries_a_failure_is_final() {
    let mut tracker = RetryTracker::new(RetryConfig::default()).unwrap();
    match tracker.record(result(false, 1)) {
        RetryStep::Finished { result, info } => {
            assert!(!result.success);
            assert_eq!(info.attempts, 1);
        }
        other => panic!("expected the end, got {:?}", other),
    }
}

#[test]
fn the_delay_doubles_under_exponential_backoff() {
    let config = RetryConfig { max_retries: 5, delay_ms: 100, exponential_backoff: true };
    assert_eq!(config.delay_for_attempt(0), Some(0));
    assert_eq!(config.delay_for_attempt(1), Some(0));
    assert_eq!(config.delay_for_attempt(2), Some(100));
    assert_eq!(config.delay_for_attempt(3), Some(200));
    assert_eq!(config.delay_for_attempt(4), Some(400));
    assert_eq!(config.delay_for_attempt(6), Some(1600));
    let flat = RetryConfig { max_retries: 5, delay_ms: 100, exponential_backoff: false };
    assert_eq!(flat.delay_for_attempt(2), Some(100));
    assert_eq!(flat.delay_for_attempt(6), Some(100));

    let mut tracker = RetryTracker::new(config).unwrap();
    assert!(matches!(
        tracker.record(result(false, 1)),
        RetryStep::RunAgain { attempt: 2, delay_ms: 100 }
    ));
    assert!(matches!(
        tracker.record(result(false, 1)),
        RetryStep::RunAgain { attempt: 3, delay_ms: 200 }
    ));
    assert!(matches!(
        tracker.record(result(false, 1)),
        RetryStep::RunAgain { attempt: 4, delay_ms: 400 }
    ));
}

#[test]
fn delays_that_do_not_fit_are_refused() {
    let config = RetryConfig { max_retries: 70, delay_ms: 1, exponential_backoff: true };
    assert_eq!(config.delay_for_attempt(65), Some(1u64 << 63));
    assert_eq!(config.delay_for_attempt(66), None);
    assert!(RetryTracker::new(config).is_none());
    let zero = RetryConfig { max_retries: 70, delay_ms: 0, exponential_backoff: true };
    assert_eq!(zero.delay_for_attempt(66), Some(0));
    let wide = RetryConfig { max_retries: 10, delay_ms: u64::MAX, exponential_backoff: true };
    assert_eq!(wide.delay_for_attempt(2), Some(u64::MAX));
    assert_eq!(wide.delay_for_attempt(3), None);
    let endless = RetryConfig { max_retries: u32::MAX, delay_ms: 1, exponential_backoff: false };
    assert!(RetryTracker::new(endless).is_none());
}

#[test]
fn five_passes_in_ten_runs_are_flaky() {
    assert_eq!(calculate_flaky_score(5, 10), 50);
    assert!(is_flaky(5, 10));
    assert_eq!(calculate_flaky_score(10, 10), 100);
    assert!(!is_flaky(10, 10));
    assert_eq!(calculate_flaky_score(0, 10), 0);
    assert!(!is_flaky(0, 10));
}

#[test]
fn the_flaky_range_is_open_at_both_ends() {
    assert!(!is_flaky(2, 10));
    assert!(is_flaky(21, 100));
    assert!(is_flaky(79, 100));
    assert!(!is_flaky(8, 10));
    assert!(!is_flaky(0, 0));
    assert_eq!(calculate_flaky_score(0, 0), 100);
    assert_eq!(calculate_flaky_score(1, 3), 33);
    assert_eq!(calculate_flaky_score(u32::MAX, u32::MAX), 100);
}

#[test]
fn quarantine_needs_ten_runs_near_an_even_rate() {
    assert!(should_quarantine(5, 10, 10));
    assert!(!should_quarantine(5, 9, 10));
    assert!(should_quarantine(6, 10, 11));
    assert!(!should_quarantine(6, 10, 10));
    assert!(should_quarantine(4, 10, 11));
    assert!(!should_quarantine(4, 10, 10));
    assert!(!should_quarantine(5, 10, 0));
    assert!(!should_quarantine(10, 10, 100));
    assert!(!should_quarantine(9, 10, 100));
    assert!(should_quarantine(3, 10, 21));
}

#[test]
fn quarantined_tasks_run_only_when_asked_for() {
    assert!(takes_part(false, false));
    assert!(takes_part(false, true));
    assert!(!takes_part(true, false));
    assert!(takes_part(true, true));
}

#[test]
fn test_quarantine() {
    let mut db = FlakyHistory::new();

    // Record test history first
    db.record_test_history("test1", None, "task1", "passed");

    // Quarantine
    db.quarantine_test("test1");
    assert!(db.is_test_quarantined("test1"));

    // Unquarantine
    db.unquarantine_test("test1");
    assert!(!db.is_test_quarantined("test1"));
}

#[test]
fn the_history_counts_every_attempt() {
    let mut db = FlakyHistory::new();
    for i in 0..10 {
        let status = if i % 2 == 0 { "passed" } else { "failed" };
        assert!(db.record_test_history("flaky_test", Some("TestClass"), "test-task", status));
    }
    db.record_test_history("steady", None, "test-task", "passed");
    let score = db.calculate_flaky_score("flaky_test");
    assert_eq!(score, 50);
    assert_eq!(db.calculate_flaky_score("steady"), 100);
    assert_eq!(db.calculate_flaky_score("unknown"), 100);
    assert_eq!(db.tests.len(), 2);
    assert_eq!(db.tests[0].total_runs, 10);
    assert_eq!(db.tests[0].pass_count, 5);
    assert_eq!(db.tests[0].fail_count, 5);
    assert!(db.tests[0].is_flaky());
    assert!(!db.tests[1].is_flaky());
    assert!(!db.is_test_quarantined("unknown"));
    db.quarantine_test("unknown");
    assert_eq!(db.tests.len(), 2);
}

#[test]
fn every_attempt_of_a_run_is_counted_in_the_history() {
    let config = RetryConfig { max_retries: 2, delay_ms: 0, exponential_backoff: false };
    let mut history = FlakyHistory::new();
    let mut tracker = RetryTracker::new(config).unwrap();
    assert!(matches!(
        tracker.record_with_history(&mut history, "t", Some("unit"), result(false, 1)),
        RetryStep::RunAgain { attempt: 2, .. }
    ));
    assert!(matches!(
        tracker.record_with_history(&mut history, "t", Some("unit"), result(true, 1)),
        RetryStep::Finished { .. }
    ));
    assert_eq!(history.tests.len(), 1);
    assert_eq!(history.tests[0].test_name, "t");
    assert_eq!(history.tests[0].task_name, "t");
    assert_eq!(history.tests[0].classname, Some("unit".to_string()));
    assert_eq!(history.tests[0].total_runs, 2);
    assert_eq!(history.tests[0].pass_count, 1);
    assert_eq!(history.tests[0].fail_count, 1);
    assert_eq!(history.calculate_flaky_score("t"), 50);
}
