use runx::config::{Config, Profile, Project, Task};
use runx::execution::runner::{
    classify_task, exit_code, RunAction, RunState, StopReason, TaskKind, TaskOutcome,
};
use runx::execution::{calculate_execution_levels, RunOptions};
use runx::db::runs::finished_status;
use runx::db::Run;
use runx::notifications::{build_summary, notifies};
use runx::task::{
    after_grace_period, follows_output, readiness_step, BackgroundError, ReadinessEvent,
    ReadinessStep, Supervisor, TaskResult,
};

fn result(name: &str, success: bool, duration_ms: u128) -> TaskResult {
    TaskResult { name: name.to_string(), success, duration_ms, category: None }
}

fn config_with(tasks: &[(&str, &[&str], bool, bool)]) -> Config {
    let mut config = Config::new(Project { name: "p".to_string(), default_profile: None });
    for (name, deps, parallel, background) in tasks {
        let mut t = Task::new(name);
        t.depends_on = deps.iter().map(|d| d.to_string()).collect();
        t.parallel = *parallel;
        t.background = *background;
        config.insert_task(name, t);
    }
    config
}

fn options(parallel: bool, fail_fast: bool) -> RunOptions {
    let mut o = RunOptions::default();
    o.parallel = parallel;
    o.fail_fast = fail_fast;
    o.workers = 2;
    o
}

fn batch(action: RunAction) -> Vec<String> {
    match action {
        RunAction::RunBatch { tasks } => tasks,
        other => panic!("expected a batch, got {:?}", other),
    }
}

fn single(action: RunAction) -> String {
    match action {
        RunAction::RunTask { name } => name,
        other => panic!("expected a task, got {:?}", other),
    }
}

#[test]
fn options_come_from_the_profile() {
    let mut profile = Profile::default();
    profile.parallel = true;
    profile.cache = true;
    profile.fail_fast = true;
    profile.verbose = true;
    let o = RunOptions::from_profile(&profile);
    assert!(o.parallel && o.use_cache && o.fail_fast && o.verbose);
    assert_eq!(o.workers, 4);
    assert!(!o.include_quarantined);
    assert!(o.profile.is_none());
    profile.workers = Some(9);
    assert_eq!(RunOptions::from_profile(&profile).workers, 9);
    let d = RunOptions::default();
    assert!(!d.parallel && !d.use_cache && !d.fail_fast && !d.verbose);
    assert_eq!(d.workers, 0);
}

#[test]
fn two_roots_run_side_by_side_before_their_dependent() {
    let config = config_with(&[
        ("a", &[], true, false),
        ("b", &[], true, false),
        ("c", &["a", "b"], true, false),
    ]);
    let levels = calculate_execution_levels(&config, &["c".to_string()]).unwrap();
    let mut run = RunState::new(&config, &levels, &options(true, false), &Profile::default());
    let mut first = batch(run.next_action());
    first.sort();
    assert_eq!(first, vec!["a".to_string(), "b".to_string()]);
    run.record_batch(vec![
        TaskOutcome::Completed(result("a", true, 5)),
        TaskOutcome::Completed(result("b", true, 7)),
    ]);
    assert_eq!(batch(run.next_action()), vec!["c".to_string()]);
    run.record_batch(vec![TaskOutcome::Completed(result("c", true, 1))]);
    assert!(matches!(run.next_action(), RunAction::Finish));
    let summary = run.summary().unwrap();
    assert_eq!(summary.passed, 3);
    assert_eq!(summary.failed, 0);
    assert_eq!(summary.cached, 0);
    assert_eq!(summary.total_duration_ms, 13);
    assert!(summary.failed_tasks.is_empty());
    assert_eq!(exit_code(&summary), 0);
    assert_eq!(finished_status(0), "passed");
    assert!(run.finish().is_empty());
}

#[test]
fn without_parallel_execution_every_task_runs_on_its_own() {
    let config = config_with(&[("a", &[], true, false), ("b", &["a"], true, false)]);
    let levels = calculate_execution_levels(&config, &["b".to_string()]).unwrap();
    let mut run = RunState::new(&config, &levels, &options(false, false), &Profile::default());
    assert_eq!(single(run.next_action()), "a");
    // Asking again changes nothing.
    assert_eq!(single(run.next_action()), "a");
    run.record_task(TaskOutcome::Cached);
    assert_eq!(single(run.next_action()), "b");
    run.record_task(TaskOutcome::Completed(result("b", false, 4)));
    assert!(matches!(run.next_action(), RunAction::Finish));
    let summary = run.summary().unwrap();
    assert_eq!((summary.passed, summary.failed, summary.cached), (0, 1, 1));
    assert_eq!(summary.failed_tasks, vec!["b".to_string()]);
    assert_eq!(exit_code(&summary), 1);
    assert_eq!(finished_status(1), "failed");
    assert_eq!(run.skipped, vec!["a".to_string()]);
}

#[test]
fn a_failure_under_fail_fast_stops_the_run_and_the_background_tasks() {
    let config = config_with(&[
        ("db", &[], false, true),
        ("web", &[], false, true),
        ("check", &[], false, false),
        ("later", &["check"], false, false),
    ]);
    let levels = calculate_execution_levels(
        &config,
        &["db".to_string(), "web".to_string(), "later".to_string()],
    )
    .unwrap();
    let mut run = RunState::new(&config, &levels, &options(true, true), &Profile::default());
    assert_eq!(single(run.next_action()), "db");
    run.record_task(TaskOutcome::BackgroundStarted);
    assert_eq!(single(run.next_action()), "web");
    run.record_task(TaskOutcome::BackgroundStarted);
    assert_eq!(single(run.next_action()), "check");
    run.record_task(TaskOutcome::Completed(result("check", false, 3)));
    assert_eq!(run.stopped, Some(StopReason::TaskFailed));
    assert!(matches!(run.next_action(), RunAction::Finish));
    // Both background tasks are handed back, last started first.
    assert_eq!(run.finish(), vec!["web".to_string(), "db".to_string()]);
    assert_eq!(run.supervisor.running(), 0);
    assert!(run.finish().is_empty());
    let summary = run.summary().unwrap();
    assert_eq!((summary.passed, summary.failed), (0, 1));
    assert_eq!(summary.failed_tasks, vec!["check".to_string()]);
}

#[test]
fn without_fail_fast_a_failure_does_not_stop_the_run() {
    let config = config_with(&[("a", &[], false, false), ("b", &["a"], false, false)]);
    let levels = calculate_execution_levels(&config, &["b".to_string()]).unwrap();
    let mut run = RunState::new(&config, &levels, &options(true, false), &Profile::default());
    assert_eq!(single(run.next_action()), "a");
    run.record_task(TaskOutcome::Completed(result("a", false, 1)));
    assert_eq!(run.stopped, None);
    assert_eq!(single(run.next_action()), "b");
}

#[test]
fn a_failed_batch_is_taken_in_whole_before_the_run_stops() {
    let config = config_with(&[
        ("a", &[], true, false),
        ("b", &[], true, false),
        ("c", &[], false, false),
    ]);
    let levels = calculate_execution_levels(
        &config,
        &["a".to_string(), "b".to_string(), "c".to_string()],
    )
    .unwrap();
    let mut run = RunState::new(&config, &levels, &options(true, true), &Profile::default());
    assert_eq!(batch(run.next_action()), vec!["a".to_string(), "b".to_string()]);
    run.record_batch(vec![
        TaskOutcome::Completed(result("a", false, 1)),
        TaskOutcome::Completed(result("b", true, 2)),
    ]);
    assert_eq!(run.results.len(), 2);
    assert_eq!(run.stopped, Some(StopReason::TaskFailed));
    assert!(matches!(run.next_action(), RunAction::Finish));
}

#[test]
fn a_batch_may_hold_skipped_and_lost_tasks() {
    let config = config_with(&[
        ("a", &[], true, false),
        ("b", &[], true, false),
        ("c", &[], true, false),
        ("d", &[], false, false),
    ]);
    let levels = calculate_execution_levels(
        &config,
        &["a".to_string(), "b".to_string(), "c".to_string(), "d".to_string()],
    )
    .unwrap();
    let mut run = RunState::new(&config, &levels, &options(true, true), &Profile::default());
    assert_eq!(batch(run.next_action()).len(), 3);
    run.record_batch(vec![
        TaskOutcome::Cached,
        TaskOutcome::Lost,
        TaskOutcome::Completed(result("c", true, 2)),
    ]);
    assert_eq!(run.skipped, vec!["a".to_string()]);
    assert_eq!(run.results.len(), 1);
    assert_eq!(single(run.next_action()), "d");
    run.record_task(TaskOutcome::Lost);
    assert!(matches!(run.next_action(), RunAction::Finish));
    let summary = run.summary().unwrap();
    assert_eq!((summary.passed, summary.failed, summary.cached), (1, 0, 1));
}

#[test]
fn a_background_task_that_does_not_become_ready_ends_the_run() {
    let config = config_with(&[("db", &[], false, true), ("web", &[], false, true)]);
    let levels =
        calculate_execution_levels(&config, &["db".to_string(), "web".to_string()]).unwrap();
    let mut run = RunState::new(&config, &levels, &options(false, false), &Profile::default());
    assert_eq!(single(run.next_action()), "db");
    run.record_task(TaskOutcome::BackgroundStarted);
    assert_eq!(single(run.next_action()), "web");
    run.record_task(TaskOutcome::BackgroundFailed(BackgroundError::ExitedBeforeReady));
    assert_eq!(run.stopped, Some(StopReason::Background(BackgroundError::ExitedBeforeReady)));
    assert!(matches!(run.next_action(), RunAction::Finish));
    assert_eq!(run.finish(), vec!["db".to_string()]);
}

#[test]
fn a_run_of_background_tasks_only_has_no_results() {
    let config = config_with(&[("db", &[], false, true)]);
    let levels = calculate_execution_levels(&config, &["db".to_string()]).unwrap();
    let mut run = RunState::new(&config, &levels, &options(true, false), &Profile::default());
    assert_eq!(single(run.next_action()), "db");
    run.record_task(TaskOutcome::BackgroundStarted);
    assert!(matches!(run.next_action(), RunAction::Finish));
    let summary = run.summary().unwrap();
    assert_eq!((summary.passed, summary.failed, summary.cached), (0, 0, 0));
    assert_eq!(exit_code(&summary), 0);
    assert_eq!(run.finish(), vec!["db".to_string()]);
}

#[test]
fn an_empty_plan_is_over_at_once() {
    let config = config_with(&[]);
    let run = RunState::new(&config, &vec![], &options(true, true), &Profile::default());
    assert!(matches!(run.next_action(), RunAction::Finish));
    let unknown = RunState::new(
        &config,
        &vec![vec!["nobody".to_string()]],
        &options(true, true),
        &Profile::default(),
    );
    assert!(matches!(unknown.next_action(), RunAction::Finish));
}

#[test]
fn times_that_do_not_add_up_give_no_summary() {
    let config = config_with(&[("a", &[], false, false), ("b", &[], false, false)]);
    let levels =
        calculate_execution_levels(&config, &["a".to_string(), "b".to_string()]).unwrap();
    let mut run = RunState::new(&config, &levels, &options(false, false), &Profile::default());
    run.record_task(TaskOutcome::Completed(result("a", true, u128::MAX)));
    assert_eq!(run.summary().unwrap().total_duration_ms, u128::MAX);
    run.record_task(TaskOutcome::Completed(result("b", true, 1)));
    assert!(run.summary().is_none());
}

#[test]
fn a_task_is_skipped_supervised_or_executed() {
    let mut t = Task::new("x");
    assert_eq!(classify_task(&t, false), TaskKind::Foreground { retries: false });
    t.retry = 2;
    assert_eq!(classify_task(&t, false), TaskKind::Foreground { retries: true });
    t.background = true;
    assert_eq!(classify_task(&t, false), TaskKind::Background);
    assert_eq!(classify_task(&t, true), TaskKind::Cached);
}

#[test]
fn a_line_with_the_pattern_makes_a_task_ready() {
    let line = |s: &str| ReadinessEvent::Line(s.to_string());
    assert_eq!(
        readiness_step("listening", 30, &line("server listening on :80"), None),
        ReadinessStep::Ready
    );
    assert_eq!(
        readiness_step("listening", 30, &line("starting"), None),
        ReadinessStep::KeepWaiting
    );
    assert_eq!(
        readiness_step("listening", 30, &line("starting"), Some(true)),
        ReadinessStep::KeepWaiting
    );
    assert_eq!(
        readiness_step("listening", 30, &line("starting"), Some(false)),
        ReadinessStep::Fail(BackgroundError::ExitedWithError)
    );
    // The pattern wins over a known exit.
    assert_eq!(
        readiness_step("listening", 30, &line("listening"), Some(false)),
        ReadinessStep::Ready
    );
    assert_eq!(readiness_step("", 30, &line(""), None), ReadinessStep::Ready);
}

#[test]
fn waiting_ends_with_the_output_or_the_time() {
    assert_eq!(
        readiness_step("up", 30, &ReadinessEvent::OutputEnded, None),
        ReadinessStep::Fail(BackgroundError::ExitedBeforeReady)
    );
    assert_eq!(
        readiness_step("up", 30, &ReadinessEvent::ReadersGone, None),
        ReadinessStep::Fail(BackgroundError::FailedToStart)
    );
    assert_eq!(
        readiness_step("up", 30, &ReadinessEvent::Tick { elapsed_ms: 30_000 }, None),
        ReadinessStep::KeepWaiting
    );
    assert_eq!(
        readiness_step("up", 30, &ReadinessEvent::Tick { elapsed_ms: 30_001 }, None),
        ReadinessStep::KillAndFail(BackgroundError::TimedOut { seconds: 30 })
    );
    assert_eq!(
        readiness_step("up", 30, &ReadinessEvent::Tick { elapsed_ms: 100 }, Some(false)),
        ReadinessStep::Fail(BackgroundError::ExitedWithError)
    );
    assert_eq!(
        readiness_step("up", u64::MAX, &ReadinessEvent::Tick { elapsed_ms: u64::MAX }, None),
        ReadinessStep::KeepWaiting
    );
    assert_eq!(
        readiness_step("up", 0, &ReadinessEvent::Tick { elapsed_ms: 1 }, None),
        ReadinessStep::KillAndFail(BackgroundError::TimedOut { seconds: 0 })
    );
}

#[test]
fn a_task_without_pattern_is_judged_after_its_grace_period() {
    assert_eq!(after_grace_period(None), Ok(()));
    assert_eq!(after_grace_period(Some(true)), Ok(()));
    assert_eq!(after_grace_period(Some(false)), Err(BackgroundError::ExitedImmediately));
    let mut t = Task::new("serve");
    assert!(!follows_output(&t));
    t.ready_when = Some("ready".to_string());
    assert!(follows_output(&t));
}

#[test]
fn the_supervisor_stops_tasks_in_reverse_order() {
    let mut s = Supervisor::new();
    assert!(s.shutdown_all().is_empty());
    s.register("one".to_string());
    s.register("two".to_string());
    s.register("three".to_string());
    assert_eq!(s.running(), 3);
    assert_eq!(
        s.shutdown_all(),
        vec!["three".to_string(), "two".to_string(), "one".to_string()]
    );
    assert_eq!(s.running(), 0);
}

#[test]
fn a_notification_sums_a_run_up() {
    let mut run = Run::started("r1", 3, 100);
    assert_eq!(run.status, "running");
    assert!(run.finished_at.is_none());
    let open = build_summary(&run, "proj");
    assert_eq!(open.duration_seconds, 0);
    assert_eq!(open.status_text, "FAILED");
    run.finish(2, 1, 160);
    assert_eq!(run.status, "failed");
    let summary = build_summary(&run, "proj");
    assert_eq!(summary.project_name, "proj");
    assert_eq!(summary.run_id, "r1");
    assert_eq!(summary.status, "failed");
    assert_eq!(summary.status_emoji, "❌");
    assert_eq!(summary.status_text, "FAILED");
    assert_eq!((summary.passed, summary.failed, summary.total), (2, 1, 3));
    assert_eq!(summary.duration_seconds, 60);
    assert!(notifies(true, true, &run));
    run.finish(3, 0, 170);
    let summary = build_summary(&run, "proj");
    assert_eq!(summary.status_emoji, "✅");
    assert_eq!(summary.status_text, "PASSED");
    assert_eq!(summary.duration_seconds, 70);
    assert!(!notifies(true, true, &run));
    assert!(notifies(true, false, &run));
    assert!(!notifies(false, false, &run));
    assert_eq!(finished_status(0), "passed");
    assert_eq!(finished_status(2), "failed");
    assert_eq!(finished_status(-1), "passed");
}
