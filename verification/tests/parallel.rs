use runx::config::{Config, Profile, Project, Task};
use runx::execution::parallel::{ParallelStats, PoolAction};
use runx::execution::{calculate_execution_levels, filter_parallel_tasks, ParallelExecutor};
use runx::graph::GraphError;

fn parallel_task(cmd: &str, deps: &[&str]) -> Task {
    let mut t = Task::new(cmd);
    t.depends_on = deps.iter().map(|d| d.to_string()).collect();
    t.parallel = true;
    t
}

fn create_test_config() -> Config {
    let mut config = Config::new(Project { name: "test".to_string(), default_profile: None });
    // Level 0: no dependencies
    config.insert_task("build-a", parallel_task("echo a", &[]));
    config.insert_task("build-b", parallel_task("echo b", &[]));
    // Level 1: depends on build-a and build-b
    config.insert_task("test", parallel_task("echo test", &["build-a", "build-b"]));
    config
}

#[test]
fn test_execution_levels() {
    let config = create_test_config();
    let levels = calculate_execution_levels(&config, &vec!["test".to_string()]).unwrap();

    assert_eq!(levels.len(), 2);
    // Level 0 should have build-a and build-b
    assert!(
        levels[0].contains(&"build-a".to_string()) || levels[0].contains(&"build-b".to_string())
    );
    // Level 1 should have test
    assert!(levels[1].contains(&"test".to_string()));
}

#[test]
fn test_parallel_stats() {
    let config = create_test_config();
    let profile = Profile::default();
    let levels = calculate_execution_levels(&config, &vec!["test".to_string()]).unwrap();

    let stats = ParallelStats::from_levels(&levels, &config, &profile);
    assert_eq!(stats.total_tasks, 3);
    assert_eq!(stats.levels, 2);
}

#[test]
fn levels_of_two_roots_and_one_dependent() {
    let mut config = Config::new(Project { name: "p".to_string(), default_profile: None });
    config.insert_task("a", Task::new("a"));
    config.insert_task("b", Task::new("b"));
    let mut c = Task::new("c");
    c.depends_on = vec!["a".to_string(), "b".to_string()];
    config.insert_task("c", c);
    let levels = calculate_execution_levels(&config, &vec!["c".to_string()]).unwrap();
    assert_eq!(levels.len(), 2);
    let mut first = levels[0].clone();
    first.sort();
    assert_eq!(first, vec!["a".to_string(), "b".to_string()]);
    assert_eq!(levels[1], vec!["c".to_string()]);
}

#[test]
fn levels_hold_each_required_task_once() {
    let mut config = Config::new(Project { name: "p".to_string(), default_profile: None });
    config.insert_task("a", parallel_task("a", &[]));
    config.insert_task("b", parallel_task("b", &["a"]));
    config.insert_task("c", parallel_task("c", &["a"]));
    config.insert_task("d", parallel_task("d", &["b", "c"]));
    config.insert_task("e", parallel_task("e", &[]));
    let levels =
        calculate_execution_levels(&config, &vec!["d".to_string(), "e".to_string()]).unwrap();
    let mut all: Vec<String> = levels.iter().flatten().cloned().collect();
    assert_eq!(all.len(), 5);
    all.sort();
    all.dedup();
    assert_eq!(all.len(), 5);
    let level_of = |name: &str| levels.iter().position(|l| l.iter().any(|x| x == name)).unwrap();
    assert_eq!(level_of("a"), 0);
    assert_eq!(level_of("e"), 0);
    assert_eq!(level_of("b"), 1);
    assert_eq!(level_of("c"), 1);
    assert_eq!(level_of("d"), 2);
}

#[test]
fn levels_report_a_cycle() {
    let mut config = Config::new(Project { name: "p".to_string(), default_profile: None });
    config.insert_task("a", parallel_task("a", &["b"]));
    config.insert_task("b", parallel_task("b", &["a"]));
    assert!(matches!(
        calculate_execution_levels(&config, &vec!["a".to_string()]),
        Err(GraphError::CircularDependency)
    ));
}

#[test]
fn levels_report_a_missing_task() {
    let config = create_test_config();
    match calculate_execution_levels(&config, &vec!["nope".to_string()]) {
        Err(GraphError::TaskNotFound(name)) => assert_eq!(name, "nope"),
        other => panic!("expected a missing task, got {:?}", other),
    }
}

#[test]
fn background_tasks_stay_out_of_the_pool() {
    let mut config = Config::new(Project { name: "p".to_string(), default_profile: None });
    config.insert_task("fast", parallel_task("fast", &[]));
    let mut server = parallel_task("server", &[]);
    server.background = true;
    config.insert_task("server", server);
    config.insert_task("slow", Task::new("slow"));
    let names = vec![
        "fast".to_string(),
        "server".to_string(),
        "unknown".to_string(),
        "slow".to_string(),
    ];
    let (parallel, sequential) = filter_parallel_tasks(&config, &names, &Profile::default());
    assert_eq!(parallel, vec!["fast".to_string()]);
    assert_eq!(sequential, vec!["server".to_string(), "slow".to_string()]);

    let mut all_parallel = Profile::default();
    all_parallel.parallel = true;
    let (parallel, sequential) = filter_parallel_tasks(&config, &names, &all_parallel);
    assert_eq!(parallel, vec!["fast".to_string(), "slow".to_string()]);
    assert_eq!(sequential, vec!["server".to_string()]);
}

#[test]
fn stats_count_pool_and_other_tasks() {
    let mut config = create_test_config();
    config.insert_task("lint", Task::new("lint"));
    let levels = vec![
        vec!["build-a".to_string(), "build-b".to_string(), "lint".to_string()],
        vec!["test".to_string()],
    ];
    let stats = ParallelStats::from_levels(&levels, &config, &Profile::default());
    assert_eq!(
        stats,
        ParallelStats {
            total_tasks: 4,
            parallel_tasks: 3,
            sequential_tasks: 1,
            levels: 2,
            max_parallelism: 2,
        }
    );
}

#[test]
fn an_executor_has_at_least_one_worker() {
    assert_eq!(ParallelExecutor::new(0).max_workers, 1);
    assert_eq!(ParallelExecutor::new(1).max_workers, 1);
    assert_eq!(ParallelExecutor::new(8).max_workers, 8);
}

#[test]
fn a_pool_of_two_workers_runs_two_tasks_at_once() {
    let executor = ParallelExecutor::new(2);
    let mut pool = executor.pool(&["a".to_string(), "b".to_string(), "c".to_string()]);
    assert!(matches!(pool.next_action(), PoolAction::Start(name) if name == "a"));
    assert!(matches!(pool.next_action(), PoolAction::Start(name) if name == "b"));
    assert!(matches!(pool.next_action(), PoolAction::Wait));
    assert!(pool.task_finished());
    assert!(matches!(pool.next_action(), PoolAction::Start(name) if name == "c"));
    assert!(matches!(pool.next_action(), PoolAction::Wait));
    assert!(pool.task_finished());
    assert!(matches!(pool.next_action(), PoolAction::Wait));
    assert!(pool.task_finished());
    assert!(matches!(pool.next_action(), PoolAction::Done));
    assert!(!pool.task_finished());
    assert_eq!(pool.finished, 3);
}

#[test]
fn an_empty_batch_is_done_at_once() {
    let mut pool = ParallelExecutor::new(4).pool(&[]);
    assert!(matches!(pool.next_action(), PoolAction::Done));
}
