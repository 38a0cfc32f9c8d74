use runx::config::{Config, Project, Task};
use runx::graph::toposort::{collect_required_tasks, GraphError};
use runx::graph::{get_dependent_tasks, topological_sort};

fn project() -> Project {
    Project { name: "test".to_string(), default_profile: None }
}

fn task(cmd: &str, deps: &[&str]) -> Task {
    let mut t = Task::new(cmd);
    t.depends_on = deps.iter().map(|d| d.to_string()).collect();
    t
}

fn create_test_config() -> Config {
    let mut config = Config::new(project());
    let mut build = Task::new("cargo build");
    build.watch = vec!["src/**/*.rs".to_string()];
    config.insert_task("build", build);
    let mut test = Task::new("cargo test");
    test.watch = vec!["src/**/*.rs".to_string()];
    test.depends_on = vec!["build".to_string()];
    config.insert_task("test", test);
    config.insert_task("lint", Task::new("cargo clippy"));
    config
}

#[test]
fn test_topological_sort() {
    let config = create_test_config();
    let order = topological_sort(&config, &["test"]).unwrap();

    // build must come before test
    let build_pos = order.iter().position(|x| x == "build").unwrap();
    let test_pos = order.iter().position(|x| x == "test").unwrap();
    assert!(build_pos < test_pos);
}

#[test]
fn test_get_dependent_tasks() {
    let config = create_test_config();
    let deps = get_dependent_tasks(&config, "build");
    assert!(deps.contains(&"test".to_string()));
    assert!(!deps.contains(&"lint".to_string()));
}

#[test]
fn sort_holds_the_closure_only() {
    let config = create_test_config();
    let order = topological_sort(&config, &["test"]).unwrap();
    assert_eq!(order, vec!["build".to_string(), "test".to_string()]);
}

#[test]
fn sort_of_nothing_is_empty() {
    let config = create_test_config();
    let order = topological_sort(&config, &[]).unwrap();
    assert!(order.is_empty());
}

#[test]
fn sort_names_each_task_once() {
    let mut config = Config::new(project());
    config.insert_task("a", task("a", &[]));
    config.insert_task("b", task("b", &["a", "a"]));
    config.insert_task("c", task("c", &["a", "b"]));
    config.insert_task("d", task("d", &["c", "b"]));
    let order = topological_sort(&config, &["d", "c", "d"]).unwrap();
    assert_eq!(order.len(), 4);
    for (i, name) in order.iter().enumerate() {
        let t = config.get_task(name).unwrap();
        for dep in &t.depends_on {
            let at = order.iter().position(|x| x == dep).unwrap();
            assert!(at < i);
        }
        assert_eq!(order.iter().filter(|x| *x == name).count(), 1);
    }
}

#[test]
fn sort_reports_a_missing_request() {
    let config = create_test_config();
    match topological_sort(&config, &["deploy"]) {
        Err(GraphError::TaskNotFound(name)) => assert_eq!(name, "deploy"),
        other => panic!("expected a missing task, got {:?}", other),
    }
}

#[test]
fn sort_reports_a_missing_dependency() {
    let mut config = Config::new(project());
    config.insert_task("a", task("a", &["ghost"]));
    match topological_sort(&config, &["a"]) {
        Err(GraphError::TaskNotFound(name)) => assert_eq!(name, "ghost"),
        other => panic!("expected a missing task, got {:?}", other),
    }
}

#[test]
fn sort_reports_a_cycle() {
    let mut config = Config::new(project());
    config.insert_task("a", task("a", &["c"]));
    config.insert_task("b", task("b", &["a"]));
    config.insert_task("c", task("c", &["b"]));
    assert!(matches!(topological_sort(&config, &["a"]), Err(GraphError::CircularDependency)));
}

#[test]
fn sort_reports_a_task_that_depends_on_itself() {
    let mut config = Config::new(project());
    config.insert_task("a", task("a", &["a"]));
    assert!(matches!(topological_sort(&config, &["a"]), Err(GraphError::CircularDependency)));
}

#[test]
fn a_cycle_outside_the_closure_does_not_matter() {
    let mut config = Config::new(project());
    config.insert_task("a", task("a", &["b"]));
    config.insert_task("b", task("b", &["a"]));
    config.insert_task("c", task("c", &[]));
    assert_eq!(topological_sort(&config, &["c"]).unwrap(), vec!["c".to_string()]);
}

#[test]
fn required_tasks_come_in_discovery_order() {
    let mut config = Config::new(project());
    config.insert_task("a", task("a", &[]));
    config.insert_task("b", task("b", &["a"]));
    config.insert_task("c", task("c", &["b", "a"]));
    let required = collect_required_tasks(&config, &["c"]).unwrap();
    assert_eq!(required, vec!["c".to_string(), "b".to_string(), "a".to_string()]);
}

#[test]
fn dependents_are_found_through_other_tasks() {
    let mut config = Config::new(project());
    config.insert_task("a", task("a", &[]));
    config.insert_task("b", task("b", &["a"]));
    config.insert_task("c", task("c", &["b"]));
    config.insert_task("d", task("d", &[]));
    let mut dependents = get_dependent_tasks(&config, "a");
    dependents.sort();
    assert_eq!(dependents, vec!["b".to_string(), "c".to_string()]);
    assert!(get_dependent_tasks(&config, "c").is_empty());
    assert!(get_dependent_tasks(&config, "nobody").is_empty());
}

#[test]
fn inserting_a_task_twice_replaces_it() {
    let mut config = Config::new(project());
    config.insert_task("a", task("first", &[]));
    config.insert_task("b", task("b", &[]));
    config.insert_task("a", task("second", &[]));
    assert_eq!(config.task_names(), vec!["a".to_string(), "b".to_string()]);
    assert_eq!(config.get_task("a").unwrap().cmd, "second");
    assert!(config.get_task("c").is_none());
}
