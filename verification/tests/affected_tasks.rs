use runx::config::{Config, Project, Task};
use runx::graph::affected::{directly_affected_tasks, expand_affected};
use runx::graph::{
    filter_tasks_by_pattern, find_affected_tasks_from_files, find_tasks_watching_file,
    preview_affected,
};
use runx::pattern::{any_pattern_matches, match_pattern, pattern_matches};

fn watching(cmd: &str, watch: &[&str], deps: &[&str]) -> Task {
    let mut t = Task::new(cmd);
    t.watch = watch.iter().map(|w| w.to_string()).collect();
    t.depends_on = deps.iter().map(|d| d.to_string()).collect();
    t
}

fn create_test_config() -> Config {
    let mut config = Config::new(Project { name: "test".to_string(), default_profile: None });
    config.insert_task("build", watching("cargo build", &["src/**/*.rs"], &[]));
    config.insert_task(
        "test",
        watching("cargo test", &["src/**/*.rs", "tests/**/*.rs"], &["build"]),
    );
    config.insert_task("lint", watching("cargo clippy", &["src/**/*.rs"], &[]));
    config
}

#[test]
fn test_find_affected_from_files() {
    let config = create_test_config();
    let changed = vec!["src/main.rs".to_string()];

    let affected = find_affected_tasks_from_files(&config, &changed);

    // build, test, and lint all watch src/**/*.rs
    assert!(affected.contains(&"build".to_string()));
    assert!(affected.contains(&"test".to_string()));
    assert!(affected.contains(&"lint".to_string()));
}

#[test]
fn test_find_affected_test_only() {
    let config = create_test_config();
    let changed = vec!["tests/integration.rs".to_string()];

    let affected = find_affected_tasks_from_files(&config, &changed);

    // Only test watches tests/**/*.rs
    assert!(affected.contains(&"test".to_string()));
    assert!(!affected.contains(&"build".to_string()));
    assert!(!affected.contains(&"lint".to_string()));
}

#[test]
fn test_preview_affected() {
    let config = create_test_config();
    let previews = preview_affected(&config, &["src/lib.rs"]);

    assert_eq!(previews.len(), 1);
    assert!(!previews[0].directly_affected.is_empty());
}

#[test]
fn a_change_reaches_the_dependents_of_the_watching_task() {
    let mut config = Config::new(Project { name: "p".to_string(), default_profile: None });
    config.insert_task("build", watching("cargo build", &["src/**/*.rs"], &[]));
    config.insert_task("test", watching("cargo test", &[], &["build"]));
    let affected = find_affected_tasks_from_files(&config, &["src/lib.rs".to_string()]);
    assert_eq!(affected, vec!["build".to_string(), "test".to_string()]);
    let none = find_affected_tasks_from_files(&config, &["README.md".to_string()]);
    assert!(none.is_empty());
}

#[test]
fn input_patterns_affect_a_task_too() {
    let mut config = Config::new(Project { name: "p".to_string(), default_profile: None });
    let mut docs = Task::new("mdbook build");
    docs.inputs = vec!["docs/*.md".to_string()];
    config.insert_task("docs", docs);
    config.insert_task("site", watching("deploy", &[], &["docs"]));
    config.insert_task("other", watching("other", &["src/*.c"], &[]));
    let affected = find_affected_tasks_from_files(
        &config,
        &["LICENSE".to_string(), "docs/intro.md".to_string()],
    );
    assert_eq!(affected, vec!["docs".to_string(), "site".to_string()]);
}

#[test]
fn affected_tasks_come_sorted_and_once() {
    let mut config = Config::new(Project { name: "p".to_string(), default_profile: None });
    config.insert_task("zeta", watching("z", &["*.txt"], &[]));
    config.insert_task("alpha", watching("a", &["*.txt"], &["zeta"]));
    config.insert_task("mid", watching("m", &[], &["alpha", "zeta"]));
    let affected = find_affected_tasks_from_files(
        &config,
        &["a.txt".to_string(), "b.txt".to_string()],
    );
    assert_eq!(affected, vec!["alpha".to_string(), "mid".to_string(), "zeta".to_string()]);
}

#[test]
fn an_invalid_pattern_matches_nothing() {
    let mut config = Config::new(Project { name: "p".to_string(), default_profile: None });
    config.insert_task("broken", watching("b", &["src/[", "a**b"], &[]));
    assert!(find_tasks_watching_file(&config, "src/[").is_empty());
    assert!(find_affected_tasks_from_files(&config, &["src/[".to_string()]).is_empty());
    assert_eq!(match_pattern("src/[", "src/["), None);
    assert!(!pattern_matches("a**b", "a**b"));
}

#[test]
fn patterns_follow_shell_rules() {
    assert_eq!(match_pattern("src/**/*.rs", "src/lib.rs"), Some(true));
    assert_eq!(match_pattern("src/**/*.rs", "src/a/b/c.rs"), Some(true));
    assert_eq!(match_pattern("src/**/*.rs", "README.md"), Some(false));
    assert_eq!(match_pattern("c?t", "cat"), Some(true));
    assert_eq!(match_pattern("c?t", "coat"), Some(false));
    assert_eq!(match_pattern("d*g", "doog"), Some(true));
    assert_eq!(match_pattern("k[!e]tteh", "kitteh"), Some(true));
    assert_eq!(match_pattern("k[!e]tteh", "ketteh"), Some(false));
    // A pattern is no path: it does not match itself.
    assert_eq!(match_pattern("*.rs", "*.txt"), Some(false));
    assert!(any_pattern_matches(&vec!["*.c".to_string(), "*.h".to_string()], "a.h"));
    assert!(!any_pattern_matches(&vec!["*.c".to_string(), "*.h".to_string()], "a.rs"));
    assert!(!any_pattern_matches(&vec![], "a.rs"));
}

#[test]
fn watching_tasks_come_in_declaration_order() {
    let config = create_test_config();
    assert_eq!(
        find_tasks_watching_file(&config, "src/x.rs"),
        vec!["build".to_string(), "test".to_string(), "lint".to_string()]
    );
    assert_eq!(find_tasks_watching_file(&config, "tests/x.rs"), vec!["test".to_string()]);
    assert!(find_tasks_watching_file(&config, "Cargo.toml").is_empty());
}

#[test]
fn direct_and_expanded_sets() {
    let config = create_test_config();
    let direct = directly_affected_tasks(&config, &["tests/a.rs".to_string()]);
    assert_eq!(direct, vec!["test".to_string()]);
    let all = expand_affected(&config, &vec!["build".to_string()]);
    assert_eq!(all, vec!["build".to_string(), "test".to_string()]);
    assert!(expand_affected(&config, &vec![]).is_empty());
}

#[test]
fn preview_lists_direct_and_all_affected_tasks() {
    let mut config = Config::new(Project { name: "p".to_string(), default_profile: None });
    config.insert_task("build", watching("cargo build", &["src/**/*.rs"], &[]));
    config.insert_task("test", watching("cargo test", &[], &["build"]));
    let previews = preview_affected(&config, &["src/lib.rs", "README.md"]);
    assert_eq!(previews.len(), 2);
    assert_eq!(previews[0].file, "src/lib.rs");
    assert_eq!(previews[0].directly_affected, vec!["build".to_string()]);
    assert_eq!(
        previews[0].transitively_affected,
        vec!["build".to_string(), "test".to_string()]
    );
    assert_eq!(previews[1].file, "README.md");
    assert!(previews[1].directly_affected.is_empty());
    assert!(previews[1].transitively_affected.is_empty());
}

#[test]
fn tasks_are_filtered_by_pattern_or_by_text() {
    let tasks = vec!["build-a".to_string(), "build-b".to_string(), "test".to_string()];
    assert_eq!(
        filter_tasks_by_pattern(&tasks, "build-*"),
        vec!["build-a".to_string(), "build-b".to_string()]
    );
    assert_eq!(filter_tasks_by_pattern(&tasks, "test"), vec!["test".to_string()]);
    assert!(filter_tasks_by_pattern(&tasks, "es").is_empty());
    // A pattern that does not compile keeps the names that contain it.
    let odd = vec!["a[b".to_string(), "xa[by".to_string(), "ab".to_string()];
    assert_eq!(filter_tasks_by_pattern(&odd, "a["), vec!["a[b".to_string(), "xa[by".to_string()]);
}
