use runx::affected::{
    extract_module_from_test_file, infer_source_paths, is_test_file, normalize_path,
    AffectedTestsMap,
};
use runx::ai::{AiConfig, AiProvider};
use runx::artifacts::sanitize_filename;
use runx::config::{
    default_ai_language, default_ai_provider, default_cache_enabled, default_cache_ttl,
    default_ready_timeout, default_retry_delay, CacheConfig, Config, ConfigError, OverrideEntry,
    Profile, ProfileEntry, Project, Task, TaskOverride,
};
use runx::git::diff::{file_kind, FileKind};
use runx::git::categorize_files;
use runx::order::{insert_sorted, sorted_unique, str_lt};
use runx::test_model::{FilterMode, TestStats, TestStatus};
use runx::test_runner::{
    parse_test_line, SingleTestResult, TestEvent, TestOutputParser, TestRunResult, TestRunner,
};
use runx::text::{join, str_contains, str_ends_with, str_eq, str_starts_with};
use runx::tui::{TaskStatus, TuiTask};
use runx::watcher::find_common_prefix;

#[test]
fn test_infer_source_paths() {
    let paths = infer_source_paths(&["config".to_string(), "tests".to_string()]);
    assert!(paths.contains(&"src/config.rs".to_string()));
    assert!(paths.contains(&"src/config/mod.rs".to_string()));
}

#[test]
fn test_normalize_path() {
    assert_eq!(normalize_path("./src/foo.rs"), "src/foo.rs");
    assert_eq!(normalize_path("src\\foo.rs"), "src/foo.rs");
}

#[test]
fn test_extract_module() {
    assert_eq!(extract_module_from_test_file("tests/foo_test.rs"), Some("foo".to_string()));
    assert_eq!(extract_module_from_test_file("tests/test_bar.rs"), Some("bar".to_string()));
}

#[test]
fn test_sanitize_filename() {
    assert_eq!(sanitize_filename("module::tests::test_one"), "module_tests_test_one");
    assert_eq!(sanitize_filename("test with spaces"), "test_with_spaces");
}

#[test]
fn test_categorize_files() {
    let files = vec![
        "src/main.rs".to_string(),
        "src/lib.rs".to_string(),
        "tests/integration.rs".to_string(),
        "package.json".to_string(),
        "src/app.tsx".to_string(),
    ];

    let categories = categorize_files(&files);
    // tests/integration.rs matches .rs first, so all 3 go to rust
    assert_eq!(categories.rust.len(), 3);
    assert_eq!(categories.typescript.len(), 1);
    assert_eq!(categories.config.len(), 1);
    // No files go to tests category since language extension takes precedence
    assert_eq!(categories.tests.len(), 0);
}

#[test]
fn test_parse_test_line() {
    let info = parse_test_line("test module::tests::test_one ... ok").unwrap();
    assert_eq!(info.name, "module::tests::test_one");
    assert_eq!(info.status, TestStatus::Passed);

    let info = parse_test_line("test my_test ... FAILED").unwrap();
    assert_eq!(info.name, "my_test");
    assert_eq!(info.status, TestStatus::Failed);

    let info = parse_test_line("test ignored_test ... ignored").unwrap();
    assert_eq!(info.name, "ignored_test");
    assert_eq!(info.status, TestStatus::Ignored);
}

#[test]
fn test_parse_running_test() {
    let info = parse_test_line("test long_test ...").unwrap();
    assert_eq!(info.name, "long_test");
    assert_eq!(info.status, TestStatus::Running);
}

#[test]
fn test_find_common_prefix() {
    assert_eq!(
        find_common_prefix(&["module::test_one".to_string(), "module::test_two".to_string()]),
        "module::test_"
    );

    assert_eq!(find_common_prefix(&["foo::bar".to_string(), "foo::baz".to_string()]), "foo::ba");

    assert_eq!(find_common_prefix(&["abc".to_string(), "xyz".to_string()]), "");
}

#[test]
fn common_prefix_of_none_and_of_one() {
    assert_eq!(find_common_prefix(&[]), "");
    assert_eq!(find_common_prefix(&["only::one".to_string()]), "only::one");
    assert_eq!(
        find_common_prefix(&["ab".to_string(), "abc".to_string(), "abd".to_string()]),
        "ab"
    );
    assert_eq!(find_common_prefix(&["abc".to_string(), "".to_string()]), "");
}

#[test]
fn other_test_lines() {
    assert!(parse_test_line("running 3 tests").is_none());
    assert!(parse_test_line("test").is_none());
    let doc = parse_test_line("test src/lib.rs - add (line 5) ... ok").unwrap();
    assert_eq!(doc.name, "src/lib.rs - add (line 5)");
    assert_eq!(doc.status, TestStatus::Passed);
    let dash = parse_test_line("test module::func - compile").unwrap();
    assert_eq!(dash.name, "module::func");
    assert_eq!(dash.status, TestStatus::Running);
    let dash_ok = parse_test_line("test module::func - ok").unwrap();
    assert_eq!(dash_ok.name, "module::func");
    assert_eq!(dash_ok.status, TestStatus::Passed);
    let bare = parse_test_line("test   spaced  ").unwrap();
    assert_eq!(bare.name, "spaced");
    assert_eq!(bare.status, TestStatus::Running);
    let dots = parse_test_line("test a ...  ... ").unwrap();
    assert_eq!(dots.name, "a");
    assert_eq!(dots.status, TestStatus::Running);
    let odd = parse_test_line("test a ... bench").unwrap();
    assert_eq!(odd.status, TestStatus::Running);
    let both = parse_test_line("test a ... ok FAILED").unwrap();
    assert_eq!(both.status, TestStatus::Passed);
    let empty = parse_test_line("test ").unwrap();
    assert_eq!(empty.name, "");
}

#[test]
fn paths_are_normalized() {
    assert_eq!(normalize_path("././a/./b"), "a/./b");
    assert_eq!(normalize_path(".\\src\\x.rs"), "src/x.rs");
    assert_eq!(normalize_path("."), ".");
    assert_eq!(normalize_path(""), "");
    assert_eq!(normalize_path("../up"), "../up");
}

#[test]
fn test_files_are_told_by_their_paths() {
    assert!(is_test_file("a/tests/b.rs"));
    assert!(is_test_file("src/foo_test.rs"));
    assert!(is_test_file("src/foo_tests.rs"));
    assert!(is_test_file("src/test_foo.rs"));
    assert!(!is_test_file("src/foo.rs"));
    assert!(!is_test_file("tests.rs"));
}

#[test]
fn modules_of_test_files() {
    assert_eq!(extract_module_from_test_file("tests/foo_tests.rs"), Some("foo".to_string()));
    assert_eq!(extract_module_from_test_file("tests/integration/foo.rs"), Some("foo".to_string()));
    assert_eq!(extract_module_from_test_file("foo.rs"), Some("foo".to_string()));
    assert_eq!(extract_module_from_test_file("tests/test_foo_test.rs"), Some("foo".to_string()));
    assert_eq!(extract_module_from_test_file("tests/foo.txt"), None);
    assert_eq!(extract_module_from_test_file("tests/"), None);
    assert_eq!(extract_module_from_test_file(".rs"), Some("".to_string()));
}

#[test]
fn source_paths_of_modules() {
    assert!(infer_source_paths(&[]).is_empty());
    assert_eq!(
        infer_source_paths(&["tests".to_string()]),
        vec!["src/lib.rs".to_string(), "src/main.rs".to_string()]
    );
    assert_eq!(
        infer_source_paths(&["config".to_string(), "tests".to_string()]),
        vec!["src/config.rs".to_string(), "src/config/mod.rs".to_string()]
    );
    assert_eq!(
        infer_source_paths(&["a".to_string(), "test".to_string(), "b".to_string()]),
        vec![
            "src/a/b.rs".to_string(),
            "src/a/b/mod.rs".to_string(),
            "src/a.rs".to_string(),
            "src/a/mod.rs".to_string(),
        ]
    );
}

#[test]
fn affected_tests_of_a_changed_file() {
    let mut map = AffectedTestsMap::new();
    map.insert("src/config.rs", "config::tests::b");
    map.insert("src/config.rs", "config::tests::a");
    map.insert("src/config/mod.rs", "config::tests::b");
    map.insert("src/graph.rs", "graph::tests::sort");
    assert_eq!(map.file_to_tests.len(), 3);
    // A file with an entry of its own: the tests as they stand.
    assert_eq!(
        map.find_affected_tests("./src/config.rs"),
        vec!["config::tests::b".to_string(), "config::tests::a".to_string()]
    );
    // A directory of sources: every entry below it, sorted, each once.
    assert_eq!(
        map.find_affected_tests("src/config"),
        vec!["config::tests::a".to_string(), "config::tests::b".to_string()]
    );
    // A test file: the entries that hold the module it is named after.
    assert_eq!(
        map.find_affected_tests("tests/graph_test.rs"),
        vec!["graph::tests::sort".to_string()]
    );
    assert!(map.find_affected_tests("docs/readme.md").is_empty());
    assert!(map.should_rerun("src\\lib.rs"));
    assert!(map.should_rerun("./Cargo.toml"));
    assert!(!map.should_rerun("README.md"));
    assert!(AffectedTestsMap::default().find_affected_tests("src/a.rs").is_empty());
}

#[test]
fn file_names_are_made_safe() {
    assert_eq!(sanitize_filename("a:::b"), "a_:b");
    assert_eq!(sanitize_filename("a::::b"), "a__b");
    assert_eq!(sanitize_filename("a/b\\c d"), "a_b_c_d");
    assert_eq!(sanitize_filename(":"), ":");
    assert_eq!(sanitize_filename(""), "");
}

#[test]
fn files_are_sorted_by_kind() {
    assert_eq!(file_kind("a.ts"), FileKind::TypeScript);
    assert_eq!(file_kind("a.jsx"), FileKind::JavaScript);
    assert_eq!(file_kind("a.py"), FileKind::Python);
    assert_eq!(file_kind("a.go"), FileKind::Go);
    assert_eq!(file_kind("a.yml"), FileKind::Config);
    assert_eq!(file_kind("Cargo.toml"), FileKind::Config);
    assert_eq!(file_kind("spec/readme"), FileKind::Tests);
    assert_eq!(file_kind("latest.txt"), FileKind::Tests);
    assert_eq!(file_kind("LICENSE"), FileKind::Other);
    let files: Vec<String> =
        ["b.py", "x", "a.py", "t/test.sh"].iter().map(|s| s.to_string()).collect();
    let c = categorize_files(&files);
    assert_eq!(c.python, vec!["b.py".to_string(), "a.py".to_string()]);
    assert_eq!(c.other, vec!["x".to_string()]);
    assert_eq!(c.tests, vec!["t/test.sh".to_string()]);
    assert_eq!(c.total(), 4);
    assert_eq!(c.checked_total(), Some(4));
    assert_eq!(categorize_files(&[]).total(), 0);
}

#[test]
fn statuses_have_signs_and_filters() {
    assert_eq!(TestStatus::Pending.symbol(), "○");
    assert_eq!(TestStatus::Running.symbol(), "●");
    assert_eq!(TestStatus::Passed.symbol(), "✓");
    assert_eq!(TestStatus::Failed.symbol(), "✗");
    assert_eq!(TestStatus::Ignored.symbol(), "⊘");
    assert_eq!(TaskStatus::Skipped.symbol(), "⊘");
    assert_eq!(TaskStatus::Passed.symbol(), "✓");
    assert_eq!(TestStatus::default(), TestStatus::Pending);
    assert_eq!(FilterMode::default(), FilterMode::All);
    assert_eq!(FilterMode::All.label(), "All");
    assert_eq!(FilterMode::Ignored.label(), "Ignored");
    assert!(FilterMode::All.matches(TestStatus::Running));
    assert!(FilterMode::Failed.matches(TestStatus::Failed));
    assert!(!FilterMode::Failed.matches(TestStatus::Passed));
    assert!(!FilterMode::Pending.matches(TestStatus::Running));
    let mut mode = FilterMode::All;
    let mut seen = vec![];
    for _ in 0..5 {
        mode = mode.cycle_next();
        seen.push(mode.label());
    }
    assert_eq!(seen, vec!["Passed", "Failed", "Pending", "Ignored", "All"]);
}

#[test]
fn statuses_are_counted() {
    let stats = TestStats::from_statuses(&vec![
        TestStatus::Passed,
        TestStatus::Failed,
        TestStatus::Passed,
        TestStatus::Running,
        TestStatus::Ignored,
        TestStatus::Pending,
        TestStatus::Passed,
    ]);
    assert_eq!(
        stats,
        TestStats { total: 7, passed: 3, failed: 1, pending: 1, running: 1, ignored: 1 }
    );
}

#[test]
fn test_results_are_counted() {
    let mut run = TestRunResult::default();
    assert_eq!(run.total(), 0);
    for (name, status) in
        [("a", TestStatus::Passed), ("b", TestStatus::Failed), ("c", TestStatus::Ignored)]
    {
        run.record(SingleTestResult {
            name: name.to_string(),
            status,
            duration_ms: Some(0),
            output: vec![],
        });
    }
    assert_eq!((run.passed, run.failed, run.ignored), (1, 1, 1));
    assert_eq!(run.total(), 3);
    assert_eq!(run.test_results.len(), 3);
}

#[test]
fn a_task_keeps_its_last_thousand_lines() {
    let mut task = TuiTask::new("build".to_string());
    assert_eq!(task.status, TaskStatus::Pending);
    assert!(task.duration_ms.is_none());
    for i in 0..1003 {
        task.add_output(format!("line {}", i));
    }
    assert_eq!(task.output.len(), 1000);
    assert_eq!(task.output[0], "line 3");
    assert_eq!(task.output[999], "line 1002");
}

#[test]
fn strings_compare_by_code_point() {
    assert!(str_lt("a", "b"));
    assert!(str_lt("", "a"));
    assert!(str_lt("ab", "abc"));
    assert!(str_lt("Z", "a"));
    assert!(str_lt("z", "é"));
    assert!(!str_lt("b", "a"));
    assert!(!str_lt("a", "a"));
    assert!(!str_lt("", ""));
    let mut v = vec!["b".to_string(), "d".to_string()];
    insert_sorted(&mut v, "c".to_string());
    insert_sorted(&mut v, "a".to_string());
    insert_sorted(&mut v, "d".to_string());
    insert_sorted(&mut v, "e".to_string());
    assert_eq!(v, vec!["a", "b", "c", "d", "e"]);
    let names: Vec<String> = ["pear", "apple", "pear", "fig"].iter().map(|s| s.to_string()).collect();
    assert_eq!(sorted_unique(&names), vec!["apple", "fig", "pear"]);
}

#[test]
fn strings_are_searched() {
    assert!(str_contains("hello", "ell"));
    assert!(str_contains("hello", ""));
    assert!(!str_contains("hello", "elo"));
    assert!(!str_contains("", "a"));
    assert!(str_starts_with("hello", "he"));
    assert!(!str_starts_with("hello", "el"));
    assert!(str_ends_with("hello", "lo"));
    assert!(!str_ends_with("lo", "hello"));
    assert!(str_eq("é", "é"));
    assert!(!str_eq("e", "é"));
    assert_eq!(join(&vec!["a".to_string(), "b".to_string(), "c".to_string()], "/"), "a/b/c");
    assert_eq!(join(&vec!["a".to_string()], "/"), "a");
    assert_eq!(join(&vec![], "/"), "");
}

#[test]
fn configuration_defaults() {
    assert_eq!(default_ai_provider(), "anthropic");
    assert_eq!(default_ai_language(), "en");
    assert!(default_cache_enabled());
    assert_eq!(default_cache_ttl(), 24);
    assert_eq!(default_ready_timeout(), 30);
    assert_eq!(default_retry_delay(), 1000);
    assert_eq!(AiProvider::default(), AiProvider::Anthropic);
    let ai = AiConfig::default();
    assert_eq!(ai.provider, "anthropic");
    assert_eq!(ai.language, "en");
    assert!(!ai.auto_annotate);
    let t = Task::new("make");
    assert_eq!(t.cmd, "make");
    assert_eq!(t.ready_timeout, 30);
    assert_eq!(t.retry_delay_ms, 1000);
    assert_eq!(t.retry, 0);
    assert!(!t.background && !t.parallel && !t.coverage);
    let copy = t.duplicate();
    assert_eq!(copy.cmd, "make");
}

#[test]
fn the_cache_settings_have_defaults() {
    let mut config = Config::new(Project { name: "p".to_string(), default_profile: None });
    assert_eq!(config.get_cache_ttl(), 24);
    assert!(config.is_cache_enabled());
    config.cache = Some(CacheConfig { enabled: false, ttl_hours: 2 });
    assert_eq!(config.get_cache_ttl(), 2);
    assert!(!config.is_cache_enabled());
}

#[test]
fn profiles_are_found_by_name_or_by_default() {
    let mut config =
        Config::new(Project { name: "p".to_string(), default_profile: Some("dev".to_string()) });
    let mut dev = Profile::default();
    dev.verbose = true;
    let mut ci = Profile::default();
    ci.parallel = true;
    ci.workers = Some(4);
    config.profiles.push(ProfileEntry { name: "dev".to_string(), profile: dev });
    config.profiles.push(ProfileEntry { name: "ci".to_string(), profile: ci });

    let dev_profile = config.get_profile(Some("dev"));
    assert!(!dev_profile.parallel);
    assert!(dev_profile.verbose);

    let ci_profile = config.get_profile(Some("ci"));
    assert!(ci_profile.parallel);
    assert_eq!(ci_profile.workers, Some(4));

    assert!(config.get_profile(None).verbose);
    let unknown = config.get_profile(Some("nope"));
    assert!(!unknown.verbose && !unknown.parallel);
    assert!(!unknown.cache);
}

#[test]
fn a_profile_overrides_task_settings() {
    let mut config = Config::new(Project { name: "p".to_string(), default_profile: None });
    let mut t = Task::new("cargo test");
    t.retry = 1;
    config.insert_task("test", t);
    let mut profile = Profile::default();
    profile.task_overrides.push(OverrideEntry {
        task: "test".to_string(),
        overrides: TaskOverride {
            parallel: Some(true),
            workers: None,
            retry: Some(3),
            timeout_seconds: Some(60),
        },
    });
    let task = config.get_task_with_profile("test", &profile).unwrap();
    assert!(task.parallel);
    assert_eq!(task.retry, 3);
    assert_eq!(task.workers, None);
    assert_eq!(task.timeout_seconds, Some(60));
    assert_eq!(task.cmd, "cargo test");
    let plain = config.get_task_with_profile("test", &Profile::default()).unwrap();
    assert!(!plain.parallel);
    assert_eq!(plain.retry, 1);
    assert!(config.get_task_with_profile("nope", &profile).is_none());
}

#[test]
fn a_configuration_is_checked() {
    let mut config = Config::new(Project { name: "p".to_string(), default_profile: None });
    config.insert_task("a", Task::new("a"));
    let mut b = Task::new("b");
    b.depends_on = vec!["a".to_string()];
    b.coverage = true;
    b.coverage_format = Some("lcov".to_string());
    config.insert_task("b", b);
    assert!(config.validate().is_ok());

    let mut c = Task::new("c");
    c.depends_on = vec!["a".to_string(), "zzz".to_string()];
    config.insert_task("c", c);
    match config.validate() {
        Err(ConfigError::MissingDependency { task, dependency }) => {
            assert_eq!(task, "c");
            assert_eq!(dependency, "zzz");
        }
        other => panic!("expected a missing dependency, got {:?}", other),
    }

    let mut d = Task::new("d");
    d.coverage = true;
    d.coverage_format = Some("gcov".to_string());
    config.insert_task("c", d);
    match config.validate() {
        Err(ConfigError::InvalidCoverageFormat { task, format }) => {
            assert_eq!(task, "c");
            assert_eq!(format, "gcov");
        }
        other => panic!("expected an invalid format, got {:?}", other),
    }
    let mut e = Task::new("e");
    e.coverage_format = Some("gcov".to_string());
    config.insert_task("c", e);
    assert!(config.validate().is_ok());
}

#[test]
fn the_output_of_a_test_run_is_read_line_by_line() {
    let mut parser = TestOutputParser::new();
    assert!(parser.feed("running 3 tests", None).is_empty());
    let events = parser.feed("test a::one ... ok", None);
    assert_eq!(events.len(), 2);
    assert!(matches!(&events[0], TestEvent::Started { test_name } if test_name == "a::one"));
    assert!(matches!(
        &events[1],
        TestEvent::Completed { test_name, status: TestStatus::Passed, duration_ms: 0 }
            if test_name == "a::one"
    ));
    let events = parser.feed("test a::two ...", None);
    assert_eq!(events.len(), 1);
    assert!(matches!(&events[0], TestEvent::Started { test_name } if test_name == "a::two"));
    assert_eq!(parser.current_test, Some("a::two".to_string()));
    let events = parser.feed("some output", None);
    assert!(matches!(
        &events[0],
        TestEvent::Output { test_name, line } if test_name == "a::two" && line == "some output"
    ));
    let events = parser.feed("thread panicked FAILED", Some(12));
    assert!(matches!(
        &events[0],
        TestEvent::Completed { test_name, status: TestStatus::Failed, duration_ms: 12 }
            if test_name == "a::two"
    ));
    assert_eq!(parser.current_test, None);
    assert!(parser.current_output.is_empty());
    assert!(parser.feed("test a::three ... ignored", None).len() == 2);
    assert!(parser.feed("test result: FAILED. 1 passed; 1 failed; 1 ignored", None).is_empty());
    assert_eq!((parser.result.passed, parser.result.failed, parser.result.ignored), (1, 1, 1));
    assert_eq!(parser.result.total(), 3);
    assert_eq!(parser.result.test_results[1].name, "a::two");
    assert_eq!(parser.result.test_results[1].output, vec!["some output".to_string()]);
    assert_eq!(parser.result.test_results[1].duration_ms, Some(12));
    assert_eq!(parser.result.test_results[0].duration_ms, Some(0));
}

#[test]
fn the_runner_names_its_arguments_and_ends_runs() {
    let runner = TestRunner::new("/work/app");
    assert_eq!(runner.project_dir, "/work/app");
    assert_eq!(runner.arguments(None), vec!["test", "--", "--test-threads=1"]);
    assert_eq!(runner.arguments(Some("graph")), vec!["test", "graph", "--", "--test-threads=1"]);
    let mut result = TestRunResult::default();
    result.failed = 1;
    let event = runner.conclude(&mut result, false, 42);
    assert!(!result.success);
    assert_eq!(result.duration_ms, 42);
    assert!(matches!(event, TestEvent::AllCompleted { passed: 0, failed: 1, ignored: 0 }));
    runner.conclude(&mut result, true, 1);
    assert!(result.success);
    result.failed = 0;
    runner.conclude(&mut result, false, 1);
    assert!(result.success);
}

#[test]
fn the_results_of_runs_add_up() {
    let mut total = TestRunResult::default();
    let mut one = TestRunResult::default();
    one.passed = 2;
    one.ignored = 1;
    one.test_results.push(SingleTestResult {
        name: "a".to_string(),
        status: TestStatus::Passed,
        duration_ms: None,
        output: vec![],
    });
    assert!(total.absorb(one.clone()));
    assert!(total.absorb(one));
    assert_eq!((total.passed, total.failed, total.ignored), (4, 0, 2));
    assert_eq!(total.test_results.len(), 2);
    let mut huge = TestRunResult::default();
    huge.failed = usize::MAX;
    assert!(total.absorb(huge.clone()));
    assert!(!total.absorb(huge));
    assert_eq!(total.failed, usize::MAX);
    assert_eq!(total.passed, 4);
}

#[test]
fn a_new_parser_has_read_nothing() {
    let parser = TestOutputParser::new();
    assert!(!parser.result.success);
    assert_eq!(parser.result.duration_ms, 0);
    assert_eq!((parser.result.passed, parser.result.failed, parser.result.ignored), (0, 0, 0));
    assert!(parser.result.test_results.is_empty());
    assert_eq!(parser.current_test, None);
    assert!(parser.current_output.is_empty());
}
