use runx::config::Task;
use runx::db::{CacheEntry, CacheTable};
use runx::execution::cache::{
    calculate_input_hash, input_patterns, resolve_input_pattern, status_text, CachedResult,
    InputFile,
};
use runx::execution::CacheManager;

fn create_test_task() -> Task {
    let mut t = Task::new("echo test");
    t.watch = vec!["*.rs".to_string()];
    t
}

fn file(path: &str, content: &str) -> InputFile {
    InputFile { path: path.to_string(), content: Some(content.as_bytes().to_vec()) }
}

#[test]
fn test_input_hash_consistency() {
    let task = create_test_task();

    let hash1 = calculate_input_hash(&task, "test", &vec![vec![]]);
    let hash2 = calculate_input_hash(&task, "test", &vec![vec![]]);

    assert_eq!(hash1, hash2);
}

#[test]
fn test_input_hash_changes_with_command() {
    let task1 = create_test_task();
    let mut task2 = create_test_task();
    task2.cmd = "echo different".to_string();

    let hash1 = calculate_input_hash(&task1, "test", &vec![vec![]]);
    let hash2 = calculate_input_hash(&task2, "test", &vec![vec![]]);

    assert_ne!(hash1, hash2);
    assert_eq!(hash1, "ccc77548515f594b4c2e546e45b150f548a92c18cace5ae3a3ed98d1deed008c");
    assert_eq!(hash2, "de2612aead3addd0fccf92f5f08b0e37cd6488eef8dd7c0466def24262716fd3");
}

#[test]
fn the_key_is_the_digest_of_name_and_command() {
    let task = Task::new("bc");
    let key = calculate_input_hash(&task, "a", &vec![]);
    assert_eq!(key, "ba7816bf8f01cfea414140de5dae2223b00361a396177a9cb410ff61f20015ad");
    assert_eq!(key.len(), 64);
}

#[test]
fn the_environment_is_hashed_in_key_order() {
    let mut one = Task::new("c");
    one.env = vec![("B".to_string(), "2".to_string()), ("A".to_string(), "1".to_string())];
    let mut other = Task::new("c");
    other.env = vec![("A".to_string(), "1".to_string()), ("B".to_string(), "2".to_string())];
    let key = calculate_input_hash(&one, "t", &vec![]);
    assert_eq!(key, calculate_input_hash(&other, "t", &vec![]));
    assert_eq!(key, "f440e4c9de5c769332b015295ea264dbb64d490b55143c4b5560c8030271e553");

    let mut changed = Task::new("c");
    changed.env =
        vec![("A".to_string(), "1".to_string()), ("B".to_string(), "3".to_string())];
    assert_ne!(key, calculate_input_hash(&changed, "t", &vec![]));
}

#[test]
fn files_are_hashed_in_path_order_with_their_contents() {
    let mut task = Task::new("c");
    task.cwd = Some("wd".to_string());
    task.env = vec![("B".to_string(), "2".to_string()), ("A".to_string(), "1".to_string())];
    let listed = vec![vec![file("src/b.rs", "BB"), file("src/a.rs", "AA")]];
    let sorted = vec![vec![file("src/a.rs", "AA"), file("src/b.rs", "BB")]];
    let key = calculate_input_hash(&task, "t", &listed);
    assert_eq!(key, calculate_input_hash(&task, "t", &sorted));
    assert_eq!(key, "0846ba658e2009580d1b7c06a859a1b48f02766188e55182c1ba2f60f4cff86d");

    let edited = vec![vec![file("src/a.rs", "AB"), file("src/b.rs", "BB")]];
    assert_ne!(key, calculate_input_hash(&task, "t", &edited));
    let renamed = vec![vec![file("src/c.rs", "AA"), file("src/b.rs", "BB")]];
    assert_ne!(key, calculate_input_hash(&task, "t", &renamed));
}

#[test]
fn an_unreadable_file_counts_by_its_path() {
    let task = Task::new("c");
    let unreadable = vec![vec![InputFile { path: "x.rs".to_string(), content: None }]];
    let key = calculate_input_hash(&task, "t", &unreadable);
    assert_eq!(key, "612f4452d31d82dbf15078aaa248a934275756daffb2cf44727283ab0cc68bb2");
    assert_eq!(key, calculate_input_hash(&task, "t", &vec![vec![file("x.rs", "")]]));
}

#[test]
fn input_patterns_are_resolved_below_the_project() {
    assert_eq!(resolve_input_pattern("src/*.rs", "/work/app"), "/work/app/src/*.rs");
    assert_eq!(resolve_input_pattern("/abs/*.rs", "/work/app"), "/abs/*.rs");
    assert_eq!(resolve_input_pattern("C:/abs/*.rs", "/work/app"), "C:/abs/*.rs");
    assert_eq!(resolve_input_pattern("", "base"), "base/");
    let mut task = Task::new("c");
    task.watch = vec!["w1".to_string(), "w2".to_string()];
    task.inputs = vec!["i1".to_string()];
    assert_eq!(input_patterns(&task), vec!["w1".to_string(), "w2".to_string(), "i1".to_string()]);
}

#[test]
fn cached_results_know_whether_they_passed() {
    let passed = CachedResult { status: "passed".to_string(), duration_ms: Some(3) };
    let failed = CachedResult { status: "failed".to_string(), duration_ms: None };
    assert!(passed.is_success());
    assert!(!failed.is_success());
    assert_eq!(status_text(true), "passed");
    assert_eq!(status_text(false), "failed");
}

#[test]
fn test_cache_operations() {
    let mut db = CacheTable::new();

    // Set cache entry
    db.set_cache_entry("test-task", "abc123", "passed", Some(1000), 24, 1_000_000);

    // Get cache entry
    let entry = db.get_cache_entry("test-task", "abc123", 1_000_000);
    assert!(entry.is_some());
    let entry = entry.unwrap();
    assert_eq!(entry.task_name, "test-task");
    assert_eq!(entry.input_hash, "abc123");
    assert_eq!(entry.status, "passed");

    // Cache stats
    let stats = db.get_cache_stats(1_000_000).unwrap();
    assert_eq!(stats.valid_entries, 1);

    // Clear cache
    db.clear_all_cache();
    let entry = db.get_cache_entry("test-task", "abc123", 1_000_000);
    assert!(entry.is_none());
}

#[test]
fn an_entry_lives_for_its_lifetime_and_no_longer() {
    let mut table = CacheTable::new();
    table.set_cache_entry("t", "h", "passed", Some(5), 2, 100);
    let found = table.get_cache_entry("t", "h", 100 + 7199).unwrap();
    assert_eq!(found.status, "passed");
    assert_eq!(found.duration_ms, Some(5));
    assert_eq!(found.created_at, 100);
    assert_eq!(found.expires_at, Some(100 + 7200));
    assert!(table.get_cache_entry("t", "h", 100 + 7200).is_none());
    assert!(table.get_cache_entry("t", "h", 100 + 7201).is_none());
    assert!(table.get_cache_entry("t", "other", 100).is_none());
    assert!(table.get_cache_entry("other", "h", 100).is_none());
}

#[test]
fn a_stored_entry_takes_the_place_of_the_old_one() {
    let mut table = CacheTable::new();
    table.set_cache_entry("t", "h", "failed", Some(5), 1, 0);
    table.set_cache_entry("u", "h", "passed", None, 1, 0);
    table.set_cache_entry("t", "h", "passed", Some(9), 1, 10);
    assert_eq!(table.entries.len(), 2);
    let found = table.get_cache_entry("t", "h", 20).unwrap();
    assert_eq!(found.status, "passed");
    assert_eq!(found.duration_ms, Some(9));
    assert_eq!(found.id, 3);
    assert_eq!(table.get_cache_entry("u", "h", 20).unwrap().status, "passed");
}

#[test]
fn entries_are_removed_by_task_by_age_and_all() {
    let mut table = CacheTable::new();
    table.set_cache_entry("t", "h1", "passed", None, 1, 0);
    table.set_cache_entry("t", "h2", "passed", None, 2, 0);
    table.set_cache_entry("u", "h1", "passed", None, 3, 0);
    assert_eq!(table.clear_expired_cache(3600), 0);
    assert_eq!(table.clear_expired_cache(3601), 1);
    assert_eq!(table.invalidate_cache("u"), 1);
    assert_eq!(table.invalidate_cache("u"), 0);
    assert_eq!(table.entries.len(), 1);
    assert_eq!(table.entries[0].input_hash, "h2");
    assert_eq!(table.clear_all_cache(), 1);
    assert_eq!(table.clear_all_cache(), 0);
}

#[test]
fn an_entry_without_expiry_is_always_alive() {
    let entry = CacheEntry {
        id: 1,
        task_name: "t".to_string(),
        input_hash: "h".to_string(),
        status: "passed".to_string(),
        duration_ms: None,
        created_at: 0,
        expires_at: None,
    };
    assert!(entry.is_alive_at(i64::MAX));
    let mut expiring = entry.clone();
    expiring.expires_at = Some(10);
    assert!(expiring.is_alive_at(9));
    assert!(!expiring.is_alive_at(10));
}

#[test]
fn the_manager_stores_and_finds_results_under_the_cache_key() {
    let task = create_test_task();
    let files = vec![vec![file("a.rs", "fn main() {}")]];
    let manager = CacheManager::new(1, true);
    let mut table = CacheTable::new();
    assert!(manager.check(&table, &task, "test", &files, 0).is_none());
    manager.store(&mut table, &task, "test", &files, "passed", 12, 0);
    let hit = manager.check(&table, &task, "test", &files, 3599).unwrap();
    assert_eq!(hit.status, "passed");
    assert_eq!(hit.duration_ms, Some(12));
    assert!(hit.is_success());
    // After the lifetime the result is gone.
    assert!(manager.check(&table, &task, "test", &files, 3600).is_none());
    // Another content is another key.
    let edited = vec![vec![file("a.rs", "fn main() { }")]];
    assert!(manager.check(&table, &task, "test", &edited, 0).is_none());
    assert_eq!(manager.invalidate(&mut table, "test"), 1);
    assert!(manager.check(&table, &task, "test", &files, 0).is_none());
}

#[test]
fn a_manager_that_is_off_neither_stores_nor_finds() {
    let task = create_test_task();
    let on = CacheManager::new(1, true);
    let off = CacheManager::new(1, false);
    let mut table = CacheTable::new();
    off.store(&mut table, &task, "test", &vec![], "passed", 1, 0);
    assert!(table.entries.is_empty());
    on.store(&mut table, &task, "test", &vec![], "passed", 1, 0);
    assert!(off.check(&table, &task, "test", &vec![], 0).is_none());
    assert!(on.check(&table, &task, "test", &vec![], 0).is_some());
    assert_eq!(on.clear_all(&mut table), 1);
}

#[test]
fn the_manager_judges_entries_and_times() {
    let task = create_test_task();
    let on = CacheManager::new(2, true);
    let off = CacheManager::new(2, false);
    assert_eq!(
        on.key_for(&task, "test", &vec![vec![]]),
        Some("ccc77548515f594b4c2e546e45b150f548a92c18cace5ae3a3ed98d1deed008c".to_string())
    );
    assert_eq!(off.key_for(&task, "test", &vec![vec![]]), None);
    let entry = CacheEntry {
        id: 7,
        task_name: "test".to_string(),
        input_hash: "h".to_string(),
        status: "failed".to_string(),
        duration_ms: Some(4),
        created_at: 0,
        expires_at: Some(100),
    };
    let hit = on.judge(Some(&entry), 99).unwrap();
    assert_eq!(hit.status, "failed");
    assert_eq!(hit.duration_ms, Some(4));
    assert!(!hit.is_success());
    assert!(on.judge(Some(&entry), 100).is_none());
    assert!(on.judge(None, 0).is_none());
    assert!(off.judge(Some(&entry), 99).is_none());
    assert_eq!(on.expiry(10), Some(10 + 7200));
    assert_eq!(on.expiry(i64::MAX - 7199), None);
    assert_eq!(on.expiry(i64::MAX - 7200), Some(i64::MAX));
}
