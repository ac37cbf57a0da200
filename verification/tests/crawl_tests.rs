use loghunter::crawl::{build_tasks, concurrency_limit, normalize_base, worker_limit};

#[test]
fn worker_limit_policy() {
    assert_eq!(worker_limit(1), 25);
    assert_eq!(worker_limit(3), 25);
    assert_eq!(worker_limit(4), 60);
    assert_eq!(worker_limit(64), 60);
}

#[test]
fn concurrency_limit_is_a_policy_value() {
    let limit = concurrency_limit();
    assert!(limit == 25 || limit == 60);
}

#[test]
fn normalize_base_appends_missing_slash() {
    assert_eq!(normalize_base(&"http://h/logs".to_string()), "http://h/logs/");
    assert_eq!(normalize_base(&"http://h/logs/".to_string()), "http://h/logs/");
    assert_eq!(normalize_base(&"".to_string()), "/");
}

#[test]
fn build_tasks_resolves_against_base() {
    let base = "http://example.test/logs/".to_string();
    let names = vec!["a-2023-01-01.zip".to_string(), "b-2023-01-02.tgz".to_string()];
    let tasks = build_tasks(&base, &names);
    assert_eq!(tasks.len(), 2);
    assert_eq!(tasks[0].filename, "a-2023-01-01.zip");
    assert_eq!(tasks[0].url, "http://example.test/logs/a-2023-01-01.zip");
    assert_eq!(tasks[1].url, "http://example.test/logs/b-2023-01-02.tgz");
}

#[test]
fn build_tasks_follows_relative_paths() {
    let base = "http://example.test/logs/".to_string();
    let names = vec!["../elsewhere-2023-01-01.zip".to_string()];
    let tasks = build_tasks(&base, &names);
    assert_eq!(tasks.len(), 1);
    assert_eq!(tasks[0].url, "http://example.test/elsewhere-2023-01-01.zip");
}

#[test]
fn build_tasks_drops_unresolvable_names() {
    let base = "not a url".to_string();
    let names = vec!["a-2023-01-01.zip".to_string()];
    let tasks = build_tasks(&base, &names);
    assert!(tasks.is_empty());
}
