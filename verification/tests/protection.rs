use autofilm::alist2strm::config::SmartProtectionConfig;
use autofilm::alist2strm::protection::ProtectionManager;
use std::collections::HashSet;

fn manager(threshold: usize, grace_scans: usize) -> ProtectionManager {
    let config = SmartProtectionConfig { enabled: true, threshold, grace_scans };
    ProtectionManager::new("/target".to_string(), "test", &config, Vec::new())
}

fn set(v: Vec<String>) -> HashSet<String> {
    v.into_iter().collect()
}

#[test]
fn delays_large_deletions_until_grace_count() {
    let mut manager = manager(1, 2);
    let file = "/target/movie.strm".to_string();

    let first = manager.process(vec![file.clone()], &Vec::new());
    assert!(first.is_empty());

    let second = manager.process(vec![file.clone()], &Vec::new());
    assert_eq!(set(second), set(vec![file]));
}

#[test]
fn state_file_is_named_after_the_task() {
    let m = manager(1, 2);
    assert_eq!(m.state_file(), "/target/.autofilm_strm_test.json");
}

#[test]
fn small_batches_are_deleted_at_once() {
    let mut m = manager(3, 2);
    let a = "/target/a.strm".to_string();
    let b = "/target/b.strm".to_string();
    let ready = m.process(vec![a.clone(), b.clone(), a.clone()], &Vec::new());
    assert_eq!(ready, vec![a, b]);
    assert!(m.protected_entries().is_empty());
}

#[test]
fn counts_and_releases_after_grace() {
    let mut m = manager(2, 3);
    let a = "/target/sub/a.strm".to_string();
    let b = "/target/b.strm".to_string();
    assert!(m.process(vec![a.clone(), b.clone()], &Vec::new()).is_empty());
    assert!(m.process(vec![a.clone(), b.clone()], &Vec::new()).is_empty());
    let mut entries = m.protected_entries();
    entries.sort();
    assert_eq!(entries, vec![("b.strm".to_string(), 2), ("sub/a.strm".to_string(), 2)]);
    let ready = m.process(vec![a.clone(), b.clone()], &Vec::new());
    assert_eq!(set(ready), set(vec![a, b]));
    assert!(m.protected_entries().is_empty());
}

#[test]
fn present_files_leave_the_counts() {
    let config = SmartProtectionConfig { enabled: true, threshold: 1, grace_scans: 5 };
    let mut m = ProtectionManager::new(
        "/target".to_string(),
        "t",
        &config,
        vec![("a.strm".to_string(), 1), ("b.strm".to_string(), 4), ("a.strm".to_string(), 2)],
    );
    let mut entries = m.protected_entries();
    entries.sort();
    assert_eq!(entries, vec![("a.strm".to_string(), 2), ("b.strm".to_string(), 4)]);
    let ready = m.process(vec!["/target/c.strm".to_string()], &vec!["/target/a.strm".to_string()]);
    assert!(ready.is_empty());
    let mut entries = m.protected_entries();
    entries.sort();
    assert_eq!(entries, vec![("b.strm".to_string(), 4), ("c.strm".to_string(), 1)]);
}

#[test]
fn relative_keys() {
    let m = manager(1, 1);
    assert_eq!(m.to_relative("/target/x/y.strm"), "x/y.strm");
    assert_eq!(m.to_relative("/elsewhere/y.strm"), "/elsewhere/y.strm");
    assert_eq!(m.to_relative("/target/a\\b.strm"), "a/b.strm");
    assert!(m.counts_fit_exec(usize::MAX));
}
