use autofilm::alist2strm::config::{Config, DownloadOption, Mode};
use autofilm::alist2strm::summary::RunStats;

fn config() -> Config {
    Config {
        id: "task".to_string(),
        cron: None,
        alist: "main".to_string(),
        source_dir: "/media".to_string(),
        target_dir: "/strm".to_string(),
        mode: Mode::AlistURL,
        flatten_mode: false,
        overwrite: false,
        download: DownloadOption::default(),
        sync: None,
        concurrency: 50,
    }
}

#[test]
fn summarizes_counted_events() {
    let mut stats = RunStats::new(1_000);
    RunStats::inc(&mut stats.scanned_dir_count);
    RunStats::inc(&mut stats.scanned_dir_count);
    RunStats::inc(&mut stats.strm_created_count);
    RunStats::inc(&mut stats.failed_path_count);
    let summary = stats.summarize(&config(), 4_500, 3_400);
    assert_eq!(summary.task_id, "task");
    assert_eq!(summary.source_dir, "/media");
    assert_eq!(summary.target_dir, "/strm");
    assert_eq!(summary.start_time, 1_000);
    assert_eq!(summary.end_time, 4_500);
    assert_eq!(summary.duration, 3_400);
    assert_eq!(summary.scanned_dir_count, 2);
    assert_eq!(summary.strm_created_count, 1);
    assert_eq!(summary.failed_path_count, 1);
    assert_eq!(summary.skipped_dir_count, 0);
    assert_eq!(summary.local_deleted_count, 0);
}

#[test]
fn counters_wrap_like_atomics() {
    let mut n = usize::MAX;
    RunStats::inc(&mut n);
    assert_eq!(n, 0);
}
