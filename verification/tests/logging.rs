use autofilm::logging::daily_file_appender::{log_file_path, DailyLogState};
use std::path::PathBuf;

#[test]
fn daily_log_file_path_uses_date_suffix() {
    let path = log_file_path("/tmp/autofilm-logs", 2026, 6, 5);

    assert_eq!(PathBuf::from(path), PathBuf::from("/tmp/autofilm-logs/2026-06-05.log"));
}

#[test]
fn pads_years_and_days() {
    assert_eq!(log_file_path("/l", 12, 11, 30), "/l/0012-11-30.log");
    assert_eq!(log_file_path("/l", -3, 1, 1), "/l/-003-01-01.log");
    assert_eq!(log_file_path("/l", 12345, 1, 1), "/l/12345-01-01.log");
}

#[test]
fn opens_a_new_file_when_the_day_changes() {
    let mut state = DailyLogState::new("/l".to_string());
    assert_eq!(state.file_to_open(2026, 6, 5).as_deref(), Some("/l/2026-06-05.log"));
    state.opened(2026, 6, 5);
    assert_eq!(state.file_to_open(2026, 6, 5), None);
    assert_eq!(state.file_to_open(2026, 6, 6).as_deref(), Some("/l/2026-06-06.log"));
}
