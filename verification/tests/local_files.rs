use autofilm::alist2strm::path::AlistPath;
use autofilm::alist2strm::utils::{companion_file_is_stale, parent_step, EntryKind, LocalScan, ParentStep};

fn remote(size: u64, modified: i64) -> AlistPath {
    AlistPath {
        server_url: String::new(),
        base_path: String::new(),
        full_path: "/a.srt".into(),
        name: "a.srt".into(),
        size,
        is_dir: false,
        modified_timestamp: modified,
        sign: String::new(),
        raw_url: None,
    }
}

#[test]
fn stale_companions() {
    assert!(companion_file_is_stale(5, Some(100), &remote(10, 0)));
    assert!(companion_file_is_stale(10, Some(100), &remote(10, 100)));
    assert!(!companion_file_is_stale(10, Some(101), &remote(10, 100)));
    assert!(!companion_file_is_stale(10, None, &remote(10, 100)));
}

#[test]
fn removes_empty_parents_up_to_target() {
    assert!(matches!(parent_step("/t", "/t/", None), ParentStep::Stop));
    assert!(matches!(parent_step("/t/a", "/t", None), ParentStep::ReadEntries));
    assert!(matches!(parent_step("/t/a", "/t", Some(true)), ParentStep::Stop));
    match parent_step("/t/a/b", "/t", Some(false)) {
        ParentStep::Remove { next } => assert_eq!(next.as_deref(), Some("/t/a")),
        _ => panic!("should remove"),
    }
    match parent_step("/", "/t", Some(false)) {
        ParentStep::Remove { next } => assert!(next.is_none()),
        _ => panic!("should remove"),
    }
}

#[test]
fn scans_local_files_recursively() {
    let mut scan = LocalScan::new("/t".to_string(), false);
    assert_eq!(scan.next_dir().as_deref(), Some("/t"));
    scan.visit("/t/a.strm".to_string(), EntryKind::File);
    scan.visit("/t/sub".to_string(), EntryKind::Dir);
    scan.visit("/t/link".to_string(), EntryKind::Other);
    scan.visit("/t//a.strm".to_string(), EntryKind::File);
    assert_eq!(scan.next_dir().as_deref(), Some("/t/sub"));
    scan.visit("/t/sub/b.strm".to_string(), EntryKind::File);
    assert_eq!(scan.next_dir(), None);
    assert_eq!(scan.into_files(), vec!["/t/a.strm", "/t/sub/b.strm"]);
}

#[test]
fn scans_only_the_top_directory_when_flat() {
    let mut scan = LocalScan::new("/t".to_string(), true);
    assert_eq!(scan.next_dir().as_deref(), Some("/t"));
    scan.visit("/t/sub".to_string(), EntryKind::Dir);
    scan.visit("/t/a.strm".to_string(), EntryKind::File);
    assert_eq!(scan.next_dir(), None);
    assert_eq!(scan.into_files(), vec!["/t/a.strm"]);
}
