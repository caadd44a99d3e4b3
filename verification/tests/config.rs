use autofilm::alist2strm::config::{
    default_concurrency, default_download_concurrency, default_grace_scans,
    default_protection_threshold, exts_from_list, exts_from_text, normalize_ext, DownloadOption,
    Mode, SmartProtectionConfig,
};

#[test]
fn parses_mode_case_insensitively() {
    assert_eq!(Mode::from_str("rawurl"), Mode::RawURL);
    assert_eq!(Mode::from_str("AlistPath"), Mode::AlistPath);
    assert_eq!(Mode::from_str("unknown"), Mode::AlistURL);
}

#[test]
fn mode_defaults_and_upper_case() {
    assert_eq!(Mode::default(), Mode::AlistURL);
    assert_eq!(Mode::from_str("RAWURL"), Mode::RawURL);
    assert_eq!(Mode::from_str("AlistURL"), Mode::AlistURL);
    assert_eq!(Mode::from_str(""), Mode::AlistURL);
}

#[test]
fn default_values() {
    assert_eq!(default_concurrency(), 50);
    assert_eq!(default_download_concurrency(), 5);
    assert_eq!(default_protection_threshold(), 100);
    assert_eq!(default_grace_scans(), 3);
    let d = DownloadOption::default();
    assert!(!d.enable && !d.subtitle && !d.image && !d.nfo);
    assert!(d.other_ext.is_empty());
    assert_eq!(d.concurrency, 5);
    let p = SmartProtectionConfig::default();
    assert!(!p.enabled);
    assert_eq!(p.threshold, 100);
    assert_eq!(p.grace_scans, 3);
}

#[test]
fn normalizes_extensions() {
    assert_eq!(normalize_ext("srt"), ".srt");
    assert_eq!(normalize_ext(" .SRT "), ".srt");
    assert_eq!(normalize_ext("Mp4"), ".mp4");
    assert_eq!(normalize_ext(""), ".");
}

#[test]
fn reads_extension_lists() {
    assert_eq!(exts_from_text("srt, .ASS,, "), vec![".srt", ".ass"]);
    assert!(exts_from_text("").is_empty());
    assert_eq!(
        exts_from_list(&vec!["SRT".to_string(), " ".to_string()]),
        vec![".srt", "."]
    );
}

#[test]
fn normalizing_twice_changes_nothing() {
    for value in ["srt", " .SRT ", ".Ass", "", "  "] {
        let once = normalize_ext(value);
        assert_eq!(normalize_ext(&once), once);
    }
    assert_eq!(normalize_ext(" .SRT "), ".srt");
    assert_eq!(normalize_ext(""), ".");
}
