use autofilm::ani2alist::utils::{
    current_season, file_url, is_directory_mime, is_supported_file_mime, join_url,
    parse_ani_timestamp, parse_rss_timestamp, render_template, rss_items, rss_parent_path,
    season_key_from_parts, size_parts, template_path_segments, xml_tag, xml_unescape,
};
use chrono::{Datelike, TimeZone};

fn size_bytes(value: &str) -> Option<u64> {
    let (number, multiplier) = size_parts(value)?;
    let number = number.parse::<f64>().ok()?;
    Some((number * multiplier as f64) as u64)
}

#[test]
fn builds_season_keys() {
    let now = chrono_tz::Asia::Shanghai
        .with_ymd_and_hms(2026, 6, 8, 0, 0, 0)
        .unwrap();
    assert_eq!(current_season(now.year(), now.month()), (2026, 4));
    assert_eq!(season_key_from_parts(2026, 4), "2026-4");

    let utc_now = chrono::Utc.with_ymd_and_hms(2026, 12, 1, 0, 0, 0).unwrap();
    assert_eq!(current_season(utc_now.year(), utc_now.month()), (2026, 10));
}

#[test]
fn season_edges() {
    assert_eq!(current_season(2025, 1), (2025, 1));
    assert_eq!(current_season(2025, 3), (2025, 1));
    assert_eq!(current_season(2025, 4), (2025, 4));
    assert_eq!(current_season(2025, 9), (2025, 7));
    assert_eq!(current_season(2025, 0), (2025, 1));
    assert_eq!(season_key_from_parts(-5, 10), "-5-10");
}

#[test]
fn renders_latest_templates() {
    assert_eq!(render_template("{{ year }}-{{ month }}", 2026, 4), "2026-4");
    assert_eq!(
        template_path_segments("{{ year }}年/{{ month }}月", 2026, 4),
        ["2026年", "4月"]
    );
    assert_eq!(
        template_path_segments(" / {{ year }}年 // {{ month }}月 / ", 2026, 4),
        ["2026年", "4月"]
    );
    assert!(template_path_segments("   ", 2026, 4).is_empty());
}

#[test]
fn renders_repeated_placeholders() {
    assert_eq!(
        render_template("{{ year }}{{ year }}/{{ month}}", 2024, 10),
        "20242024/{{ month}}"
    );
}

#[test]
fn joins_urls_with_encoded_segments() {
    assert_eq!(
        join_url("https://example.com/root/", &["2026-4", "动画"]),
        "https://example.com/root/2026-4/%E5%8A%A8%E7%94%BB/"
    );
    assert_eq!(
        file_url("https://example.com/2026-4/", "动画 01.mp4"),
        "https://example.com/2026-4/%E5%8A%A8%E7%94%BB%2001.mp4?d=true"
    );
}

#[test]
fn joins_urls_without_segments() {
    assert_eq!(join_url("https://example.com///", &[]), "https://example.com/");
    assert_eq!(join_url("", &["a"]), "/a/");
}

#[test]
fn parses_dates_and_sizes() {
    assert_eq!(
        parse_ani_timestamp("2024-11-10T09:01:47.000Z"),
        Some(1731229307)
    );
    assert_eq!(
        parse_rss_timestamp("Sun, 10 Nov 2024 09:01:47 GMT"),
        Some(1731229307)
    );
    assert_eq!(size_bytes("473.0 MB"), Some(495_976_448));
}

#[test]
fn rejects_bad_dates_and_sizes() {
    assert_eq!(parse_ani_timestamp("yesterday"), None);
    assert_eq!(parse_rss_timestamp("2024-11-10"), None);
    assert_eq!(size_parts("473.0"), None);
    assert_eq!(size_parts("473.0 PB"), None);
    assert_eq!(size_parts("  1  kb  "), Some(("1".to_string(), 1024)));
    assert_eq!(size_parts("2 tb"), Some(("2".to_string(), 1u64 << 40)));
}

#[test]
fn parses_rss_items() {
    let items = rss_items(
        r#"
<rss><channel><item>
  <title>动画 01.mp4</title>
  <link>https://resources.ani.rip/2026-4/%E5%8A%A8%E7%94%BB%2001.mp4?d=true</link>
  <pubDate>Sun, 10 Nov 2024 09:01:47 GMT</pubDate>
  <anime:size>473.0 MB</anime:size>
</item></channel></rss>
"#,
    );

    assert_eq!(items.len(), 1);
    assert_eq!(items[0].path, ["2026-4"]);
    assert_eq!(items[0].title, "动画 01.mp4");
    assert_eq!(
        items[0].size_text.as_deref().and_then(size_bytes),
        Some(495_976_448)
    );
    assert_eq!(items[0].modified, 1731229307);
}

#[test]
fn skips_incomplete_rss_items() {
    let items = rss_items(
        "<item><title>a</title><link>https://h/x/a.mp4</link></item><items>no</items>\
         <item class=\"x\"><title>b &amp; c</title><link>https://h/b.mp4</link><pubDate>bad</pubDate><anime_size>1 KB</anime_size></item>",
    );
    assert_eq!(items.len(), 1);
    assert_eq!(items[0].title, "b & c");
    assert!(items[0].path.is_empty());
    assert_eq!(items[0].modified, 0);
    assert_eq!(items[0].size_text.as_deref(), Some("1 KB"));
}

#[test]
fn xml_helpers() {
    assert_eq!(xml_unescape("&lt;a&gt; &quot;b&quot; &apos;c&apos; &amp;amp;"), "<a> \"b\" 'c' &amp;");
    assert_eq!(xml_tag("<x><title>  t  </title></x>", "title").as_deref(), Some("t"));
    assert_eq!(xml_tag("<x></x>", "title"), None);
    assert_eq!(rss_parent_path("https://h/a/%E5%8A%A8/b.mp4?d=1"), ["a", "动"]);
    assert_eq!(rss_parent_path("https://h/a//b+c/d.mp4"), ["a", "b+c"]);
    assert!(rss_parent_path("https://h").is_empty());
}

#[test]
fn mime_types() {
    assert!(is_supported_file_mime("video/mp4"));
    assert!(is_supported_file_mime("video/x-matroska"));
    assert!(is_supported_file_mime("application/octet-stream"));
    assert!(is_supported_file_mime("application/zip"));
    assert!(!is_supported_file_mime("text/plain"));
    assert!(is_directory_mime("application/vnd.google-apps.folder"));
    assert!(!is_directory_mime("video/mp4"));
}
