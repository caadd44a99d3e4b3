use autofilm::extensions::{is_image_ext, is_nfo_ext, is_subtitle_ext, is_video_ext};

#[test]
fn known_suffixes() {
    for ext in [".mp4", ".mkv", ".flv", ".avi", ".wmv", ".ts", ".rmvb", ".webm", ".mpg", ".m2ts"] {
        assert!(is_video_ext(ext));
    }
    assert!(!is_video_ext(".MP4"));
    assert!(is_subtitle_ext(".ass") && is_subtitle_ext(".srt") && is_subtitle_ext(".ssa") && is_subtitle_ext(".sub"));
    assert!(is_image_ext(".png") && is_image_ext(".jpg") && !is_image_ext(".gif"));
    assert!(is_nfo_ext(".nfo") && !is_nfo_ext(".txt"));
}
