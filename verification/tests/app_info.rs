use autofilm::app_info::{authors_from, banner_title, center, LOGO};

#[test]
fn logo_has_no_outer_newlines() {
    assert!(!LOGO.starts_with('\n'));
    assert!(!LOGO.ends_with('\n'));
}

#[test]
fn centers_banner_title() {
    assert_eq!(center(" AutoFilm ", 14, "="), "== AutoFilm ==");
}

#[test]
fn centering_edges() {
    assert_eq!(center("abc", 2, "="), "abc");
    assert_eq!(center("ab", 5, "-"), "-ab--");
    assert_eq!(center("", 2, "xy"), "xyxy");
    assert_eq!(banner_title("AutoFilm", "v1.0").chars().count(), 65);
    assert!(banner_title("AutoFilm", "v1.0").contains(" AutoFilm v1.0 "));
}

#[test]
fn splits_authors() {
    assert_eq!(authors_from(" a : b:"), vec!["a", "b", ""]);
}

#[test]
fn banner_title_fills_the_banner_width() {
    let title = banner_title("AutoFilm", "v0.1.0");
    assert_eq!(title.chars().count(), 65);
    assert_eq!(center("abcdef", 3, "="), "abcdef");
    assert_eq!(center("ab", 5, "="), "=ab==");
}
