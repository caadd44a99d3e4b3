use autofilm::ani2alist::url_tree::{FileEntry, Tree};

fn entry(name: &str, size: u64, modified: i64, url: &str) -> FileEntry {
    FileEntry { name: name.to_string(), size, modified, url: url.to_string() }
}

#[test]
fn parses_and_stringifies_url_tree() {
    let tree = Tree::parse(
        "folder:\n  movie.mp4:123:456:https://example.com/movie.mp4\n  sub:\n    file.ass:7:8:https://example.com/file.ass",
    );

    assert_eq!(
        tree.to_structure(),
        "folder:\n  movie.mp4:123:456:https://example.com/movie.mp4\n  sub:\n    file.ass:7:8:https://example.com/file.ass"
    );
}

#[test]
fn upserts_files_and_creates_directories() {
    let mut tree = Tree::new();
    tree.upsert_path(
        &["2026-4".to_string()],
        FileEntry {
            name: "anime.mp4".to_string(),
            size: 10,
            modified: 20,
            url: "https://example.com/old.mp4".to_string(),
        },
    );
    tree.upsert_path(
        &["2026-4".to_string()],
        FileEntry {
            name: "anime.mp4".to_string(),
            size: 30,
            modified: 40,
            url: "https://example.com/new.mp4".to_string(),
        },
    );

    assert_eq!(
        tree.to_structure(),
        "2026-4:\n  anime.mp4:30:40:https://example.com/new.mp4"
    );
}

#[test]
fn built_tree_reads_back() {
    let mut tree = Tree::default();
    tree.upsert_path(&[], entry("root.mkv", 1, -5, "http://h/root.mkv"));
    tree.upsert_path(&["a".to_string(), "b".to_string()], entry("x.mp4", 2, 3, "https://h/x.mp4"));
    tree.upsert_path(&["a".to_string()], entry("y.ass", 4, 0, "http://h/y.ass"));
    let text = tree.to_structure();
    assert_eq!(
        text,
        "root.mkv:1:-5:http://h/root.mkv\na:\n  b:\n    x.mp4:2:3:https://h/x.mp4\n  y.ass:4:0:http://h/y.ass"
    );
    assert_eq!(Tree::parse(&text).to_structure(), text);
}

#[test]
fn reads_loose_lines() {
    let tree = Tree::parse("\r\n  \n:5:6:http://h/a/name.mp4\r\nx:abc:1:https://h/x\n      deep:1:1:http://h/d\nlast:");
    assert_eq!(
        tree.to_structure(),
        "name.mp4:5:6:http://h/a/name.mp4\nx:0:1:https://h/x\nlast:"
    );
    assert_eq!(Tree::parse("").to_structure(), "");
}

#[test]
fn shallow_trees_fit() {
    let mut tree = Tree::new();
    assert!(tree.fits_exec());
    tree.upsert_path(
        &["a".to_string(), "b".to_string()],
        FileEntry { name: "f.mp4".to_string(), size: 1, modified: 2, url: "http://h/f.mp4".to_string() },
    );
    assert!(tree.fits_exec());
}

#[test]
fn upsert_keeps_other_files_of_the_directory() {
    let mut tree = Tree::parse("s:\n  a.mp4:1:1:http://h/a\n  b.mp4:2:2:http://h/b");
    tree.upsert_path(&["s".to_string()], entry("a.mp4", 9, 9, "http://h/a2"));
    assert_eq!(tree.to_structure(), "s:\n  a.mp4:9:9:http://h/a2\n  b.mp4:2:2:http://h/b");
}

#[test]
fn directory_names_with_colons_or_empty_read_back() {
    let text = "a:b:\n  f.mp4:1:2:http://h/f.mp4\n:\n  g.mp4:3:4:https://h/g.mp4";
    let tree = Tree::parse(text);
    assert_eq!(tree.to_structure(), text);
    let again = Tree::parse(&tree.to_structure());
    assert_eq!(again.to_structure(), text);
}
