use autofilm::ani2alist::runner::{
    addition_with_structure, apply_directory_listing, apply_remote_files, default_url_tree_storage_req,
    find_storage, latest_path_prefix, normalize_mount_path, storage_req_from_storage,
    update_plan, url_structure_from_addition, Storage, UpdateConfig, UpdatePlan,
};
use autofilm::ani2alist::runner::{DirectoryWalk, PendingDir};
use serde_json::Value;
use autofilm::ani2alist::url_tree::{FileEntry, Tree};
use autofilm::ani2alist::utils::{AniObject, RemoteFile};

fn storage() -> Storage {
    Storage {
        id: 7,
        mount_path: "/Anime".to_string(),
        order: 2,
        driver: "UrlTree".to_string(),
        cache_expiration: 60,
        status: "work".to_string(),
        addition: r#"{"url_structure":"old","head_size":false,"writable":false}"#.to_string(),
        remark: "remark".to_string(),
        modified: String::new(),
        disabled: false,
        enable_sign: true,
        order_by: "name".to_string(),
        order_direction: "asc".to_string(),
        extract_folder: "front".to_string(),
        web_proxy: false,
        webdav_policy: "native_proxy".to_string(),
        down_proxy_url: String::new(),
    }
}

#[test]
fn updates_only_url_structure_in_addition() {
    let addition = addition_with_structure(
        r#"{"url_structure":"old","head_size":true,"writable":false}"#,
        "new",
    )
    .unwrap();
    let value: Value = serde_json::from_str(&addition).unwrap();

    assert_eq!(value["url_structure"], "new");
    assert_eq!(value["head_size"], true);
    assert_eq!(value["writable"], false);
}

#[test]
fn replaces_unreadable_additions() {
    assert_eq!(addition_with_structure("not json", "x").unwrap(), r#"{"url_structure":"x"}"#);
    assert_eq!(addition_with_structure("[1]", "x").unwrap(), r#"{"url_structure":"x"}"#);
}

#[test]
fn reads_url_structure_from_addition() {
    assert_eq!(url_structure_from_addition(r#"{"url_structure":"a:\n","head_size":false}"#), "a:\n");
    assert_eq!(url_structure_from_addition(r#"{"head_size":false}"#), "");
    assert_eq!(url_structure_from_addition(r#"{"url_structure":3}"#), "");
    assert_eq!(url_structure_from_addition("oops"), "");
    let written = addition_with_structure(r#"{"writable":true}"#, "2026-4:\n  a.mp4:1:2:http://h/a").unwrap();
    assert_eq!(url_structure_from_addition(&written), "2026-4:\n  a.mp4:1:2:http://h/a");
}

#[test]
fn plans_updates() {
    assert!(matches!(update_plan(&UpdateConfig::Rss, "https://ani/", 2026, 5), UpdatePlan::Rss));
    match update_plan(
        &UpdateConfig::Latest { template: Some("{{ year }}年/{{ month }}月".to_string()) },
        "https://ani/",
        2026,
        5,
    ) {
        UpdatePlan::Directory { key, root } => {
            assert_eq!(key, "2026-4");
            assert_eq!(root.url, "https://ani/2026-4/");
            assert_eq!(root.path, vec!["2026年", "4月"]);
        }
        UpdatePlan::Rss => panic!("expected a directory walk"),
    }
    match update_plan(&UpdateConfig::Latest { template: None }, "https://ani", 2025, 12) {
        UpdatePlan::Directory { key, root } => {
            assert_eq!(key, "2025-10");
            assert_eq!(root.url, "https://ani/2025-10/");
            assert!(root.path.is_empty());
        }
        UpdatePlan::Rss => panic!("expected a directory walk"),
    }
    match update_plan(&UpdateConfig::Keyword { keyword: "剧场版".to_string() }, "https://ani/", 2026, 1) {
        UpdatePlan::Directory { key, root } => {
            assert_eq!(key, "剧场版");
            assert_eq!(root.url, "https://ani/%E5%89%A7%E5%9C%BA%E7%89%88/");
            assert_eq!(root.path, vec!["剧场版"]);
        }
        UpdatePlan::Rss => panic!("expected a directory walk"),
    }
}

#[test]
fn builds_storage_update_request_from_existing_storage() {
    let req = storage_req_from_storage(&storage(), r#"{"url_structure":"new"}"#.to_string());

    assert_eq!(req.id.as_deref(), Some("7"));
    assert_eq!(req.mount_path, "/Anime");
    assert_eq!(req.driver, "UrlTree");
    assert!(req.enable_sign);
    assert_eq!(req.addition, r#"{"url_structure":"new"}"#);
}

#[test]
fn creates_default_url_tree_storage_request() {
    let req = default_url_tree_storage_req("/Anime", "{}".to_string());

    assert_eq!(req.mount_path, "/Anime");
    assert_eq!(req.driver, "UrlTree");
    assert_eq!(req.order_by, "name");
    assert!(!req.web_proxy);
}

#[test]
fn builds_latest_path_prefix_from_template() {
    assert!(latest_path_prefix(None, 2026, 4).is_empty());
    assert!(latest_path_prefix(Some("   "), 2026, 4).is_empty());
    assert_eq!(
        latest_path_prefix(Some("{{ year }}年/{{ month }}月"), 2026, 4),
        ["2026年", "4月"]
    );
}

#[test]
fn normalizes_mount_paths() {
    assert_eq!(normalize_mount_path("Anime/"), "/Anime");
    assert_eq!(normalize_mount_path("//a/b//"), "/a/b");
    assert_eq!(normalize_mount_path(""), "/");
}

#[test]
fn finds_storage_by_mount_path() {
    let mut other = storage();
    other.mount_path = "/Other".to_string();
    let list = vec![other, storage()];
    assert_eq!(find_storage(&list, "/Anime"), Some(1));
    assert_eq!(find_storage(&list, "/None"), None);
}

fn obj(name: &str, mime: &str, size: Option<&str>, created: Option<&str>) -> AniObject {
    AniObject {
        name: name.to_string(),
        mime_type: mime.to_string(),
        size: size.map(str::to_string),
        created_time: created.map(str::to_string),
    }
}

#[test]
fn applies_directory_listings() {
    let mut tree = Tree::new();
    let files = vec![
        obj("a 1.mp4", "video/mp4", Some("10"), Some("2024-11-10T09:01:47.000Z")),
        obj("nosize.mp4", "video/mp4", None, None),
        obj("sub", "application/vnd.google-apps.folder", None, None),
        obj("x.txt", "text/plain", Some("1"), None),
        obj("b.ass", "application/octet-stream", Some("3"), Some("bad")),
    ];
    let (dirs, skipped) = apply_directory_listing(
        &mut tree,
        "https://h/2026-4/",
        &vec!["2026-4".to_string()],
        &files,
    );
    assert_eq!(skipped, vec!["nosize.mp4", "x.txt"]);
    assert_eq!(dirs.len(), 1);
    assert_eq!(dirs[0].url, "https://h/2026-4/sub/");
    assert_eq!(dirs[0].path, vec!["2026-4", "sub"]);
    assert_eq!(
        tree.to_structure(),
        "2026-4:\n  a 1.mp4:10:1731229307:https://h/2026-4/a%201.mp4?d=true\n  b.ass:3:0:https://h/2026-4/b.ass?d=true"
    );
}

#[test]
fn applies_rss_files() {
    let mut tree = Tree::new();
    let f = |name: &str, url: &str| FileEntry { name: name.to_string(), size: 1, modified: 2, url: url.to_string() };
    apply_remote_files(
        &mut tree,
        vec![
            RemoteFile { path: vec!["s".to_string()], file: f("a.mp4", "http://h/a") },
            RemoteFile { path: vec![], file: f("b.mp4", "http://h/b") },
            RemoteFile { path: vec!["s".to_string()], file: f("a.mp4", "http://h/c") },
        ],
    );
    assert_eq!(tree.to_structure(), "s:\n  a.mp4:1:2:http://h/c\nb.mp4:1:2:http://h/b");
}

#[test]
fn keeps_other_fields_of_the_addition() {
    let written = addition_with_structure(r#"{"head_size":true,"name":"x","url_structure":"old"}"#, "new").unwrap();
    let value: Value = serde_json::from_str(&written).unwrap();
    assert_eq!(value["url_structure"], "new");
    assert_eq!(value["head_size"], true);
    assert_eq!(value["name"], "x");
    assert!(addition_with_structure("null", "s").is_some());
}

#[test]
fn walks_directories_last_found_first() {
    let mut tree = Tree::new();
    let mut walk = DirectoryWalk::new(PendingDir { url: "https://h/k/".to_string(), path: vec!["k".to_string()] });
    let root = walk.next_dir().unwrap();
    assert_eq!(root.url, "https://h/k/");
    let skipped = walk.apply_listing(
        &mut tree,
        &root,
        &vec![
            obj("a", "application/vnd.google-apps.folder", None, None),
            obj("b", "application/vnd.google-apps.folder", None, None),
            obj("x.mp4", "video/mp4", Some("5"), None),
        ],
    );
    assert!(skipped.is_empty());
    let next = walk.next_dir().unwrap();
    assert_eq!(next.url, "https://h/k/b/");
    assert_eq!(next.path, vec!["k", "b"]);
    walk.apply_listing(&mut tree, &next, &vec![]);
    assert_eq!(walk.next_dir().unwrap().url, "https://h/k/a/");
    assert!(walk.next_dir().is_none());
    assert_eq!(tree.to_structure(), "k:\n  x.mp4:5:0:https://h/k/x.mp4?d=true");
}

#[test]
fn keeps_integer_and_nested_fields_of_the_addition() {
    let written = addition_with_structure(r#"{"n":5,"o":{"a":[1,null]},"url_structure":"old"}"#, "new").unwrap();
    let value: Value = serde_json::from_str(&written).unwrap();
    assert_eq!(value["n"], 5);
    assert_eq!(value["o"]["a"][0], 1);
    assert!(value["o"]["a"][1].is_null());
    assert_eq!(value["url_structure"], "new");
}
