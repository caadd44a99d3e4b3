use autofilm::alist2strm::path::{
    bdmv_root, encode_path, ensure_leading_slash, is_bdmv_file, join_alist_path,
    movie_title_from_bdmv_root, relative_from_source, suffix_of, AlistPath, ObjEntry,
};
use std::path::PathBuf;

fn sample(full_path: &str, name: &str) -> AlistPath {
    AlistPath {
        server_url: "http://alist".into(),
        base_path: String::new(),
        full_path: full_path.into(),
        name: name.into(),
        size: 1,
        is_dir: false,
        modified_timestamp: 0,
        sign: String::new(),
        raw_url: None,
    }
}

#[test]
fn joins_alist_paths_without_double_slashes() {
    assert_eq!(join_alist_path("/", "movie.mkv"), "/movie.mkv");
    assert_eq!(join_alist_path("/media", "movie.mkv"), "/media/movie.mkv");
}

#[test]
fn extracts_bdmv_root_and_title() {
    let path = AlistPath {
        server_url: "http://alist".into(),
        base_path: String::new(),
        full_path: "/电影/Example/BDMV/STREAM/00001.m2ts".into(),
        name: "00001.m2ts".into(),
        size: 1,
        is_dir: false,
        modified_timestamp: 0,
        sign: String::new(),
        raw_url: None,
    };
    assert_eq!(bdmv_root(&path).as_deref(), Some("/电影/Example"));
    assert_eq!(movie_title_from_bdmv_root("/电影/Example"), "Example");
}

#[test]
fn download_url_does_not_encode_sign() {
    let path = AlistPath {
        server_url: "http://192.168.10.15:5255".into(),
        base_path: String::new(),
        full_path: "/media/movie.mkv".into(),
        name: "movie.mkv".into(),
        size: 1024,
        is_dir: false,
        modified_timestamp: 0,
        sign: "SGzogi30rKyG5MVNVuwREmRYhE4iDlKcIGIGqpR1m9c=:0".into(),
        raw_url: None,
    };
    let url = path.download_url();
    assert_eq!(
        url,
        "http://192.168.10.15:5255/d/media/movie.mkv?sign=SGzogi30rKyG5MVNVuwREmRYhE4iDlKcIGIGqpR1m9c=:0"
    );
}

#[test]
fn download_url_without_sign_has_no_query() {
    let path = AlistPath {
        server_url: "http://192.168.10.15:5255".into(),
        base_path: String::new(),
        full_path: "/media/movie.mkv".into(),
        name: "movie.mkv".into(),
        size: 1024,
        is_dir: false,
        modified_timestamp: 0,
        sign: String::new(),
        raw_url: None,
    };
    let url = path.download_url();
    assert_eq!(url, "http://192.168.10.15:5255/d/media/movie.mkv");
}

#[test]
fn download_url_encodes_path_and_keeps_base_path() {
    let mut path = sample("/电影/a b.mkv", "a b.mkv");
    path.server_url = "http://host/".into();
    path.base_path = "/user/".into();
    assert_eq!(
        path.download_url(),
        "http://host/d/user/%E7%94%B5%E5%BD%B1/a%20b.mkv"
    );
    path.full_path = "x.mkv".into();
    assert_eq!(path.download_url(), "http://host/d/user/x.mkv");
}

#[test]
fn encodes_each_path_piece() {
    let cs: Vec<char> = "/a b/c~d".chars().collect();
    let out: String = encode_path(&cs).into_iter().collect();
    assert_eq!(out, "/a%20b/c~d");
}

#[test]
fn suffixes_are_lower_case() {
    assert_eq!(suffix_of("Movie.MKV"), ".mkv");
    assert_eq!(suffix_of("archive.tar.gz"), ".gz");
    assert_eq!(suffix_of("README"), "");
    assert_eq!(suffix_of("name."), ".");
    assert_eq!(sample("/a/b.ASS", "b.ASS").suffix(), ".ass");
}

#[test]
fn recognises_bdmv_streams() {
    assert!(is_bdmv_file(&sample("/m/X/BDMV/STREAM/00001.M2TS", "00001.M2TS")));
    assert!(!is_bdmv_file(&sample("/m/X/BDMV/CLIPINF/00001.clpi", "00001.clpi")));
    assert!(!is_bdmv_file(&sample("/m/X/00001.m2ts", "00001.m2ts")));
    assert_eq!(bdmv_root(&sample("/BDMV/STREAM/1.m2ts", "1.m2ts")), None);
    assert_eq!(bdmv_root(&sample("/a/b.mkv", "b.mkv")), None);
}

#[test]
fn movie_titles() {
    assert_eq!(movie_title_from_bdmv_root("/电影/Example/"), "Example");
    assert_eq!(movie_title_from_bdmv_root("Example"), "Example");
    assert_eq!(movie_title_from_bdmv_root("///"), "BDMV");
    assert_eq!(movie_title_from_bdmv_root(""), "BDMV");
}

#[test]
fn relative_paths_and_slashes() {
    assert_eq!(relative_from_source("/media/tv/a.mkv", "/media/"), "tv/a.mkv");
    assert_eq!(relative_from_source("/other/a.mkv", "/media"), "other/a.mkv");
    assert_eq!(relative_from_source("/media2/movie.mkv", "/media"), "media2/movie.mkv");
    assert_eq!(relative_from_source("/media", "/media"), "");
    assert_eq!(relative_from_source("/a.mkv", "/"), "a.mkv");
    assert_eq!(ensure_leading_slash("a/b"), "/a/b");
    assert_eq!(ensure_leading_slash("/a/b"), "/a/b");
    assert_eq!(join_alist_path("", "x"), "/x");
    assert_eq!(join_alist_path("/a//", "x"), "/a/x");
}

#[test]
fn builds_paths_from_listed_objects() {
    let obj = ObjEntry {
        name: "movie.mkv".into(),
        size: -5,
        is_dir: false,
        modified: 1700000000,
        sign: "s".into(),
    };
    let p = AlistPath::from_obj("http://h".into(), "/b".into(), "/media/", obj);
    assert_eq!(p.full_path, "/media/movie.mkv");
    assert_eq!(p.size, 0);
    assert_eq!(p.modified_timestamp, 1700000000);
    assert!(p.raw_url.is_none());
    let p = p.with_raw_url("http://raw".into());
    assert_eq!(p.raw_url.as_deref(), Some("http://raw"));
    assert_eq!(p.name, "movie.mkv");
}

#[test]
fn local_paths() {
    let p = sample("/media/tv/show.mkv", "show.mkv");
    assert_eq!(
        PathBuf::from(p.local_path("/media", "/target", false, None)),
        PathBuf::from("/target/tv/show.strm")
    );
    assert_eq!(
        PathBuf::from(p.local_path("/media", "/target", true, None)),
        PathBuf::from("/target/show.strm")
    );
    let sub = sample("/media/tv/show.ASS", "show.ASS");
    assert_eq!(
        PathBuf::from(sub.local_path("/media", "/target", false, None)),
        PathBuf::from("/target/tv/show.ASS")
    );
    let disc = sample("/media/Film/BDMV/STREAM/00001.m2ts", "00001.m2ts");
    assert_eq!(
        PathBuf::from(disc.local_path("/media", "/target", false, Some("/media/Film"))),
        PathBuf::from("/target/Film/Film.strm")
    );
    assert_eq!(
        PathBuf::from(disc.local_path("/media", "/target", true, Some("/media/Film"))),
        PathBuf::from("/target/Film.strm")
    );
}
