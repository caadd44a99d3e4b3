//! The remote paths of an AList server and how they map to download links
//! and to local `.strm` paths.
use vstd::prelude::*;
use crate::extensions::{is_video_ext, is_video_ext_spec};
use crate::outside::{
    path_join, path_join_spec, path_set_extension, path_with_extension, url_encode, urlencode,
};
use crate::text::{
    chars_of, contains, contains_chars, find, find_first, lower, lower_char, lower_chars, push_all,
    rfind_char, rfind_char_exec, slice_chars, split_char, split_char_exec, starts_with,
    starts_with_chars, string_of, trim_end_char, trim_end_char_exec, trim_start_char,
    trim_start_char_exec, views,
};

verus! {

/// A file or directory listed by AList, with what the download link and the
/// local path need.
#[derive(Clone, Debug)]
pub struct AlistPath {
    /// Root address of the AList site.
    pub server_url: String,
    /// The user's base path, kept in download links.
    pub base_path: String,
    /// Full path below the user's root.
    pub full_path: String,
    pub name: String,
    pub size: u64,
    pub is_dir: bool,
    pub modified_timestamp: i64,
    pub sign: String,
    pub raw_url: Option<String>,
}

/// What `/api/fs/list` tells of one object.
#[derive(Clone, Debug)]
pub struct ObjEntry {
    pub name: String,
    pub size: i64,
    pub is_dir: bool,
    /// Modification time as a Unix timestamp.
    pub modified: i64,
    pub sign: String,
}

/// `/` followed by `name` below `parent`, without doubled slashes.
pub open spec fn join_alist_path_spec(parent: Seq<char>, name: Seq<char>) -> Seq<char> {
    let p = trim_end_char(parent, '/');
    if p.len() == 0 {
        seq!['/'] + name
    } else {
        p + seq!['/'] + name
    }
}

/// The lower-case suffix of a file name, with its leading `.`; empty when the
/// name has no `.`.
pub open spec fn suffix_spec(name: Seq<char>) -> Seq<char> {
    match rfind_char(name, '.') {
        Some(i) => seq!['.'] + lower(name.skip(i + 1)),
        None => seq![],
    }
}

/// `p`, with a leading `/` added when it has none.
pub open spec fn ensure_leading_slash_spec(p: Seq<char>) -> Seq<char> {
    if starts_with(p, seq!['/']) {
        p
    } else {
        seq!['/'] + p
    }
}

/// The pieces joined with `/` between them.
pub open spec fn join_with_slash(pieces: Seq<Seq<char>>) -> Seq<char>
    decreases pieces.len(),
{
    if pieces.len() == 0 {
        seq![]
    } else if pieces.len() == 1 {
        pieces[0]
    } else {
        join_with_slash(pieces.drop_last()) + seq!['/'] + pieces.last()
    }
}

/// A path with each `/`-separated piece percent-encoded.
pub open spec fn encode_path_spec(p: Seq<char>) -> Seq<char> {
    join_with_slash(split_char(p, '/').map_values(|x: Seq<char>| url_encode(x)))
}

/// The AList `/d` link: site, `/d`, base path, full path, each piece of the
/// path percent-encoded, then `?sign=` and the sign as it is when there is one.
pub open spec fn download_url_spec(
    server: Seq<char>,
    base: Seq<char>,
    full: Seq<char>,
    sign: Seq<char>,
) -> Seq<char> {
    let abs = trim_end_char(base, '/') + ensure_leading_slash_spec(full);
    let url = trim_end_char(server, '/') + "/d"@ + encode_path_spec(abs);
    if sign.len() > 0 {
        url + "?sign="@ + sign
    } else {
        url
    }
}

/// Whether a remote path is a main-title candidate of a Blu-ray folder.
pub open spec fn is_bdmv_file_spec(full: Seq<char>, name: Seq<char>) -> bool {
    contains(full, "/BDMV/STREAM/"@) && suffix_spec(name) == ".m2ts"@
}

/// The directory before the first `/BDMV/`, when it is not empty.
pub open spec fn bdmv_root_spec(full: Seq<char>) -> Option<Seq<char>> {
    match find(full, "/BDMV/"@) {
        Some(i) => if i > 0 {
            Some(full.take(i))
        } else {
            None
        },
        None => None,
    }
}

/// What follows the last `/` (the whole text when there is none).
pub open spec fn last_segment(s: Seq<char>) -> Seq<char> {
    match rfind_char(s, '/') {
        Some(i) => s.skip(i + 1),
        None => s,
    }
}

/// The last directory name of a Blu-ray root, or `BDMV` when there is none.
pub open spec fn movie_title_spec(root: Seq<char>) -> Seq<char> {
    let seg = last_segment(trim_end_char(root, '/'));
    if seg.len() == 0 {
        "BDMV"@
    } else {
        seg
    }
}

/// Whether `path` lies under the directory `s` (given without trailing
/// `/`): it begins with `s`, and `s` is followed by `/` or ends the path.
pub open spec fn is_under(path: Seq<char>, s: Seq<char>) -> bool {
    starts_with(path, s) && (path.len() == s.len() || path[s.len() as int] == '/')
}

/// A remote path relative to the source directory, without leading `/`; a
/// path that is not under the source directory keeps its own form, without
/// leading `/`.
pub open spec fn relative_from_source_spec(path: Seq<char>, source_dir: Seq<char>) -> Seq<char> {
    let s = trim_end_char(source_dir, '/');
    let r = if is_under(path, s) {
        path.skip(s.len() as int)
    } else {
        path
    };
    trim_start_char(r, '/')
}

/// The local path of a remote file.
pub open spec fn local_path_spec(
    name: Seq<char>,
    full: Seq<char>,
    source_dir: Seq<char>,
    target_dir: Seq<char>,
    flatten_mode: bool,
    bdmv_root: Option<Seq<char>>,
) -> Seq<char> {
    match bdmv_root {
        Some(r) => {
            let file = movie_title_spec(r) + ".strm"@;
            if flatten_mode {
                path_join_spec(target_dir, file)
            } else {
                path_join_spec(path_join_spec(target_dir, relative_from_source_spec(r, source_dir)), file)
            }
        },
        None => {
            let lp = if flatten_mode {
                path_join_spec(target_dir, name)
            } else {
                path_join_spec(target_dir, relative_from_source_spec(full, source_dir))
            };
            if is_video_ext_spec(suffix_spec(name)) {
                path_with_extension(lp, "strm"@)
            } else {
                lp
            }
        },
    }
}

/// ASCII lower-casing keeps the places of `.`.
proof fn lemma_rfind_dot_lower(n: Seq<char>)
    ensures
        rfind_char(lower(n), '.') == rfind_char(n, '.'),
    decreases n.len(),
{
    if n.len() > 0 {
        assert(lower(n).drop_last() =~= lower(n.drop_last()));
        assert(lower(n).last() == lower_char(n.last()));
        lemma_rfind_dot_lower(n.drop_last());
    }
}

/// The suffix of a name is a function of the name's ASCII lower-casing.
proof fn lemma_suffix_of_lower(n1: Seq<char>, n2: Seq<char>)
    requires
        lower(n1) == lower(n2),
    ensures
        suffix_spec(n1) == suffix_spec(n2),
{
    lemma_rfind_dot_lower(n1);
    lemma_rfind_dot_lower(n2);
    match rfind_char(n1, '.') {
        Some(i) => {
            crate::text::lemma_rfind_char(n1, '.');
            assert(lower(n1.skip(i + 1)) =~= lower(n1).skip(i + 1));
            assert(lower(n2.skip(i + 1)) =~= lower(n2).skip(i + 1));
        },
        None => {},
    }
}

/// The local path of a remote file before the `.strm` decision.
pub open spec fn plain_local_path(name: Seq<char>, full: Seq<char>, source_dir: Seq<char>, target_dir: Seq<char>, flatten_mode: bool) -> Seq<char> {
    if flatten_mode {
        path_join_spec(target_dir, name)
    } else {
        path_join_spec(target_dir, relative_from_source_spec(full, source_dir))
    }
}

/// Law: the `.strm` decision reads the name's suffix in ASCII lower case: a
/// name whose text after its last `.`, lower-cased, is a video suffix gets
/// the `.strm` extension; any other name keeps its path.
pub proof fn law_local_path_video(
    name: Seq<char>,
    full: Seq<char>,
    source_dir: Seq<char>,
    target_dir: Seq<char>,
    flatten_mode: bool,
)
    ensures
        (rfind_char(name, '.') matches Some(i) && is_video_ext_spec(seq!['.'] + lower(name.skip(i + 1))))
            ==> local_path_spec(name, full, source_dir, target_dir, flatten_mode, None)
            == path_with_extension(plain_local_path(name, full, source_dir, target_dir, flatten_mode), "strm"@),
        !(rfind_char(name, '.') matches Some(i) && is_video_ext_spec(seq!['.'] + lower(name.skip(i + 1))))
            ==> local_path_spec(name, full, source_dir, target_dir, flatten_mode, None)
            == plain_local_path(name, full, source_dir, target_dir, flatten_mode),
{
    if rfind_char(name, '.') is None {
        assert(!is_video_ext_spec(Seq::<char>::empty())) by {
            reveal_strlit(".mp4");
            reveal_strlit(".mkv");
            reveal_strlit(".flv");
            reveal_strlit(".avi");
            reveal_strlit(".wmv");
            reveal_strlit(".ts");
            reveal_strlit(".rmvb");
            reveal_strlit(".webm");
            reveal_strlit(".mpg");
            reveal_strlit(".m2ts");
            assert(".mp4"@.len() > 0 && ".mkv"@.len() > 0 && ".flv"@.len() > 0 && ".avi"@.len() > 0);
            assert(".wmv"@.len() > 0 && ".ts"@.len() > 0 && ".rmvb"@.len() > 0 && ".webm"@.len() > 0);
            assert(".mpg"@.len() > 0 && ".m2ts"@.len() > 0);
        }
    }
}

/// Law: outside flat mode, two names equal up to ASCII case get the same
/// local path: the `.strm` decision does not see the case of the suffix.
pub proof fn law_local_path_case(
    n1: Seq<char>,
    n2: Seq<char>,
    full: Seq<char>,
    source_dir: Seq<char>,
    target_dir: Seq<char>,
)
    requires
        lower(n1) == lower(n2),
    ensures
        local_path_spec(n1, full, source_dir, target_dir, false, None)
            == local_path_spec(n2, full, source_dir, target_dir, false, None),
{
    lemma_suffix_of_lower(n1, n2);
}

pub open spec fn opt_view(o: Option<&str>) -> Option<Seq<char>> {
    match o {
        Some(s) => Some(s@),
        None => None,
    }
}

impl AlistPath {
    /// The path of an object listed below `parent_path`.
    pub fn from_obj(server_url: String, base_path: String, parent_path: &str, object: ObjEntry) -> (res: Self)
        ensures
            res.server_url@ == server_url@,
            res.base_path@ == base_path@,
            res.full_path@ == join_alist_path_spec(parent_path@, object.name@),
            res.name@ == object.name@,
            res.size == (if object.size < 0 { 0 } else { object.size as u64 }),
            res.is_dir == object.is_dir,
            res.modified_timestamp == object.modified,
            res.sign@ == object.sign@,
            res.raw_url.is_none(),
    {
        let full_path = join_alist_path(parent_path, object.name.as_str());
        let size: u64 = if object.size < 0 { 0 } else { object.size as u64 };
        AlistPath {
            server_url,
            base_path,
            full_path,
            name: object.name,
            size,
            is_dir: object.is_dir,
            modified_timestamp: object.modified,
            sign: object.sign,
            raw_url: None,
        }
    }

    /// The same path with its RawURL filled in.
    pub fn with_raw_url(self, raw_url: String) -> (res: Self)
        ensures
            res.raw_url == Some(raw_url),
            res.server_url == self.server_url,
            res.base_path == self.base_path,
            res.full_path == self.full_path,
            res.name == self.name,
            res.size == self.size,
            res.is_dir == self.is_dir,
            res.modified_timestamp == self.modified_timestamp,
            res.sign == self.sign,
    {
        let mut s = self;
        s.raw_url = Some(raw_url);
        s
    }

    /// The lower-case suffix of the file name.
    pub fn suffix(&self) -> (res: String)
        ensures
            res@ == suffix_spec(self.name@),
    {
        suffix_of(self.name.as_str())
    }

    /// The AList `/d/...` download link.
    pub fn download_url(&self) -> (res: String)
        ensures
            res@ == download_url_spec(self.server_url@, self.base_path@, self.full_path@, self.sign@),
    {
        let base = chars_of(self.base_path.as_str());
        let mut abs = trim_end_char_exec(&base, '/');
        let lead = ensure_leading_slash(self.full_path.as_str());
        let lead_cs = chars_of(lead.as_str());
        push_all(&mut abs, &lead_cs);
        let server = chars_of(self.server_url.as_str());
        let mut url = trim_end_char_exec(&server, '/');
        let d = chars_of("/d");
        push_all(&mut url, &d);
        let enc = encode_path(&abs);
        push_all(&mut url, &enc);
        let sign = chars_of(self.sign.as_str());
        if sign.len() > 0 {
            let q = chars_of("?sign=");
            push_all(&mut url, &q);
            push_all(&mut url, &sign);
        }
        string_of(&url)
    }

    /// The local path for this remote file below `target_dir`.
    pub fn local_path(
        &self,
        source_dir: &str,
        target_dir: &str,
        flatten_mode: bool,
        bdmv_root: Option<&str>,
    ) -> (res: String)
        ensures
            res@ == local_path_spec(
                self.name@,
                self.full_path@,
                source_dir@,
                target_dir@,
                flatten_mode,
                opt_view(bdmv_root),
            ),
    {
        match bdmv_root {
            Some(root) => {
                let title = movie_title_from_bdmv_root(root);
                let mut file = chars_of(title.as_str());
                let ext = chars_of(".strm");
                push_all(&mut file, &ext);
                let file_s = string_of(&file);
                if flatten_mode {
                    path_join(target_dir, file_s.as_str())
                } else {
                    let rel = relative_from_source(root, source_dir);
                    let dir = path_join(target_dir, rel.as_str());
                    path_join(dir.as_str(), file_s.as_str())
                }
            },
            None => {
                let lp = if flatten_mode {
                    path_join(target_dir, self.name.as_str())
                } else {
                    let rel = relative_from_source(self.full_path.as_str(), source_dir);
                    path_join(target_dir, rel.as_str())
                };
                let suffix = self.suffix();
                if is_video_ext(suffix.as_str()) {
                    proof {
                        reveal_strlit("strm");
                    }
                    path_set_extension(lp.as_str(), "strm")
                } else {
                    lp
                }
            },
        }
    }
}

/// The lower-case suffix of a file name, with its leading `.`.
pub fn suffix_of(name: &str) -> (res: String)
    ensures
        res@ == suffix_spec(name@),
{
    let cs = chars_of(name);
    match rfind_char_exec(&cs, '.') {
        Some(i) => {
            let ext = slice_chars(&cs, i + 1, cs.len());
            let low = lower_chars(&ext);
            let mut out = vec!['.'];
            push_all(&mut out, &low);
            assert(ext@ == name@.skip(i + 1));
            assert(out@ =~= seq!['.'] + lower(name@.skip(i + 1)));
            string_of(&out)
        },
        None => {
            let out: Vec<char> = Vec::new();
            assert(out@ =~= Seq::<char>::empty());
            string_of(&out)
        },
    }
}

/// Whether a remote path is a `.m2ts` below `BDMV/STREAM`.
pub fn is_bdmv_file(path: &AlistPath) -> (res: bool)
    ensures
        res == is_bdmv_file_spec(path.full_path@, path.name@),
{
    let full = chars_of(path.full_path.as_str());
    let pat = chars_of("/BDMV/STREAM/");
    if !contains_chars(&full, &pat) {
        return false;
    }
    let suffix = chars_of(path.suffix().as_str());
    let m2ts = chars_of(".m2ts");
    crate::text::chars_eq(&suffix, &m2ts)
}

/// The remote directory of a Blu-ray folder (what comes before `/BDMV/`).
pub fn bdmv_root(path: &AlistPath) -> (res: Option<String>)
    ensures
        match res {
            Some(r) => bdmv_root_spec(path.full_path@) == Some(r@),
            None => bdmv_root_spec(path.full_path@) is None,
        },
{
    let full = chars_of(path.full_path.as_str());
    let pat = chars_of("/BDMV/");
    match find_first(&full, &pat) {
        Some(i) => {
            if i > 0 {
                let root = slice_chars(&full, 0, i);
                Some(string_of(&root))
            } else {
                None
            }
        },
        None => None,
    }
}

/// The title of a Blu-ray folder: its last directory name, or `BDMV`.
pub fn movie_title_from_bdmv_root(root: &str) -> (res: String)
    ensures
        res@ == movie_title_spec(root@),
{
    let cs = chars_of(root);
    let t = trim_end_char_exec(&cs, '/');
    let seg = match rfind_char_exec(&t, '/') {
        Some(i) => slice_chars(&t, i + 1, t.len()),
        None => slice_chars(&t, 0, t.len()),
    };
    assert(seg@ == last_segment(trim_end_char(root@, '/'))) by {
        assert(t@.subrange(0, t@.len() as int) =~= t@);
    }
    if seg.len() == 0 {
        let b = chars_of("BDMV");
        string_of(&b)
    } else {
        string_of(&seg)
    }
}

/// `name` below `parent`, without a doubled `/`.
pub fn join_alist_path(parent: &str, name: &str) -> (res: String)
    ensures
        res@ == join_alist_path_spec(parent@, name@),
{
    let cs = chars_of(parent);
    let p = trim_end_char_exec(&cs, '/');
    let n = chars_of(name);
    let mut out: Vec<char>;
    if p.len() == 0 {
        out = vec!['/'];
        push_all(&mut out, &n);
        assert(out@ =~= seq!['/'] + name@);
    } else {
        out = p;
        out.push('/');
        push_all(&mut out, &n);
    }
    string_of(&out)
}

/// A remote path relative to `source_dir`, without leading `/`.
pub fn relative_from_source(path: &str, source_dir: &str) -> (res: String)
    ensures
        res@ == relative_from_source_spec(path@, source_dir@),
{
    let sc = chars_of(source_dir);
    let s = trim_end_char_exec(&sc, '/');
    let pc = chars_of(path);
    let under = starts_with_chars(&pc, &s) && (pc.len() == s.len() || pc[s.len()] == '/');
    let r = if under {
        slice_chars(&pc, s.len(), pc.len())
    } else {
        slice_chars(&pc, 0, pc.len())
    };
    assert(pc@.subrange(0, pc@.len() as int) =~= pc@);
    let t = trim_start_char_exec(&r, '/');
    string_of(&t)
}

/// `path` with a leading `/`.
pub fn ensure_leading_slash(path: &str) -> (res: String)
    ensures
        res@ == ensure_leading_slash_spec(path@),
{
    let cs = chars_of(path);
    let slash = vec!['/'];
    assert(slash@ =~= seq!['/']);
    if starts_with_chars(&cs, &slash) {
        string_of(&cs)
    } else {
        let mut out = slash;
        push_all(&mut out, &cs);
        string_of(&out)
    }
}

/// A path with each `/`-separated piece percent-encoded.
pub fn encode_path(path: &[char]) -> (res: Vec<char>)
    ensures
        res@ == encode_path_spec(path@),
{
    let pieces = split_char_exec(path, '/');
    let ghost enc = views(pieces@).map_values(|x: Seq<char>| url_encode(x));
    let mut out: Vec<char> = Vec::new();
    let mut i: usize = 0;
    while i < pieces.len()
        invariant
            i <= pieces.len(),
            views(pieces@) == split_char(path@, '/'),
            enc == views(pieces@).map_values(|x: Seq<char>| url_encode(x)),
            out@ == join_with_slash(enc.take(i as int)),
        decreases pieces.len() - i,
    {
        let piece = string_of(&pieces[i]);
        let e = urlencode(piece.as_str());
        let ec = chars_of(e.as_str());
        assert(enc.take(i + 1).drop_last() =~= enc.take(i as int));
        if i > 0 {
            out.push('/');
        } else {
            assert(out@ =~= Seq::<char>::empty());
        }
        push_all(&mut out, &ec);
        assert(enc[i as int] == url_encode(pieces@[i as int]@));
        i = i + 1;
    }
    assert(enc.take(pieces.len() as int) =~= enc);
    out
}

} // verus!
