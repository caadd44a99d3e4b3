//! Task configuration of Alist2Strm: the values a configuration file holds,
//! their defaults, and the normalisation of the configured suffixes.
use vstd::prelude::*;
use crate::text::{
    chars_eq, chars_of, lemma_lower, lemma_trim_nonws, lemma_trim_shape, lower, lower_chars, push_all,
    split_char, split_char_exec, starts_with, starts_with_chars, string_of, trim, trim_chars, views,
};

verus! {

/// What a `.strm` file holds.
#[derive(Clone, Copy, Debug, PartialEq, Eq, Structural)]
pub enum Mode {
    AlistURL,
    RawURL,
    AlistPath,
}

impl Default for Mode {
    fn default() -> (res: Self)
        ensures
            res == Mode::AlistURL,
    {
        Mode::AlistURL
    }
}

/// The mode that a configured string names: `rawurl` and `alistpath` in any
/// ASCII case, and `AlistURL` for every other value.
pub open spec fn mode_of(value: Seq<char>) -> Mode {
    if lower(value) == "rawurl"@ {
        Mode::RawURL
    } else if lower(value) == "alistpath"@ {
        Mode::AlistPath
    } else {
        Mode::AlistURL
    }
}

impl Mode {
    /// The mode named by a configured string; unknown values give `AlistURL`.
    pub fn from_str(value: &str) -> (res: Self)
        ensures
            res == mode_of(value@),
    {
        let v = chars_of(value);
        let l = lower_chars(&v);
        let raw = chars_of("rawurl");
        let path = chars_of("alistpath");
        if chars_eq(&l, &raw) {
            Mode::RawURL
        } else if chars_eq(&l, &path) {
            Mode::AlistPath
        } else {
            Mode::AlistURL
        }
    }
}

/// Which companion files are downloaded beside the `.strm` files.
#[derive(Clone, Debug)]
pub struct DownloadOption {
    pub enable: bool,
    pub subtitle: bool,
    pub image: bool,
    pub nfo: bool,
    pub other_ext: Vec<String>,
    pub concurrency: usize,
}

/// Deletion protection for `.strm` files.
#[derive(Clone, Debug)]
pub struct SmartProtectionConfig {
    pub enabled: bool,
    pub threshold: usize,
    pub grace_scans: usize,
}

/// Synchronisation of the local tree with the remote one.
#[derive(Clone, Debug)]
pub struct SyncConfig {
    pub enabled: bool,
    pub ignore: Option<String>,
    pub smart_protection: Option<SmartProtectionConfig>,
}

/// One Alist2Strm task.
#[derive(Clone, Debug)]
pub struct Config {
    pub id: String,
    pub cron: Option<String>,
    pub alist: String,
    pub source_dir: String,
    pub target_dir: String,
    pub mode: Mode,
    pub flatten_mode: bool,
    pub overwrite: bool,
    pub download: DownloadOption,
    pub sync: Option<SyncConfig>,
    pub concurrency: usize,
}

/// Default number of files handled at once.
pub fn default_concurrency() -> (res: usize)
    ensures
        res == 50,
{
    50
}

/// Default number of companion downloads at once.
pub fn default_download_concurrency() -> (res: usize)
    ensures
        res == 5,
{
    5
}

/// Default number of pending deletions from which protection starts.
pub fn default_protection_threshold() -> (res: usize)
    ensures
        res == 100,
{
    100
}

/// Default number of consecutive scans that must confirm a protected deletion.
pub fn default_grace_scans() -> (res: usize)
    ensures
        res == 3,
{
    3
}

impl Default for DownloadOption {
    /// Only `.strm` files; no companion downloads.
    fn default() -> (res: Self)
        ensures
            !res.enable && !res.subtitle && !res.image && !res.nfo,
            res.other_ext@.len() == 0,
            res.concurrency == 5,
    {
        DownloadOption {
            enable: false,
            subtitle: false,
            image: false,
            nfo: false,
            other_ext: Vec::new(),
            concurrency: default_download_concurrency(),
        }
    }
}

impl Default for SmartProtectionConfig {
    /// Protection off, with the default threshold and grace count.
    fn default() -> (res: Self)
        ensures
            !res.enabled,
            res.threshold == 100,
            res.grace_scans == 3,
    {
        SmartProtectionConfig {
            enabled: false,
            threshold: default_protection_threshold(),
            grace_scans: default_grace_scans(),
        }
    }
}

/// A configured suffix, trimmed, in ASCII lower case and with a leading `.`.
pub open spec fn normalized_ext(value: Seq<char>) -> Seq<char> {
    let v = lower(trim(value));
    if starts_with(v, seq!['.']) {
        v
    } else {
        seq!['.'] + v
    }
}

/// Normalising a configured suffix twice gives what normalising it once
/// gives: `srt`, `.SRT` and ` .srt ` all become the same suffix, which is
/// left as it is.
pub proof fn law_normalize_ext_idempotent(value: Seq<char>)
    ensures
        normalized_ext(normalized_ext(value)) == normalized_ext(value),
{
    let t = trim(value);
    lemma_trim_shape(value);
    lemma_lower(t);
    let l = lower(t);
    let n = normalized_ext(value);
    if starts_with(l, seq!['.']) {
        assert(n == l);
        assert(l.subrange(0, 1)[0] == l[0]);
        assert(l[0] == '.');
        lemma_trim_nonws(l);
    } else {
        assert(n == seq!['.'] + l);
        assert(n[0] == '.');
        if l.len() > 0 {
            assert(n.last() == l.last());
        }
        lemma_trim_nonws(n);
        lemma_lower(n);
        assert(lower(n) =~= seq!['.'] + lower(l));
    }
    assert(trim(n) == n);
    lemma_lower(n);
    assert(lower(n) == n) by {
        if starts_with(l, seq!['.']) {
        } else {
            assert(lower(n) =~= seq!['.'] + lower(l));
        }
    }
    assert(starts_with(n, seq!['.'])) by {
        assert(n.subrange(0, 1) =~= seq!['.']);
    }
}

/// The suffixes that a comma-separated list names: each piece trimmed,
/// empty pieces dropped, the others normalised.
pub open spec fn exts_of_pieces(pieces: Seq<Seq<char>>) -> Seq<Seq<char>>
    decreases pieces.len(),
{
    if pieces.len() == 0 {
        seq![]
    } else {
        let rest = exts_of_pieces(pieces.drop_last());
        let t = trim(pieces.last());
        if t.len() == 0 {
            rest
        } else {
            rest.push(normalized_ext(t))
        }
    }
}

/// The char sequences of a sequence of strings.
pub open spec fn string_views(v: Seq<String>) -> Seq<Seq<char>> {
    v.map_values(|x: String| x@)
}

/// Normalises one configured suffix: `srt` and ` .SRT ` both give `.srt`.
pub fn normalize_ext(value: &str) -> (res: String)
    ensures
        res@ == normalized_ext(value@),
{
    let cs = chars_of(value);
    let t = trim_chars(&cs);
    let v = lower_chars(&t);
    let dot = vec!['.'];
    assert(dot@ =~= seq!['.']);
    if starts_with_chars(&v, &dot) {
        string_of(&v)
    } else {
        let mut out = dot;
        push_all(&mut out, &v);
        string_of(&out)
    }
}

/// The suffixes named by a configured comma-separated string.
pub fn exts_from_text(value: &str) -> (res: Vec<String>)
    ensures
        string_views(res@) == exts_of_pieces(split_char(value@, ',')),
{
    let cs = chars_of(value);
    let pieces = split_char_exec(&cs, ',');
    let mut out: Vec<String> = Vec::new();
    let mut i: usize = 0;
    while i < pieces.len()
        invariant
            i <= pieces.len(),
            views(pieces@) == split_char(value@, ','),
            string_views(out@) == exts_of_pieces(views(pieces@).take(i as int)),
        decreases pieces.len() - i,
    {
        let ghost before = views(pieces@).take(i as int);
        assert(views(pieces@).take(i + 1).drop_last() =~= before);
        let t = trim_chars(&pieces[i]);
        if t.len() > 0 {
            let s = string_of(&t);
            let n = normalize_ext(&s);
            out.push(n);
            assert(string_views(out@) =~= exts_of_pieces(before).push(n@));
        }
        i = i + 1;
    }
    assert(views(pieces@).take(pieces.len() as int) =~= views(pieces@));
    out
}

/// The suffixes named by a configured list of strings: each one normalised.
pub fn exts_from_list(values: &Vec<String>) -> (res: Vec<String>)
    ensures
        res@.len() == values@.len(),
        forall|i: int| 0 <= i < values@.len() ==> #[trigger] res@[i]@ == normalized_ext(values@[i]@),
{
    let mut out: Vec<String> = Vec::new();
    let mut i: usize = 0;
    while i < values.len()
        invariant
            i <= values.len(),
            out@.len() == i,
            forall|j: int| 0 <= j < i ==> #[trigger] out@[j]@ == normalized_ext(values@[j]@),
        decreases values.len() - i,
    {
        out.push(normalize_ext(values[i].as_str()));
        i = i + 1;
    }
    out
}

} // verus!
