//! Application information and the start-up banner.
use vstd::prelude::*;
use crate::text::{
    chars_of, lemma_repeat_len, push_all, repeat, repeat_chars, split_char, split_char_exec, string_of, trim, trim_chars,
    views,
};
use crate::alist2strm::config::string_views;

verus! {

/// Name, version and build facts of the application.
#[derive(Debug)]
pub struct ApplicationInfo {
    pub app_name: String,
    pub app_version: String,
    pub description: String,
    pub authors: Vec<String>,
    pub repository: String,
    pub rustc_version: String,
    pub git_commit: String,
    pub git_branch: String,
    pub build_time: String,
    pub build_target: String,
    pub build_profile: String,
}

/// The logo printed at start-up.
pub const LOGO: &'static str = " █████╗ ██╗   ██╗████████╗ ██████╗ ███████╗██╗██╗     ███╗   ███╗\n██╔══██╗██║   ██║╚══██╔══╝██╔═══██╗██╔════╝██║██║     ████╗ ████║\n███████║██║   ██║   ██║   ██║   ██║█████╗  ██║██║     ██╔████╔██║\n██╔══██║██║   ██║   ██║   ██║   ██║██╔══╝  ██║██║     ██║╚██╔╝██║\n██║  ██║╚██████╔╝   ██║   ╚██████╔╝██║     ██║███████╗██║ ╚═╝ ██║\n╚═╝  ╚═╝ ╚═════╝    ╚═╝    ╚═════╝ ╚═╝     ╚═╝╚══════╝╚═╝     ╚═╝";

/// `s` centred in `width` chars, padded with copies of `fill` (one fewer on
/// the left when the padding is odd); `s` itself when it is not shorter.
pub open spec fn center_spec(s: Seq<char>, width: nat, fill: Seq<char>) -> Seq<char> {
    if s.len() >= width {
        s
    } else {
        let padding = (width - s.len()) as nat;
        let left = padding / 2;
        let right = (padding - left) as nat;
        repeat(fill, left) + s + repeat(fill, right)
    }
}

/// Centring with a one-char fill gives a text `width` chars long, or `s`
/// itself when it is already at least that long.
pub proof fn law_center_width(s: Seq<char>, width: nat, fill: Seq<char>)
    requires
        fill.len() == 1,
    ensures
        center_spec(s, width, fill).len() == if s.len() >= width { s.len() } else { width },
{
    if s.len() < width {
        let padding = (width - s.len()) as nat;
        let left = padding / 2;
        let right = (padding - left) as nat;
        lemma_repeat_len(fill, left);
        lemma_repeat_len(fill, right);
    }
}

/// Centres `s` in `width` chars with copies of `fill`.
pub fn center(s: &str, width: usize, fill: &str) -> (res: String)
    ensures
        res@ == center_spec(s@, width as nat, fill@),
{
    let cs = chars_of(s);
    if cs.len() >= width {
        return string_of(&cs);
    }
    let padding = width - cs.len();
    let left = padding / 2;
    let right = padding - left;
    let fc = chars_of(fill);
    let mut out = repeat_chars(&fc, left);
    push_all(&mut out, &cs);
    let r = repeat_chars(&fc, right);
    push_all(&mut out, &r);
    string_of(&out)
}

/// The banner title line: ` <name> <version> ` centred in 65 chars with `=`.
pub open spec fn banner_title_spec(app_name: Seq<char>, app_version: Seq<char>) -> Seq<char> {
    center_spec(seq![' '] + app_name + seq![' '] + app_version + seq![' '], 65, "="@)
}

/// The banner title line for the given name and version.
pub fn banner_title(app_name: &str, app_version: &str) -> (res: String)
    ensures
        res@ == banner_title_spec(app_name@, app_version@),
{
    let mut t: Vec<char> = vec![' '];
    let n = chars_of(app_name);
    push_all(&mut t, &n);
    t.push(' ');
    let v = chars_of(app_version);
    push_all(&mut t, &v);
    t.push(' ');
    assert(t@ =~= seq![' '] + app_name@ + seq![' '] + app_version@ + seq![' ']);
    let title = string_of(&t);
    center(title.as_str(), 65, "=")
}

/// The trimmed pieces of a `:`-separated author list.
pub open spec fn authors_spec(text: Seq<char>) -> Seq<Seq<char>> {
    split_char(text, ':').map_values(|p: Seq<char>| trim(p))
}

/// The authors named by a `:`-separated list, each trimmed.
pub fn authors_from(text: &str) -> (res: Vec<String>)
    ensures
        string_views(res@) == authors_spec(text@),
{
    let cs = chars_of(text);
    let pieces = split_char_exec(&cs, ':');
    let mut out: Vec<String> = Vec::new();
    let mut i: usize = 0;
    while i < pieces.len()
        invariant
            i <= pieces.len(),
            views(pieces@) == split_char(text@, ':'),
            string_views(out@) == views(pieces@).take(i as int).map_values(|p: Seq<char>| trim(p)),
        decreases pieces.len() - i,
    {
        let t = trim_chars(&pieces[i]);
        let ghost before = string_views(out@);
        out.push(string_of(&t));
        assert(views(pieces@).take(i + 1) =~= views(pieces@).take(i as int).push(views(pieces@)[i as int]));
        assert(string_views(out@) =~= before.push(trim(pieces@[i as int]@)));
        assert(string_views(out@) =~= views(pieces@).take(i + 1).map_values(|p: Seq<char>| trim(p)));
        i = i + 1;
    }
    assert(views(pieces@).take(pieces.len() as int) =~= views(pieces@));
    out
}

} // verus!
