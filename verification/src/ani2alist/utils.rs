//! Helpers of the ANI import: seasons, path templates, links, MIME types and
//! the items of the RSS feed.
use vstd::prelude::*;
use crate::alist2strm::config::string_views;
use crate::ani2alist::url_tree::FileEntry;
use crate::outside::{
    naive_utc_timestamp, opt_string_views, parse_naive_utc_timestamp, parse_rfc2822_timestamp, regex_all_groups,
    regex_captures_all, regex_captures_first, regex_first_group, rfc2822_timestamp, url_decode,
    url_encode, urldecode, urlencode,
};
use crate::text::{
    lacks, chars_eq, chars_of, ends_with, ends_with_chars, i64_str, int_str, nat_str, push_all, replace_all,
    replace_all_exec, split_char, split_char_exec, str_eq, string_of, to_string, trim, trim_chars,
    trim_end_char, trim_end_char_exec, u64_str, upper, upper_chars, views, ws_tokens, ws_tokens_exec,
};

verus! {

/// A file of the ANI listing and the directories it lies in.
#[derive(Clone, Debug, PartialEq, Eq)]
pub struct RemoteFile {
    pub path: Vec<String>,
    pub file: FileEntry,
}

/// The body of an ANI directory request.
#[derive(Debug)]
pub struct AniDirectoryResp {
    pub files: Vec<AniObject>,
}

/// One entry of an ANI directory.
#[derive(Debug)]
pub struct AniObject {
    pub name: String,
    pub mime_type: String,
    pub size: Option<String>,
    pub created_time: Option<String>,
}

// ---------------------------------------------------------------------------
// Seasons and templates.
// ---------------------------------------------------------------------------

/// The first month of the ANI season that a month falls in.
pub open spec fn season_month(month: u32) -> u32 {
    if month >= 10 {
        10
    } else if month >= 7 {
        7
    } else if month >= 4 {
        4
    } else {
        1
    }
}

/// The ANI season of a date given by its year and month: the year and the
/// latest of the months 1, 4, 7, 10 that is not after the month (1 when none).
pub fn current_season(year: i32, month: u32) -> (res: (i32, u32))
    ensures
        res == (year, season_month(month)),
{
    let m = if month >= 10 {
        10
    } else if month >= 7 {
        7
    } else if month >= 4 {
        4
    } else {
        1
    };
    (year, m)
}

/// Law: the season of a month starts at one of the months 1, 4, 7, 10 —
/// the latest of them that is not after the month (1 when none is). So a
/// season's first month is its own season, and a month lies less than three
/// months after its season's start.
pub proof fn law_season_month(m: u32)
    ensures
        season_month(m) == 1 || season_month(m) == 4 || season_month(m) == 7 || season_month(m) == 10,
        m >= 1 ==> season_month(m) <= m,
        m >= 4 ==> season_month(m) >= 4,
        m >= 7 ==> season_month(m) >= 7,
        m >= 10 ==> season_month(m) >= 10,
        1 <= m <= 12 ==> m - season_month(m) < 3,
        (m == 1 || m == 4 || m == 7 || m == 10) ==> season_month(m) == m,
{
}

/// `YYYY-M` as ANI names a season.
pub open spec fn season_key_spec(year: i32, month: u32) -> Seq<char> {
    int_str(year as int) + seq!['-'] + nat_str(month as nat)
}

/// The directory key of a season: year, `-`, month.
pub fn season_key_from_parts(year: i32, month: u32) -> (res: String)
    ensures
        res@ == season_key_spec(year, month),
{
    let mut v = i64_str(year as i64);
    v.push('-');
    let m = u64_str(month as u64);
    push_all(&mut v, &m);
    string_of(&v)
}

/// A template with `{{ year }}` and then `{{ month }}` replaced.
pub open spec fn render_template_spec(template: Seq<char>, year: i32, month: u32) -> Seq<char> {
    replace_all(replace_all(template, "{{ year }}"@, int_str(year as int)), "{{ month }}"@, nat_str(month as nat))
}

/// Replaces `{{ year }}` and `{{ month }}` in a template.
pub fn render_template(template: &str, year: i32, month: u32) -> (res: String)
    ensures
        res@ == render_template_spec(template@, year, month),
{
    let t = chars_of(template);
    proof {
        reveal_strlit("{{ year }}");
        reveal_strlit("{{ month }}");
    }
    let y_pat = chars_of("{{ year }}");
    let y = i64_str(year as i64);
    let step1 = replace_all_exec(&t, &y_pat, &y);
    let m_pat = chars_of("{{ month }}");
    let m = u64_str(month as u64);
    let step2 = replace_all_exec(&step1, &m_pat, &m);
    string_of(&step2)
}

/// The pieces, trimmed, without the empty ones.
pub open spec fn nonempty_trimmed(pieces: Seq<Seq<char>>) -> Seq<Seq<char>>
    decreases pieces.len(),
{
    if pieces.len() == 0 {
        seq![]
    } else {
        let rest = nonempty_trimmed(pieces.drop_last());
        let t = trim(pieces.last());
        if t.len() == 0 {
            rest
        } else {
            rest.push(t)
        }
    }
}

/// The directory names that a rendered template gives.
pub open spec fn template_segments_spec(template: Seq<char>, year: i32, month: u32) -> Seq<Seq<char>> {
    nonempty_trimmed(split_char(render_template_spec(template, year, month), '/'))
}

/// Trims each piece and drops the empty ones.
pub fn nonempty_trimmed_exec(pieces: &Vec<Vec<char>>) -> (res: Vec<String>)
    ensures
        string_views(res@) == nonempty_trimmed(views(pieces@)),
{
    let mut out: Vec<String> = Vec::new();
    let mut i: usize = 0;
    assert(views(pieces@).take(0) =~= Seq::<Seq<char>>::empty());
    while i < pieces.len()
        invariant
            i <= pieces.len(),
            string_views(out@) == nonempty_trimmed(views(pieces@).take(i as int)),
        decreases pieces.len() - i,
    {
        let ghost before = views(pieces@).take(i as int);
        assert(views(pieces@).take(i + 1).drop_last() =~= before);
        assert(views(pieces@).take(i + 1).last() == pieces@[i as int]@);
        let t = trim_chars(&pieces[i]);
        if t.len() > 0 {
            let ghost o = string_views(out@);
            out.push(string_of(&t));
            assert(string_views(out@) =~= o.push(t@));
        }
        i = i + 1;
    }
    assert(views(pieces@).take(pieces.len() as int) =~= views(pieces@));
    out
}

/// The directory names of a rendered template: split at `/`, trimmed,
/// without empty names.
pub fn template_path_segments(template: &str, year: i32, month: u32) -> (res: Vec<String>)
    ensures
        string_views(res@) == template_segments_spec(template@, year, month),
{
    let r = render_template(template, year, month);
    let cs = chars_of(r.as_str());
    let pieces = split_char_exec(&cs, '/');
    nonempty_trimmed_exec(&pieces)
}

// ---------------------------------------------------------------------------
// Links.
// ---------------------------------------------------------------------------

/// `url` followed by `/` and the percent-encoded segment, for each segment.
pub open spec fn append_encoded(url: Seq<char>, segments: Seq<Seq<char>>) -> Seq<char>
    decreases segments.len(),
{
    if segments.len() == 0 {
        url
    } else {
        append_encoded(url, segments.drop_last()) + seq!['/'] + url_encode(segments.last())
    }
}

/// A directory link: the base without trailing `/`, each segment
/// percent-encoded after a `/`, and a final `/`.
pub open spec fn join_url_spec(base_url: Seq<char>, segments: Seq<Seq<char>>) -> Seq<char> {
    let url = append_encoded(trim_end_char(base_url, '/'), segments);
    if ends_with(url, seq!['/']) {
        url
    } else {
        url + seq!['/']
    }
}

pub open spec fn str_views(v: Seq<&str>) -> Seq<Seq<char>> {
    v.map_values(|x: &str| x@)
}

/// The link of a directory below `base_url`.
pub fn join_url(base_url: &str, segments: &[&str]) -> (res: String)
    ensures
        res@ == join_url_spec(base_url@, str_views(segments@)),
{
    let b = chars_of(base_url);
    let mut url = trim_end_char_exec(&b, '/');
    let ghost u0 = url@;
    let mut i: usize = 0;
    assert(str_views(segments@).take(0) =~= Seq::<Seq<char>>::empty());
    while i < segments.len()
        invariant
            i <= segments.len(),
            url@ == append_encoded(u0, str_views(segments@).take(i as int)),
        decreases segments.len() - i,
    {
        assert(str_views(segments@).take(i + 1).drop_last() =~= str_views(segments@).take(i as int));
        assert(str_views(segments@).take(i + 1).last() == segments@[i as int]@);
        url.push('/');
        let e = urlencode(segments[i]);
        let ec = chars_of(e.as_str());
        push_all(&mut url, &ec);
        i = i + 1;
    }
    assert(str_views(segments@).take(segments.len() as int) =~= str_views(segments@));
    let slash = vec!['/'];
    assert(slash@ =~= seq!['/']);
    if !ends_with_chars(&url, &slash) {
        url.push('/');
    }
    string_of(&url)
}

/// The download link of a file in a directory: the directory link with one
/// trailing `/`, the percent-encoded file name, and `?d=true`.
pub open spec fn file_url_spec(parent_url: Seq<char>, file_name: Seq<char>) -> Seq<char> {
    trim_end_char(parent_url, '/') + seq!['/'] + url_encode(file_name) + "?d=true"@
}

/// The download link of a file in the directory `parent_url`.
pub fn file_url(parent_url: &str, file_name: &str) -> (res: String)
    ensures
        res@ == file_url_spec(parent_url@, file_name@),
{
    let p = chars_of(parent_url);
    let mut url = trim_end_char_exec(&p, '/');
    url.push('/');
    let e = urlencode(file_name);
    let ec = chars_of(e.as_str());
    push_all(&mut url, &ec);
    let q = chars_of("?d=true");
    push_all(&mut url, &q);
    string_of(&url)
}

// ---------------------------------------------------------------------------
// Dates, sizes and MIME types.
// ---------------------------------------------------------------------------

/// The timestamp format of ANI listings.
pub open spec fn ani_time_format() -> Seq<char> {
    "%Y-%m-%dT%H:%M:%S%.fZ"@
}

/// The Unix timestamp of an ANI listing time such as `2024-11-10T09:01:47.000Z`.
pub fn parse_ani_timestamp(value: &str) -> (res: Option<i64>)
    ensures
        res == naive_utc_timestamp(value@, ani_time_format()),
{
    parse_naive_utc_timestamp(value, "%Y-%m-%dT%H:%M:%S%.fZ")
}

/// The Unix timestamp of an RSS date such as `Sun, 10 Nov 2024 09:01:47 GMT`.
pub fn parse_rss_timestamp(value: &str) -> (res: Option<i64>)
    ensures
        res == rfc2822_timestamp(value@),
{
    parse_rfc2822_timestamp(value)
}

/// The factor of a size unit, in ASCII upper case.
pub open spec fn size_multiplier(unit: Seq<char>) -> Option<u64> {
    if unit == "B"@ {
        Some(1)
    } else if unit == "KB"@ {
        Some(1024)
    } else if unit == "MB"@ {
        Some(0x10_0000u64)
    } else if unit == "GB"@ {
        Some(0x4000_0000u64)
    } else if unit == "TB"@ {
        Some(0x100_0000_0000u64)
    } else {
        None
    }
}

/// The size units, smallest first.
pub open spec fn size_units() -> Seq<Seq<char>> {
    seq!["B"@, "KB"@, "MB"@, "GB"@, "TB"@]
}

/// Law: the unit factors are the powers of 1024 in order (`B` is 1, each
/// unit 1024 times the one before), and no other unit has a factor.
pub proof fn law_size_units(u: Seq<char>)
    ensures
        forall|k: int| 0 <= k < 5 ==> #[trigger] size_multiplier(size_units()[k]) == Some(
            vstd::arithmetic::power::pow(1024, k as nat) as u64,
        ),
        size_multiplier(u) is Some ==> exists|k: int| 0 <= k < 5 && u == #[trigger] size_units()[k],
{
    reveal_strlit("B");
    reveal_strlit("KB");
    reveal_strlit("MB");
    reveal_strlit("GB");
    reveal_strlit("TB");
    reveal_with_fuel(vstd::arithmetic::power::pow, 5);
    assert(vstd::arithmetic::power::pow(1024, 0) == 1);
    assert(vstd::arithmetic::power::pow(1024, 1) == 1024);
    assert(vstd::arithmetic::power::pow(1024, 2) == 0x10_0000);
    assert(vstd::arithmetic::power::pow(1024, 3) == 0x4000_0000);
    assert(vstd::arithmetic::power::pow(1024, 4) == 0x100_0000_0000);
    assert("B"@.len() == 1 && "KB"@.len() == 2 && "MB"@.len() == 2 && "GB"@.len() == 2 && "TB"@.len() == 2);
    assert("KB"@[0] == 'K' && "MB"@[0] == 'M' && "GB"@[0] == 'G' && "TB"@[0] == 'T');
    if size_multiplier(u) is Some {
        if u == "B"@ {
            assert(u == size_units()[0]);
        } else if u == "KB"@ {
            assert(u == size_units()[1]);
        } else if u == "MB"@ {
            assert(u == size_units()[2]);
        } else if u == "GB"@ {
            assert(u == size_units()[3]);
        } else {
            assert(u == size_units()[4]);
        }
    }
}

/// Law: a size is read as its first whitespace-separated token and the
/// factor of its second, read in any ASCII case: the power of 1024 of that
/// unit's place among `B`, `KB`, `MB`, `GB`, `TB`.
pub proof fn law_size_parts(value: Seq<char>)
    ensures
        size_parts_spec(value) matches Some((n, f)) ==> (n == ws_tokens(value)[0] && exists|k: int|
            0 <= k < 5 && upper(ws_tokens(value)[1]) == #[trigger] size_units()[k]
                && f == vstd::arithmetic::power::pow(1024, k as nat) as u64),
{
    if ws_tokens(value).len() >= 2 {
        let u = upper(ws_tokens(value)[1]);
        law_size_units(u);
    }
}

/// The number text and the unit factor of a size such as `473.0 MB`: the
/// first two whitespace-separated tokens, the unit read in any ASCII case.
pub open spec fn size_parts_spec(value: Seq<char>) -> Option<(Seq<char>, u64)> {
    let toks = ws_tokens(value);
    if toks.len() < 2 {
        None
    } else {
        match size_multiplier(upper(toks[1])) {
            Some(m) => Some((toks[0], m)),
            None => None,
        }
    }
}

/// Splits a size such as `473.0 MB` into its number text and the factor of
/// its unit (`B`, `KB`, `MB`, `GB`, `TB`, any ASCII case).
pub fn size_parts(value: &str) -> (res: Option<(String, u64)>)
    ensures
        match res {
            Some((n, m)) => size_parts_spec(value@) == Some((n@, m)),
            None => size_parts_spec(value@) is None,
        },
{
    let cs = chars_of(value);
    let toks = ws_tokens_exec(&cs);
    if toks.len() < 2 {
        return None;
    }
    let unit = upper_chars(&toks[1]);
    let b = chars_of("B");
    let kb = chars_of("KB");
    let mb = chars_of("MB");
    let gb = chars_of("GB");
    let tb = chars_of("TB");
    let m: u64 = if chars_eq(&unit, &b) {
        1
    } else if chars_eq(&unit, &kb) {
        1024
    } else if chars_eq(&unit, &mb) {
        1024 * 1024
    } else if chars_eq(&unit, &gb) {
        1024 * 1024 * 1024
    } else if chars_eq(&unit, &tb) {
        1024 * 1024 * 1024 * 1024
    } else {
        return None;
    };
    Some((string_of(&toks[0]), m))
}

pub open spec fn is_supported_file_mime_spec(m: Seq<char>) -> bool {
    m == "video/mp4"@ || m == "video/x-matroska"@ || m == "application/octet-stream"@
        || m == "application/zip"@
}

/// Whether an ANI entry of this MIME type is imported as a file (videos,
/// subtitles, archives).
pub fn is_supported_file_mime(mime_type: &str) -> (res: bool)
    ensures
        res == is_supported_file_mime_spec(mime_type@),
{
    str_eq(mime_type, "video/mp4") || str_eq(mime_type, "video/x-matroska")
        || str_eq(mime_type, "application/octet-stream") || str_eq(mime_type, "application/zip")
}

/// Whether an ANI entry of this MIME type is a directory.
pub fn is_directory_mime(mime_type: &str) -> (res: bool)
    ensures
        res == (mime_type@ == "application/vnd.google-apps.folder"@),
{
    str_eq(mime_type, "application/vnd.google-apps.folder")
}

// ---------------------------------------------------------------------------
// RSS items.
// ---------------------------------------------------------------------------

/// What an RSS item tells of a file; the size is the text of its size tag.
#[derive(Clone, Debug, PartialEq, Eq)]
pub struct RssItem {
    pub path: Vec<String>,
    pub title: String,
    pub link: String,
    pub modified: i64,
    pub size_text: Option<String>,
}

/// The five XML entities replaced, one after the other.
pub open spec fn xml_unescape_spec(v: Seq<char>) -> Seq<char> {
    replace_all(
        replace_all(
            replace_all(replace_all(replace_all(v, "&amp;"@, "&"@), "&lt;"@, "<"@), "&gt;"@, ">"@),
            "&quot;"@,
            "\""@,
        ),
        "&apos;"@,
        "'"@,
    )
}

/// Replaces the XML entities `&amp;`, `&lt;`, `&gt;`, `&quot;`, `&apos;`.
pub fn xml_unescape(value: &str) -> (res: String)
    ensures
        res@ == xml_unescape_spec(value@),
{
    let v = chars_of(value);
    proof {
        reveal_strlit("&amp;");
        reveal_strlit("&lt;");
        reveal_strlit("&gt;");
        reveal_strlit("&quot;");
        reveal_strlit("&apos;");
    }
    let a = replace_all_exec(&v, &chars_of("&amp;"), &chars_of("&"));
    let b = replace_all_exec(&a, &chars_of("&lt;"), &chars_of("<"));
    let c = replace_all_exec(&b, &chars_of("&gt;"), &chars_of(">"));
    let d = replace_all_exec(&c, &chars_of("&quot;"), &chars_of("\""));
    let e = replace_all_exec(&d, &chars_of("&apos;"), &chars_of("'"));
    string_of(&e)
}

/// The regular expression of an XML element `tag`, its content in group 1.
pub open spec fn tag_pattern(tag: Seq<char>) -> Seq<char> {
    "(?s)<"@ + tag + "\\b[^>]*>(.*?)</"@ + tag + ">"@
}

/// The content of the first element `tag`, trimmed and unescaped.
pub open spec fn xml_tag_spec(xml: Seq<char>, tag: Seq<char>) -> Option<Seq<char>> {
    match regex_first_group(tag_pattern(tag), xml) {
        Some(v) => Some(xml_unescape_spec(trim(v))),
        None => None,
    }
}

/// The content of the first element `tag` in `xml`, trimmed and unescaped.
pub fn xml_tag(xml: &str, tag: &str) -> (res: Option<String>)
    ensures
        match res {
            Some(r) => xml_tag_spec(xml@, tag@) == Some(r@),
            None => xml_tag_spec(xml@, tag@) is None,
        },
{
    let mut p = chars_of("(?s)<");
    let t = chars_of(tag);
    push_all(&mut p, &t);
    let mid = chars_of("\\b[^>]*>(.*?)</");
    push_all(&mut p, &mid);
    push_all(&mut p, &t);
    let close = chars_of(">");
    push_all(&mut p, &close);
    assert(p@ =~= tag_pattern(tag@));
    let pattern = string_of(&p);
    match regex_captures_first(pattern.as_str(), xml) {
        Some(v) => {
            let t = crate::text::trim_str(v.as_str());
            Some(xml_unescape(t.as_str()))
        },
        None => None,
    }
}

/// The decoded segments of a link path, without those that fail to decode
/// or decode to nothing.
pub open spec fn decoded_segments(segs: Seq<Seq<char>>) -> Seq<Seq<char>>
    decreases segs.len(),
{
    if segs.len() == 0 {
        seq![]
    } else {
        let rest = decoded_segments(segs.drop_last());
        match url_decode(segs.last()) {
            Some(d) => if d.len() > 0 {
                rest.push(d)
            } else {
                rest
            },
            None => rest,
        }
    }
}

/// The segments of a link's path: after the scheme and host, before any `?`.
pub open spec fn link_segments(link: Seq<char>) -> Seq<Seq<char>> {
    let without_query = split_char(link, '?')[0];
    let pieces = split_char(without_query, '/');
    if pieces.len() < 3 { seq![] } else { pieces.skip(3) }
}

/// The segments that are not empty.
pub open spec fn nonempty_segments(segs: Seq<Seq<char>>) -> Seq<Seq<char>>
    decreases segs.len(),
{
    if segs.len() == 0 {
        seq![]
    } else if segs.last().len() > 0 {
        nonempty_segments(segs.drop_last()).push(segs.last())
    } else {
        nonempty_segments(segs.drop_last())
    }
}

/// All but the last.
pub open spec fn without_last(d: Seq<Seq<char>>) -> Seq<Seq<char>> {
    if d.len() == 0 {
        d
    } else {
        d.drop_last()
    }
}

/// The directories of a file link: its path (after the scheme and host, and
/// before any `?`) decoded, without the file name.
pub open spec fn rss_parent_path_spec(link: Seq<char>) -> Seq<Seq<char>> {
    without_last(decoded_segments(link_segments(link)))
}

pub proof fn lemma_split_nonempty(s: Seq<char>, c: char)
    ensures
        split_char(s, c).len() >= 1,
    decreases s.len(),
{
    crate::text::lemma_find_from(s, seq![c], 0);
    match crate::text::find_char(s, c) {
        Some(i) => if 0 <= i < s.len() {
            lemma_split_nonempty(s.skip(i + 1), c);
        },
        None => {},
    }
}

/// The directories that an RSS file link lies in.
pub fn rss_parent_path(link: &str) -> (res: Vec<String>)
    ensures
        string_views(res@) == rss_parent_path_spec(link@),
        // Segments without `%` are taken as they are.
        (forall|j: int| 0 <= j < link_segments(link@).len() ==> lacks(#[trigger] link_segments(link@)[j], '%'))
            ==> string_views(res@) == without_last(nonempty_segments(link_segments(link@))),
{
    let cs = chars_of(link);
    let parts = split_char_exec(&cs, '?');
    proof {
        lemma_split_nonempty(link@, '?');
    }
    let pieces = split_char_exec(&parts[0], '/');
    let ghost segs = if pieces.len() < 3 { Seq::<Seq<char>>::empty() } else { views(pieces@).skip(3) };
    let mut out: Vec<String> = Vec::new();
    let mut i: usize = 3;
    assert(segs.take(0) =~= Seq::<Seq<char>>::empty());
    while i < pieces.len()
        invariant
            3 <= i,
            pieces.len() >= 3 ==> i <= pieces.len(),
            pieces.len() >= 3 ==> segs == views(pieces@).skip(3),
            pieces.len() >= 3 ==> string_views(out@) == decoded_segments(segs.take(i - 3)),
            pieces.len() >= 3 && (forall|j: int| 0 <= j < segs.len() ==> lacks(#[trigger] segs[j], '%'))
                ==> decoded_segments(segs.take(i - 3)) == nonempty_segments(segs.take(i - 3)),
            pieces.len() < 3 ==> out@.len() == 0,
        decreases pieces.len() - i,
    {
        assert(segs.take(i - 2).drop_last() =~= segs.take(i - 3));
        assert(segs.take(i - 2).last() == pieces@[i as int]@);
        let seg = string_of(&pieces[i]);
        assert(segs[i - 3] == seg@);
        match urldecode(seg.as_str()) {
            Some(d) => {
                let dc = chars_of(d.as_str());
                if dc.len() > 0 {
                    let ghost o = string_views(out@);
                    out.push(d);
                    assert(string_views(out@) =~= o.push(dc@));
                }
            },
            None => {},
        }
        i = i + 1;
    }
    if pieces.len() >= 3 {
        assert(segs.take(pieces.len() - 3) =~= segs);
    }
    assert(views(parts@)[0] == parts@[0]@);
    assert(segs == link_segments(link@));
    if out.len() > 0 {
        let ghost o = string_views(out@);
        out.pop();
        assert(string_views(out@) =~= o.drop_last());
    }
    out
}

/// What an RSS item body gives: title, link and date are required; the size
/// comes from `anime:size`, else `anime_size`; an unreadable date gives 0.
pub open spec fn rss_item_ok(xml: Seq<char>, res: Option<RssItem>) -> bool {
    match (xml_tag_spec(xml, "title"@), xml_tag_spec(xml, "link"@), xml_tag_spec(xml, "pubDate"@)) {
        (Some(title), Some(link), Some(published)) => match res {
            Some(item) => {
                &&& item.title@ == title
                &&& item.link@ == link
                &&& item.modified == (match rfc2822_timestamp(published) {
                    Some(t) => t,
                    None => 0,
                })
                &&& string_views(item.path@) == rss_parent_path_spec(link)
                &&& match item.size_text {
                    Some(s) => (match xml_tag_spec(xml, "anime:size"@) {
                        Some(a) => s@ == a,
                        None => xml_tag_spec(xml, "anime_size"@) == Some(s@),
                    }),
                    None => xml_tag_spec(xml, "anime:size"@) is None && xml_tag_spec(xml, "anime_size"@) is None,
                }
            },
            None => false,
        },
        _ => res is None,
    }
}

/// The file that one RSS item body describes.
pub fn rss_item(xml: &str) -> (res: Option<RssItem>)
    ensures
        rss_item_ok(xml@, res),
{
    let title = match xml_tag(xml, "title") {
        Some(t) => t,
        None => return None,
    };
    let link = match xml_tag(xml, "link") {
        Some(l) => l,
        None => return None,
    };
    let published = match xml_tag(xml, "pubDate") {
        Some(p) => p,
        None => return None,
    };
    let size_text = match xml_tag(xml, "anime:size") {
        Some(s) => Some(s),
        None => xml_tag(xml, "anime_size"),
    };
    let modified = match parse_rss_timestamp(published.as_str()) {
        Some(t) => t,
        None => 0,
    };
    let path = rss_parent_path(link.as_str());
    Some(RssItem { path, title, link, modified, size_text })
}

/// The regular expression of an RSS item, its body in group 1.
pub open spec fn item_pattern() -> Seq<char> {
    "(?s)<item\\b[^>]*>(.*?)</item>"@
}

/// The files that the item bodies describe, in order; a match without a body
/// gives nothing.
pub open spec fn rss_items_ok(bodies: Seq<Option<Seq<char>>>, items: Seq<RssItem>) -> bool
    decreases bodies.len(),
{
    if bodies.len() == 0 {
        items.len() == 0
    } else {
        match bodies.last() {
            None => rss_items_ok(bodies.drop_last(), items),
            Some(body) => exists|r: Option<RssItem>| #[trigger] rss_item_ok(body, r) && match r {
                Some(it) => items.len() > 0 && items.last() == it && rss_items_ok(bodies.drop_last(), items.drop_last()),
                None => rss_items_ok(bodies.drop_last(), items),
            },
        }
    }
}

/// One step of `rss_items_ok`: a body whose item reading gave `r`.
proof fn lemma_rss_items_step(bodies: Seq<Option<Seq<char>>>, items: Seq<RssItem>, body: Seq<char>, r: Option<RssItem>)
    requires
        bodies.len() > 0,
        bodies.last() == Some(body),
        rss_item_ok(body, r),
        match r {
            Some(x) => items.len() > 0 && items.last() == x && rss_items_ok(bodies.drop_last(), items.drop_last()),
            None => rss_items_ok(bodies.drop_last(), items),
        },
    ensures
        rss_items_ok(bodies, items),
{
    let b = bodies.last()->0;
    assert(b == body);
    assert(rss_item_ok(b, r));
}

/// The files that the items of an RSS feed describe, in feed order; items
/// without title, link or date are left out.
pub fn rss_items(xml: &str) -> (res: Vec<RssItem>)
    ensures
        rss_items_ok(
            match regex_all_groups(item_pattern(), xml@) {
                Some(b) => b,
                None => seq![],
            },
            res@,
        ),
{
    let pattern = "(?s)<item\\b[^>]*>(.*?)</item>";
    let bodies = match regex_captures_all(pattern, xml) {
        Some(b) => b,
        None => Vec::new(),
    };
    let ghost bs = opt_string_views(bodies@);
    let mut out: Vec<RssItem> = Vec::new();
    let mut i: usize = 0;
    assert(bs.take(0) =~= Seq::<Option<Seq<char>>>::empty());
    while i < bodies.len()
        invariant
            i <= bodies.len(),
            bs == opt_string_views(bodies@),
            rss_items_ok(bs.take(i as int), out@),
        decreases bodies.len() - i,
    {
        let ghost prev = out@;
        assert(bs.take(i + 1).drop_last() =~= bs.take(i as int));
        assert(bs.take(i + 1).last() == bs[i as int]);
        match &bodies[i] {
            Some(body) => {
                assert(bs[i as int] == Some(body@));
                let r = rss_item(body.as_str());
                let ghost gr = r;
                let ghost nb = bs.take(i + 1);
                assert(nb.last() == Some(body@));
                assert(rss_item_ok(body@, gr));
                match r {
                    Some(it) => {
                        out.push(it);
                        assert(out@.drop_last() =~= prev);
                        assert(out@.last() == it);
                        proof { lemma_rss_items_step(nb, out@, body@, gr); }
                    },
                    None => {
                        proof { lemma_rss_items_step(nb, out@, body@, gr); }
                    },
                }
            },
            None => {
                assert(bs[i as int] is None);
                assert(rss_items_ok(bs.take(i + 1), out@));
            },
        }
        i = i + 1;
    }
    assert(bs.take(bodies.len() as int) =~= bs);
    out
}

} // verus!
