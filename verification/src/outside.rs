//! The calls that the library makes into outside crates and into parts of std
//! that vstd does not specify. Each item here is trusted: its contract is
//! believed by Verus, not proved.
use vstd::prelude::*;
use std::path::Path;
use crate::text::lacks;

verus! {

// ---------------------------------------------------------------------------
// urlencoding
// ---------------------------------------------------------------------------

/// An upper-case hexadecimal digit.
pub open spec fn hex_upper(d: u8) -> char {
    if d < 10 {
        ((d as u32) + ('0' as u32)) as char
    } else {
        ((d as u32) - 10 + ('A' as u32)) as char
    }
}

/// Bytes that `urlencoding::encode` leaves as they are.
pub open spec fn is_url_safe_byte(b: u8) -> bool {
    ||| 0x30 <= b <= 0x39
    ||| 0x41 <= b <= 0x5a
    ||| 0x61 <= b <= 0x7a
    ||| b == 0x2d
    ||| b == 0x2e
    ||| b == 0x5f
    ||| b == 0x7e
}

/// How `urlencoding::encode` writes one byte.
pub open spec fn encode_byte(b: u8) -> Seq<char> {
    if is_url_safe_byte(b) {
        seq![b as char]
    } else {
        seq!['%', hex_upper(b / 16), hex_upper(b % 16)]
    }
}

/// Percent-encoding of a string: every byte of its UTF-8 encoding except
/// ASCII alphanumerics and `-`, `_`, `.`, `~` becomes `%XX` with upper-case
/// hexadecimal digits.
pub open spec fn url_encode(s: Seq<char>) -> Seq<char> {
    vstd::utf8::encode_utf8(s).flat_map(|b: u8| encode_byte(b))
}

/// Calls `urlencoding::encode`. Its documentation and source state that it
/// percent-encodes every byte of the UTF-8 encoding except alphanumerics and
/// `-`, `_`, `.`, `~`, with upper-case hexadecimal digits; that is what
/// `url_encode` says.
#[verifier::external_body]
pub(crate) fn urlencode(s: &str) -> (res: String)
    ensures
        res@ == url_encode(s@),
{
    urlencoding::encode(s).into_owned()
}

/// What `urlencoding::decode` returns for a string: `None` where the decoded
/// bytes are not UTF-8.
pub uninterp spec fn url_decode(s: Seq<char>) -> Option<Seq<char>>;

/// Calls `urlencoding::decode`; the result, taken as `Option`, is named
/// `url_decode` of the argument. One fact is claimed, as its source shows
/// (`decode_binary` hands back input without `%` unchanged): text without
/// `%` decodes to itself.
#[verifier::external_body]
pub(crate) fn urldecode(s: &str) -> (res: Option<String>)
    ensures
        res.is_some() == url_decode(s@).is_some(),
        res matches Some(r) ==> r@ == url_decode(s@)->0,
        lacks(s@, '%') ==> res.is_some(),
        res matches Some(r) ==> (lacks(s@, '%') ==> r@ == s@),
{
    urlencoding::decode(s).ok().map(|c| c.into_owned())
}

// ---------------------------------------------------------------------------
// regex
// ---------------------------------------------------------------------------

/// What the first match of a regular expression in a text captures in its
/// first group (`None` when the pattern is invalid, nothing matches or the
/// group does not take part).
pub uninterp spec fn regex_first_group(pattern: Seq<char>, text: Seq<char>) -> Option<Seq<char>>;

/// What the successive non-overlapping matches of a regular expression in a
/// text capture in their first group, one entry per match (`None` inside
/// where the group does not take part; `None` outside when the pattern is
/// invalid).
pub uninterp spec fn regex_all_groups(pattern: Seq<char>, text: Seq<char>) -> Option<Seq<Option<Seq<char>>>>;

/// The texts of optional strings.
pub open spec fn opt_string_views(v: Seq<Option<String>>) -> Seq<Option<Seq<char>>> {
    v.map_values(|o: Option<String>| match o {
        Some(x) => Some(x@),
        None => None,
    })
}

/// Compiles `pattern` with `regex::Regex::new` and takes the text of group 1
/// of `Regex::captures` on `text`; the result is named `regex_first_group`
/// of the two arguments. Nothing more is claimed of it.
#[verifier::external_body]
pub(crate) fn regex_captures_first(pattern: &str, text: &str) -> (res: Option<String>)
    ensures
        res.is_some() == regex_first_group(pattern@, text@).is_some(),
        res matches Some(r) ==> r@ == regex_first_group(pattern@, text@)->0,
{
    let re = regex::Regex::new(pattern).ok()?;
    re.captures(text)?.get(1).map(|m| m.as_str().to_string())
}

/// Compiles `pattern` with `regex::Regex::new` and takes, for every match
/// of `Regex::captures_iter` on `text` in order, the text of its group 1 if
/// that group took part; the result is named `regex_all_groups` of the two
/// arguments. Nothing more is claimed of it.
#[verifier::external_body]
pub(crate) fn regex_captures_all(pattern: &str, text: &str) -> (res: Option<Vec<Option<String>>>)
    ensures
        res.is_some() == regex_all_groups(pattern@, text@).is_some(),
        res matches Some(r) ==> opt_string_views(r@) == regex_all_groups(pattern@, text@)->0,
{
    let re = regex::Regex::new(pattern).ok()?;
    Some(re.captures_iter(text).map(|c| c.get(1).map(|m| m.as_str().to_string())).collect())
}

// ---------------------------------------------------------------------------
// serde_json
// ---------------------------------------------------------------------------

/// The string value of the field `key` of the JSON object in `text`, if
/// `text` is JSON whose top level is an object holding a string there.
pub uninterp spec fn json_str_field(text: Seq<char>, key: Seq<char>) -> Option<Seq<char>>;

/// The JSON text of the object in `text` with the field `key` set to the
/// string `value`, if `text` is a JSON object.
pub uninterp spec fn json_object_with_str(text: Seq<char>, key: Seq<char>, value: Seq<char>) -> Option<Seq<char>>;

/// Whether `serde_json` reads `text` as a JSON object (a `serde_json::Map`).
pub uninterp spec fn json_is_object(text: Seq<char>) -> bool;

/// The value of the field `key` of the JSON object in `text`, as
/// `serde_json::to_string` writes the `Value` that `Value::get` gives, if
/// there is such a field.
pub uninterp spec fn json_field_text(text: Seq<char>, key: Seq<char>) -> Option<Seq<char>>;

/// Whether the value of the field `key` of the JSON object in `text` holds,
/// at any depth, a number that `serde_json` reads as a float.
pub uninterp spec fn json_field_has_float(text: Seq<char>, key: Seq<char>) -> bool;

/// Reads `text` with `serde_json::from_str` as a `serde_json::Value`, takes
/// `Value::get(key)` and `Value::as_str`; the result is named
/// `json_str_field` of the two arguments. Nothing more is claimed of it.
#[verifier::external_body]
pub(crate) fn json_get_str(text: &str, key: &str) -> (res: Option<String>)
    ensures
        res.is_some() == json_str_field(text@, key@).is_some(),
        res matches Some(r) ==> r@ == json_str_field(text@, key@)->0,
{
    serde_json::from_str::<serde_json::Value>(text).ok()?.get(key)?.as_str().map(|v| v.to_string())
}

/// Reads `text` with `serde_json::from_str` as a `serde_json::Map` (which
/// succeeds only for a JSON object), sets `key` to the string `value` with
/// `Map::insert` and writes the map back with `serde_json::to_string`; the
/// result is named `json_object_with_str` of the three arguments.
///
/// Facts claimed, as the source shows them: writing a `Map<String, Value>`
/// never fails, so the result is there exactly when `text` is a JSON object
/// (`{}` is one), and it is a JSON object again; reading it back gives the
/// string just set; `Map::insert` leaves every other key alone, so other
/// string fields read back as before, and so does every other field that
/// holds no float. A float is not claimed: without the `float_roundtrip`
/// feature, `f64_from_parts` multiplies or divides by a power of ten, so a
/// written float can be read back one unit off. Set on `{}`, the result holds
/// no other field.
#[verifier::external_body]
pub(crate) fn json_set_str(text: &str, key: &str, value: &str) -> (res: Option<String>)
    ensures
        res.is_some() == json_object_with_str(text@, key@, value@).is_some(),
        res matches Some(r) ==> r@ == json_object_with_str(text@, key@, value@)->0,
        res.is_some() == json_is_object(text@),
        text@ == "{}"@ ==> res.is_some(),
        res matches Some(r) ==> json_is_object(r@),
        res matches Some(r) ==> json_str_field(r@, key@) == Some(value@),
        res matches Some(r) ==> forall|k: Seq<char>| k != key@ ==> json_str_field(r@, k) == json_str_field(text@, k),
        res matches Some(r) ==> forall|k: Seq<char>| k != key@ && !json_field_has_float(text@, k)
            ==> json_field_text(r@, k) == json_field_text(text@, k),
        res matches Some(r) ==> (text@ == "{}"@ ==> forall|k: Seq<char>| k != key@ ==> json_field_text(r@, k) is None),
{
    let mut map = serde_json::from_str::<serde_json::Map<String, serde_json::Value>>(text).ok()?;
    map.insert(key.to_string(), serde_json::Value::String(value.to_string()));
    serde_json::to_string(&map).ok()
}

// ---------------------------------------------------------------------------
// chrono
// ---------------------------------------------------------------------------

/// The Unix timestamp of a date-time read from `value` with the format `fmt`
/// and taken as UTC, if `value` matches the format.
pub uninterp spec fn naive_utc_timestamp(value: Seq<char>, fmt: Seq<char>) -> Option<i64>;

/// The Unix timestamp of an RFC 2822 date-time, if `value` is one.
pub uninterp spec fn rfc2822_timestamp(value: Seq<char>) -> Option<i64>;

/// Calls `chrono::NaiveDateTime::parse_from_str` and converts a success with
/// `and_utc().timestamp()`; the result is named `naive_utc_timestamp` of the
/// two arguments. Nothing more is claimed of it.
#[verifier::external_body]
pub(crate) fn parse_naive_utc_timestamp(value: &str, fmt: &str) -> (res: Option<i64>)
    ensures
        res == naive_utc_timestamp(value@, fmt@),
{
    chrono::NaiveDateTime::parse_from_str(value, fmt).ok().map(|d| d.and_utc().timestamp())
}

/// Calls `chrono::DateTime::parse_from_rfc2822` and converts a success with
/// `timestamp()`; the result is named `rfc2822_timestamp` of the argument.
/// Nothing more is claimed of it.
#[verifier::external_body]
pub(crate) fn parse_rfc2822_timestamp(value: &str) -> (res: Option<i64>)
    ensures
        res == rfc2822_timestamp(value@),
{
    chrono::DateTime::parse_from_rfc2822(value).ok().map(|d| d.timestamp())
}

// ---------------------------------------------------------------------------
// std::path (Unix paths, held as text)
// ---------------------------------------------------------------------------

/// The text of `Path::join` of two paths.
pub uninterp spec fn path_join_spec(base: Seq<char>, rel: Seq<char>) -> Seq<char>;

/// The text of a path after `PathBuf::set_extension`.
pub uninterp spec fn path_with_extension(path: Seq<char>, ext: Seq<char>) -> Seq<char>;

/// The text of `Path::strip_prefix`, when `base` is a prefix of `path` by components.
pub uninterp spec fn path_strip_prefix_spec(path: Seq<char>, base: Seq<char>) -> Option<Seq<char>>;

/// Whether two paths are equal by `Path`'s `==` (component-wise).
pub uninterp spec fn path_eq_spec(a: Seq<char>, b: Seq<char>) -> bool;

/// The text of `Path::parent`.
pub uninterp spec fn path_parent_spec(path: Seq<char>) -> Option<Seq<char>>;

/// Calls `Path::join`; the result is named `path_join_spec` of the two
/// arguments. Nothing more is claimed of it.
#[verifier::external_body]
pub(crate) fn path_join(base: &str, rel: &str) -> (res: String)
    ensures
        res@ == path_join_spec(base@, rel@),
{
    Path::new(base).join(rel).to_string_lossy().into_owned()
}

/// Calls `PathBuf::set_extension`; the result is named `path_with_extension`
/// of the two arguments. Nothing more is claimed of it. An extension that
/// holds a path separator is left out, as `set_extension` may panic on it.
#[verifier::external_body]
pub(crate) fn path_set_extension(path: &str, ext: &str) -> (res: String)
    requires
        lacks(ext@, '/'),
        lacks(ext@, '\\'),
    ensures
        res@ == path_with_extension(path@, ext@),
{
    let mut p = std::path::PathBuf::from(path);
    p.set_extension(ext);
    p.to_string_lossy().into_owned()
}

/// Calls `Path::strip_prefix`; the result, taken as `Option`, is named
/// `path_strip_prefix_spec` of the two arguments. One fact is claimed, as its
/// documentation states it: the path it returns, joined onto `base`, gives
/// back `path` (as paths, by `Path`'s `==`); `Path` is `Eq`, so the joined
/// path compares with every path as `path` does.
#[verifier::external_body]
pub(crate) fn path_strip_prefix(path: &str, base: &str) -> (res: Option<String>)
    ensures
        res.is_some() == path_strip_prefix_spec(path@, base@).is_some(),
        res matches Some(r) ==> r@ == path_strip_prefix_spec(path@, base@)->0,
        res matches Some(r) ==> path_eq_spec(path_join_spec(base@, r@), path@),
        res matches Some(r) ==> forall|c: Seq<char>|
            #[trigger] path_eq_spec(path_join_spec(base@, r@), c) == path_eq_spec(path@, c),
{
    Path::new(path).strip_prefix(base).ok().map(|p| p.to_string_lossy().into_owned())
}

/// Compares two paths with `Path`'s `==`; the result is named `path_eq_spec`
/// of the two arguments. `Path` is `Eq`, so `==` on paths is an equivalence:
/// equal texts are equal paths, the comparison is symmetric, and two equal
/// paths compare alike with every path. Those are the facts claimed.
#[verifier::external_body]
pub(crate) fn path_eq(a: &str, b: &str) -> (res: bool)
    ensures
        res == path_eq_spec(a@, b@),
        a@ == b@ ==> res,
        res == path_eq_spec(b@, a@),
        res ==> forall|c: Seq<char>| #[trigger] path_eq_spec(a@, c) == path_eq_spec(b@, c),
        res ==> forall|c: Seq<char>| #[trigger] path_eq_spec(c, a@) == path_eq_spec(c, b@),
{
    Path::new(a) == Path::new(b)
}

/// Calls `Path::parent`; the result is named `path_parent_spec` of the
/// argument. Nothing more is claimed of it.
#[verifier::external_body]
pub(crate) fn path_parent(path: &str) -> (res: Option<String>)
    ensures
        res.is_some() == path_parent_spec(path@).is_some(),
        res matches Some(r) ==> r@ == path_parent_spec(path@)->0,
{
    Path::new(path).parent().map(|p| p.to_string_lossy().into_owned())
}

} // verus!
