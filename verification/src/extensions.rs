//! The file suffixes that AutoFilm recognises.
use vstd::prelude::*;
use crate::text::str_eq;

verus! {

/// Video suffixes: a video becomes a `.strm` file of the same name.
pub open spec fn is_video_ext_spec(s: Seq<char>) -> bool {
    ||| s == ".mp4"@
    ||| s == ".mkv"@
    ||| s == ".flv"@
    ||| s == ".avi"@
    ||| s == ".wmv"@
    ||| s == ".ts"@
    ||| s == ".rmvb"@
    ||| s == ".webm"@
    ||| s == ".mpg"@
    ||| s == ".m2ts"@
}

/// Subtitle suffixes (companion files that may be downloaded).
pub open spec fn is_subtitle_ext_spec(s: Seq<char>) -> bool {
    s == ".ass"@ || s == ".srt"@ || s == ".ssa"@ || s == ".sub"@
}

/// Image suffixes (companion files that may be downloaded).
pub open spec fn is_image_ext_spec(s: Seq<char>) -> bool {
    s == ".png"@ || s == ".jpg"@
}

/// NFO suffixes (companion files that may be downloaded).
pub open spec fn is_nfo_ext_spec(s: Seq<char>) -> bool {
    s == ".nfo"@
}

/// Whether `s` is one of the video suffixes.
pub fn is_video_ext(s: &str) -> (res: bool)
    ensures
        res == is_video_ext_spec(s@),
{
    str_eq(s, ".mp4") || str_eq(s, ".mkv") || str_eq(s, ".flv") || str_eq(s, ".avi")
        || str_eq(s, ".wmv") || str_eq(s, ".ts") || str_eq(s, ".rmvb") || str_eq(s, ".webm")
        || str_eq(s, ".mpg") || str_eq(s, ".m2ts")
}

/// Whether `s` is one of the subtitle suffixes.
pub fn is_subtitle_ext(s: &str) -> (res: bool)
    ensures
        res == is_subtitle_ext_spec(s@),
{
    str_eq(s, ".ass") || str_eq(s, ".srt") || str_eq(s, ".ssa") || str_eq(s, ".sub")
}

/// Whether `s` is one of the image suffixes.
pub fn is_image_ext(s: &str) -> (res: bool)
    ensures
        res == is_image_ext_spec(s@),
{
    str_eq(s, ".png") || str_eq(s, ".jpg")
}

/// Whether `s` is the NFO suffix.
pub fn is_nfo_ext(s: &str) -> (res: bool)
    ensures
        res == is_nfo_ext_spec(s@),
{
    str_eq(s, ".nfo")
}

} // verus!
