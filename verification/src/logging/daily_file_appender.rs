//! The file that receives the log lines of one day.
use vstd::prelude::*;
use crate::outside::{path_join, path_join_spec};
use crate::text::{chars_of, nat_str, push_all, repeat, repeat_chars, string_of, u64_str};

verus! {

/// An integer written in decimal and padded with zeros after its sign to
/// `width` chars, as `{:0width}` formats it.
pub open spec fn zero_pad(n: int, width: nat) -> Seq<char> {
    let digits = nat_str(if n < 0 { (-n) as nat } else { n as nat });
    let sign: Seq<char> = if n < 0 { seq!['-'] } else { seq![] };
    let fill: nat = if sign.len() + digits.len() < width {
        (width - sign.len() - digits.len()) as nat
    } else {
        0
    };
    sign + repeat(seq!['0'], fill) + digits
}

/// The name of the log file of a day: `YYYY-MM-DD.log`.
pub open spec fn log_file_name(year: int, month: int, day: int) -> Seq<char> {
    zero_pad(year, 4) + seq!['-'] + zero_pad(month, 2) + seq!['-'] + zero_pad(day, 2) + ".log"@
}

/// `n` padded with zeros after its sign to `width` chars.
pub fn zero_pad_exec(n: i64, width: usize) -> (res: Vec<char>)
    ensures
        res@ == zero_pad(n as int, width as nat),
{
    let m: u64 = if n < 0 {
        if n == i64::MIN { 0x8000_0000_0000_0000u64 } else { (-n) as u64 }
    } else {
        n as u64
    };
    let digits = u64_str(m);
    let mut out: Vec<char> = Vec::new();
    let sign_len: usize = if n < 0 { 1 } else { 0 };
    if n < 0 {
        out.push('-');
    }
    let fill: usize = if digits.len() < width && sign_len < width - digits.len() {
        width - digits.len() - sign_len
    } else {
        0
    };
    let zero = vec!['0'];
    assert(zero@ =~= seq!['0']);
    let zeros = repeat_chars(&zero, fill);
    push_all(&mut out, &zeros);
    push_all(&mut out, &digits);
    let ghost sign: Seq<char> = if n < 0 { seq!['-'] } else { seq![] };
    assert(out@ =~= sign + repeat(seq!['0'], fill as nat) + digits@);
    out
}

/// The log file of a day below `directory`.
pub fn log_file_path(directory: &str, year: i32, month: u32, day: u32) -> (res: String)
    ensures
        res@ == path_join_spec(directory@, log_file_name(year as int, month as int, day as int)),
{
    let mut name = zero_pad_exec(year as i64, 4);
    name.push('-');
    let m = zero_pad_exec(month as i64, 2);
    push_all(&mut name, &m);
    name.push('-');
    let d = zero_pad_exec(day as i64, 2);
    push_all(&mut name, &d);
    let ext = chars_of(".log");
    push_all(&mut name, &ext);
    assert(name@ =~= log_file_name(year as int, month as int, day as int));
    let file = string_of(&name);
    path_join(directory, file.as_str())
}

/// Which day's log file is open, and the directory that holds the files.
/// A write on another day opens that day's file first.
pub struct DailyLogState {
    directory: String,
    current_date: Option<(i32, u32, u32)>,
}

impl DailyLogState {
    pub closed spec fn directory_view(&self) -> Seq<char> {
        self.directory@
    }

    pub closed spec fn current_date_view(&self) -> Option<(i32, u32, u32)> {
        self.current_date
    }

    /// No file is open yet.
    pub fn new(directory: String) -> (res: DailyLogState)
        ensures
            res.directory_view() == directory@,
            res.current_date_view() is None,
    {
        DailyLogState { directory, current_date: None }
    }

    /// The file to open before writing on the given day: `None` while that
    /// day's file is the one open.
    pub fn file_to_open(&self, year: i32, month: u32, day: u32) -> (res: Option<String>)
        ensures
            res is None <==> self.current_date_view() == Some((year, month, day)),
            res matches Some(p) ==> p@ == path_join_spec(
                self.directory_view(),
                log_file_name(year as int, month as int, day as int),
            ),
    {
        match self.current_date {
            Some((y, m, d)) => {
                if y == year && m == month && d == day {
                    return None;
                }
            },
            None => {},
        }
        Some(log_file_path(self.directory.as_str(), year, month, day))
    }

    /// Records that the given day's file is now the one open.
    pub fn opened(&mut self, year: i32, month: u32, day: u32)
        ensures
            final(self).directory_view() == old(self).directory_view(),
            final(self).current_date_view() == Some((year, month, day)),
    {
        self.current_date = Some((year, month, day));
    }
}

} // verus!
