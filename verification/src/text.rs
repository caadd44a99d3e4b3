use vstd::prelude::*;

verus! {

broadcast use vstd::string::group_string_axioms;

// ---------------------------------------------------------------------------
// Mathematical model of text: a string is its sequence of chars.
// ---------------------------------------------------------------------------

/// `p` occurs in `s` starting at index `i`.
pub open spec fn occurs_at(s: Seq<char>, p: Seq<char>, i: int) -> bool {
    0 <= i && i + p.len() <= s.len() && s.subrange(i, i + p.len()) == p
}

/// `s` begins with `p`.
pub open spec fn starts_with(s: Seq<char>, p: Seq<char>) -> bool {
    occurs_at(s, p, 0)
}

/// `s` ends with `p`.
pub open spec fn ends_with(s: Seq<char>, p: Seq<char>) -> bool {
    p.len() <= s.len() && occurs_at(s, p, s.len() - p.len())
}

/// `p` occurs somewhere in `s`.
pub open spec fn contains(s: Seq<char>, p: Seq<char>) -> bool {
    exists|i: int| occurs_at(s, p, i)
}

/// The first index at or after `i` where `p` occurs in `s`.
pub open spec fn find_from(s: Seq<char>, p: Seq<char>, i: int) -> Option<int>
    decreases s.len() + 1 - i,
{
    if i < 0 || i + p.len() > s.len() {
        None
    } else if occurs_at(s, p, i) {
        Some(i)
    } else {
        find_from(s, p, i + 1)
    }
}

/// The first index where `p` occurs in `s` (what `str::find` returns).
pub open spec fn find(s: Seq<char>, p: Seq<char>) -> Option<int> {
    find_from(s, p, 0)
}

/// The last index of the char `c` in `s` (what `str::rfind` returns for a char).
pub open spec fn rfind_char(s: Seq<char>, c: char) -> Option<int>
    decreases s.len(),
{
    if s.len() == 0 {
        None
    } else if s.last() == c {
        Some(s.len() - 1)
    } else {
        rfind_char(s.drop_last(), c)
    }
}

/// The first index of the char `c` in `s`.
pub open spec fn find_char(s: Seq<char>, c: char) -> Option<int> {
    find(s, seq![c])
}

/// Unicode `White_Space` property, as used by `char::is_whitespace` and `str::trim`.
pub open spec fn is_ws(c: char) -> bool {
    ||| '\u{9}' <= c <= '\u{d}'
    ||| c == ' '
    ||| c == '\u{85}'
    ||| c == '\u{a0}'
    ||| c == '\u{1680}'
    ||| '\u{2000}' <= c <= '\u{200a}'
    ||| c == '\u{2028}'
    ||| c == '\u{2029}'
    ||| c == '\u{202f}'
    ||| c == '\u{205f}'
    ||| c == '\u{3000}'
}

/// `s` without its leading whitespace (`str::trim_start`).
pub open spec fn trim_start(s: Seq<char>) -> Seq<char>
    decreases s.len(),
{
    if s.len() > 0 && is_ws(s[0]) {
        trim_start(s.drop_first())
    } else {
        s
    }
}

/// `s` without its trailing whitespace (`str::trim_end`).
pub open spec fn trim_end(s: Seq<char>) -> Seq<char>
    decreases s.len(),
{
    if s.len() > 0 && is_ws(s.last()) {
        trim_end(s.drop_last())
    } else {
        s
    }
}

/// `s` without leading and trailing whitespace (`str::trim`).
pub open spec fn trim(s: Seq<char>) -> Seq<char> {
    trim_end(trim_start(s))
}

/// `s` without any leading copies of `c` (`str::trim_start_matches(c)`).
pub open spec fn trim_start_char(s: Seq<char>, c: char) -> Seq<char>
    decreases s.len(),
{
    if s.len() > 0 && s[0] == c {
        trim_start_char(s.drop_first(), c)
    } else {
        s
    }
}

/// `s` without any trailing copies of `c` (`str::trim_end_matches(c)`).
pub open spec fn trim_end_char(s: Seq<char>, c: char) -> Seq<char>
    decreases s.len(),
{
    if s.len() > 0 && s.last() == c {
        trim_end_char(s.drop_last(), c)
    } else {
        s
    }
}

/// ASCII lower-casing of one char (`char::to_ascii_lowercase`).
pub open spec fn lower_char(c: char) -> char {
    if 'A' <= c <= 'Z' {
        ((c as u32) + 32) as char
    } else {
        c
    }
}

/// ASCII lower-casing of a string (`str::to_ascii_lowercase`).
pub open spec fn lower(s: Seq<char>) -> Seq<char> {
    s.map_values(|c: char| lower_char(c))
}

/// The pieces of `s` between the occurrences of `c` (`str::split(c)`).
pub open spec fn split_char(s: Seq<char>, c: char) -> Seq<Seq<char>>
    decreases s.len(),
{
    match find_char(s, c) {
        None => seq![s],
        Some(i) => if 0 <= i < s.len() {
            seq![s.take(i)] + split_char(s.skip(i + 1), c)
        } else {
            seq![s]
        },
    }
}

/// `s` with every non-overlapping occurrence of `from`, left to right,
/// replaced by `to` (`str::replace` with a non-empty pattern).
pub open spec fn replace_all(s: Seq<char>, from: Seq<char>, to: Seq<char>) -> Seq<char>
    decreases s.len(),
{
    if from.len() == 0 {
        s
    } else {
        match find(s, from) {
            None => s,
            Some(i) => if 0 <= i && i + from.len() <= s.len() {
                s.take(i) + to + replace_all(s.skip(i + from.len()), from, to)
            } else {
                s
            },
        }
    }
}

/// `s` repeated `n` times (`str::repeat`).
pub open spec fn repeat(s: Seq<char>, n: nat) -> Seq<char>
    decreases n,
{
    if n == 0 {
        seq![]
    } else {
        repeat(s, (n - 1) as nat) + s
    }
}

/// The ASCII digit for a value below ten.
pub open spec fn digit_char(d: nat) -> char {
    (('0' as u32) + d) as char
}

/// The value of an ASCII digit.
pub open spec fn digit_value(c: char) -> nat {
    ((c as u32) - ('0' as u32)) as nat
}

pub open spec fn is_digit(c: char) -> bool {
    '0' <= c <= '9'
}

/// Decimal representation of a natural number, without leading zeros.
pub open spec fn nat_str(n: nat) -> Seq<char>
    decreases n,
{
    if n < 10 {
        seq![digit_char(n)]
    } else {
        nat_str(n / 10).push(digit_char(n % 10))
    }
}

/// Decimal representation of an integer, with a leading `-` when negative
/// (what `Display` writes for the integer types).
pub open spec fn int_str(n: int) -> Seq<char> {
    if n < 0 {
        seq!['-'] + nat_str((-n) as nat)
    } else {
        nat_str(n as nat)
    }
}

/// The value of a sequence of decimal digits.
pub open spec fn digits_value(s: Seq<char>) -> nat
    decreases s.len(),
{
    if s.len() == 0 {
        0
    } else {
        digits_value(s.drop_last()) * 10 + digit_value(s.last())
    }
}

pub open spec fn all_digits(s: Seq<char>) -> bool {
    forall|i: int| 0 <= i < s.len() ==> is_digit(#[trigger] s[i])
}

/// What `str::parse::<u64>` returns: an optional `+` followed by at least
/// one decimal digit, whose value fits in a `u64`.
pub open spec fn parse_u64(s: Seq<char>) -> Option<u64> {
    let d = if s.len() > 0 && s[0] == '+' { s.drop_first() } else { s };
    if d.len() > 0 && all_digits(d) && digits_value(d) <= u64::MAX {
        Some(digits_value(d) as u64)
    } else {
        None
    }
}

/// What `str::parse::<i64>` returns: an optional `+` or `-` followed by at
/// least one decimal digit, whose signed value fits in an `i64`.
pub open spec fn parse_i64(s: Seq<char>) -> Option<i64> {
    if s.len() > 0 && s[0] == '-' {
        let d = s.drop_first();
        if d.len() > 0 && all_digits(d) && digits_value(d) <= 0x8000_0000_0000_0000 {
            Some((-(digits_value(d) as int)) as i64)
        } else {
            None
        }
    } else {
        let d = if s.len() > 0 && s[0] == '+' { s.drop_first() } else { s };
        if d.len() > 0 && all_digits(d) && digits_value(d) <= i64::MAX {
            Some(digits_value(d) as i64)
        } else {
            None
        }
    }
}

// ---------------------------------------------------------------------------
// Conversions between `str`/`String` and vectors of chars.
// ---------------------------------------------------------------------------

/// Appends one character to a `String`.
///
/// Trusted: calls `String::push` of std, which (as its documentation
/// states) appends the given char to the end of the string.
#[verifier::external_body]
pub(crate) fn string_push(s: &mut String, c: char)
    ensures
        final(s)@ == old(s)@.push(c),
{
    s.push(c);
}

/// The characters of a string slice, in order.
pub fn chars_of(s: &str) -> (res: Vec<char>)
    ensures
        res@ == s@,
{
    let mut res: Vec<char> = Vec::new();
    for c in it: s.chars()
        invariant
            res@ == it.seq().take(it.index()),
            it.seq() == s@,
    {
        res.push(c);
    }
    res
}

/// A string made of the given chars.
pub fn string_of(cs: &[char]) -> (res: String)
    ensures
        res@ == cs@,
{
    let mut res = String::new();
    let mut i: usize = 0;
    while i < cs.len()
        invariant
            i <= cs.len(),
            res@ == cs@.take(i as int),
        decreases cs.len() - i,
    {
        string_push(&mut res, cs[i]);
        i = i + 1;
        assert(cs@.take(i as int) == cs@.take(i - 1).push(cs@[i - 1]));
    }
    assert(cs@.take(cs.len() as int) == cs@);
    res
}

/// The chars `cs[from..to]` as a new vector.
pub fn slice_chars(cs: &[char], from: usize, to: usize) -> (res: Vec<char>)
    requires
        from <= to <= cs.len(),
    ensures
        res@ == cs@.subrange(from as int, to as int),
{
    let mut res: Vec<char> = Vec::new();
    let mut i = from;
    while i < to
        invariant
            from <= i <= to <= cs.len(),
            res@ == cs@.subrange(from as int, i as int),
        decreases to - i,
    {
        res.push(cs[i]);
        i = i + 1;
    }
    res
}

/// Appends `other` to the vector `v`.
pub fn push_all(v: &mut Vec<char>, other: &[char])
    ensures
        final(v)@ == old(v)@ + other@,
{
    let mut i: usize = 0;
    while i < other.len()
        invariant
            i <= other.len(),
            v@ == old(v)@ + other@.take(i as int),
        decreases other.len() - i,
    {
        v.push(other[i]);
        i = i + 1;
        assert(other@.take(i as int) == other@.take(i - 1).push(other@[i - 1]));
    }
    assert(other@.take(other.len() as int) == other@);
}

/// Appends a string slice to a `String`.
pub fn push_str(s: &mut String, other: &str)
    ensures
        final(s)@ == old(s)@ + other@,
{
    let cs = chars_of(other);
    let mut i: usize = 0;
    while i < cs.len()
        invariant
            i <= cs.len(),
            cs@ == other@,
            s@ == old(s)@ + cs@.take(i as int),
        decreases cs.len() - i,
    {
        string_push(s, cs[i]);
        i = i + 1;
        assert(cs@.take(i as int) == cs@.take(i - 1).push(cs@[i - 1]));
    }
    assert(cs@.take(cs.len() as int) == cs@);
}

/// A copy of a string slice as a `String`.
pub fn to_string(s: &str) -> (res: String)
    ensures
        res@ == s@,
{
    let cs = chars_of(s);
    string_of(&cs)
}

/// The concatenation of two string slices.
pub fn concat(a: &str, b: &str) -> (res: String)
    ensures
        res@ == a@ + b@,
{
    let mut r = to_string(a);
    push_str(&mut r, b);
    r
}

/// Equality of two string slices.
pub fn str_eq(a: &str, b: &str) -> (res: bool)
    ensures
        res == (a@ == b@),
{
    let x = chars_of(a);
    let y = chars_of(b);
    chars_eq(&x, &y)
}

/// Equality of two char sequences.
pub fn chars_eq(x: &[char], y: &[char]) -> (res: bool)
    ensures
        res == (x@ == y@),
{
    if x.len() != y.len() {
        return false;
    }
    let mut i: usize = 0;
    while i < x.len()
        invariant
            x.len() == y.len(),
            i <= x.len(),
            forall|j: int| 0 <= j < i ==> x@[j] == y@[j],
        decreases x.len() - i,
    {
        if x[i] != y[i] {
            return false;
        }
        i = i + 1;
    }
    assert(x@ =~= y@);
    true
}

/// The char sequences held by a sequence of char vectors.
pub open spec fn views(v: Seq<Vec<char>>) -> Seq<Seq<char>> {
    v.map_values(|x: Vec<char>| x@)
}

// ---------------------------------------------------------------------------
// Searching.
// ---------------------------------------------------------------------------

/// What `find_from` means: the first occurrence at or after `i`, or none.
pub proof fn lemma_find_from(s: Seq<char>, p: Seq<char>, i: int)
    requires
        0 <= i,
    ensures
        match find_from(s, p, i) {
            Some(k) => i <= k && occurs_at(s, p, k) && forall|j: int|
                i <= j < k ==> !occurs_at(s, p, j),
            None => forall|j: int| i <= j ==> !occurs_at(s, p, j),
        },
    decreases s.len() + 1 - i,
{
    if i + p.len() > s.len() {
    } else if occurs_at(s, p, i) {
    } else {
        lemma_find_from(s, p, i + 1);
    }
}

/// Whether `p` occurs in `s` at index `i`.
pub fn matches_at(s: &[char], p: &[char], i: usize) -> (res: bool)
    ensures
        res == occurs_at(s@, p@, i as int),
{
    if i > s.len() || p.len() > s.len() - i {
        return false;
    }
    let mut k: usize = 0;
    while k < p.len()
        invariant
            i + p.len() <= s.len(),
            k <= p.len(),
            forall|j: int| 0 <= j < k ==> s@[i + j] == p@[j],
        decreases p.len() - k,
    {
        if s[i + k] != p[k] {
            assert(s@.subrange(i as int, i + p.len())[k as int] != p@[k as int]);
            return false;
        }
        k = k + 1;
    }
    assert(s@.subrange(i as int, i + p.len()) =~= p@);
    true
}

/// The first index at or after `from` where `p` occurs in `s`.
pub fn find_chars(s: &[char], p: &[char], from: usize) -> (res: Option<usize>)
    ensures
        match res {
            Some(k) => find_from(s@, p@, from as int) == Some(k as int) && k + p.len() <= s.len(),
            None => find_from(s@, p@, from as int) is None,
        },
{
    let mut i = from;
    while i <= s.len() && p.len() <= s.len() - i
        invariant
            from <= i,
            find_from(s@, p@, from as int) == find_from(s@, p@, i as int),
        decreases s.len() + 1 - i,
    {
        if matches_at(s, p, i) {
            return Some(i);
        }
        if i >= s.len() {
            proof {
                if p.len() == 0 {
                    assert(s@.subrange(i as int, i as int) =~= p@);
                }
            }
            return None;
        }
        i = i + 1;
    }
    None
}

/// The first index where `p` occurs in `s`.
pub fn find_first(s: &[char], p: &[char]) -> (res: Option<usize>)
    ensures
        match res {
            Some(k) => find(s@, p@) == Some(k as int) && k + p.len() <= s.len(),
            None => find(s@, p@) is None,
        },
{
    find_chars(s, p, 0)
}

/// Whether `p` occurs somewhere in `s`.
pub fn contains_chars(s: &[char], p: &[char]) -> (res: bool)
    ensures
        res == contains(s@, p@),
{
    proof {
        lemma_find_from(s@, p@, 0);
    }
    find_chars(s, p, 0).is_some()
}

/// Whether `s` begins with `p`.
pub fn starts_with_chars(s: &[char], p: &[char]) -> (res: bool)
    ensures
        res == starts_with(s@, p@),
{
    matches_at(s, p, 0)
}

/// Whether `s` ends with `p`.
pub fn ends_with_chars(s: &[char], p: &[char]) -> (res: bool)
    ensures
        res == ends_with(s@, p@),
{
    if p.len() > s.len() {
        false
    } else {
        matches_at(s, p, s.len() - p.len())
    }
}

/// What `rfind_char` means: the last index holding `c`, or none.
pub proof fn lemma_rfind_char(s: Seq<char>, c: char)
    ensures
        match rfind_char(s, c) {
            Some(k) => 0 <= k < s.len() && s[k] == c && forall|j: int|
                k < j < s.len() ==> s[j] != c,
            None => forall|j: int| 0 <= j < s.len() ==> s[j] != c,
        },
    decreases s.len(),
{
    if s.len() > 0 && s.last() != c {
        lemma_rfind_char(s.drop_last(), c);
        assert(forall|j: int| 0 <= j < s.len() - 1 ==> s.drop_last()[j] == s[j]);
    }
}

/// The last index of `c` in `s`.
pub fn rfind_char_exec(s: &[char], c: char) -> (res: Option<usize>)
    ensures
        match res {
            Some(k) => rfind_char(s@, c) == Some(k as int) && k < s.len(),
            None => rfind_char(s@, c) is None,
        },
{
    proof {
        lemma_rfind_char(s@, c);
    }
    let mut n = s.len();
    assert(s@.take(n as int) =~= s@);
    while n > 0
        invariant
            n <= s.len(),
            rfind_char(s@, c) == rfind_char(s@.take(n as int), c),
        decreases n,
    {
        assert(s@.take(n as int).drop_last() =~= s@.take(n - 1));
        if s[n - 1] == c {
            return Some(n - 1);
        }
        n = n - 1;
    }
    None
}

/// The first index of `c` in `s`.
pub fn find_char_exec(s: &[char], c: char) -> (res: Option<usize>)
    ensures
        match res {
            Some(k) => find_char(s@, c) == Some(k as int) && k < s.len(),
            None => find_char(s@, c) is None,
        },
{
    let p = vec![c];
    assert(p@ =~= seq![c]);
    find_chars(s, &p, 0)
}

// ---------------------------------------------------------------------------
// Trimming and case.
// ---------------------------------------------------------------------------

pub fn is_ws_exec(c: char) -> (res: bool)
    ensures
        res == is_ws(c),
{
    ('\u{9}' <= c && c <= '\u{d}') || c == ' ' || c == '\u{85}' || c == '\u{a0}'
        || c == '\u{1680}' || ('\u{2000}' <= c && c <= '\u{200a}') || c == '\u{2028}'
        || c == '\u{2029}' || c == '\u{202f}' || c == '\u{205f}' || c == '\u{3000}'
}

/// `trim_start` of a sequence is a suffix of it.
pub fn trim_start_index(s: &[char]) -> (res: usize)
    ensures
        res <= s.len(),
        trim_start(s@) == s@.skip(res as int),
        forall|j: int| 0 <= j < res ==> is_ws(#[trigger] s@[j]),
{
    let mut i: usize = 0;
    assert(s@.skip(0) =~= s@);
    while i < s.len() && is_ws_exec(s[i])
        invariant
            i <= s.len(),
            trim_start(s@) == trim_start(s@.skip(i as int)),
            forall|j: int| 0 <= j < i ==> is_ws(#[trigger] s@[j]),
        decreases s.len() - i,
    {
        assert(s@.skip(i as int).drop_first() =~= s@.skip(i + 1));
        i = i + 1;
    }
    i
}

/// `trim_end` of a sequence is a prefix of it.
pub fn trim_end_index(s: &[char]) -> (res: usize)
    ensures
        res <= s.len(),
        trim_end(s@) == s@.take(res as int),
        forall|j: int| res <= j < s.len() ==> is_ws(#[trigger] s@[j]),
{
    let mut n: usize = s.len();
    assert(s@.take(n as int) =~= s@);
    while n > 0 && is_ws_exec(s[n - 1])
        invariant
            n <= s.len(),
            trim_end(s@) == trim_end(s@.take(n as int)),
            forall|j: int| n <= j < s.len() ==> is_ws(#[trigger] s@[j]),
        decreases n,
    {
        assert(s@.take(n as int).drop_last() =~= s@.take(n - 1));
        n = n - 1;
    }
    n
}

/// `str::trim` on a char sequence.
pub fn trim_chars(s: &[char]) -> (res: Vec<char>)
    ensures
        res@ == trim(s@),
{
    let a = trim_start_index(s);
    let t = slice_chars(s, a, s.len());
    let b = trim_end_index(&t);
    slice_chars(&t, 0, b)
}

/// `str::trim` on a string slice.
pub fn trim_str(s: &str) -> (res: String)
    ensures
        res@ == trim(s@),
{
    let cs = chars_of(s);
    let t = trim_chars(&cs);
    string_of(&t)
}

/// `str::trim_start_matches(c)` on a char sequence.
pub fn trim_start_char_exec(s: &[char], c: char) -> (res: Vec<char>)
    ensures
        res@ == trim_start_char(s@, c),
{
    let mut i: usize = 0;
    assert(s@.skip(0) =~= s@);
    while i < s.len() && s[i] == c
        invariant
            i <= s.len(),
            trim_start_char(s@, c) == trim_start_char(s@.skip(i as int), c),
        decreases s.len() - i,
    {
        assert(s@.skip(i as int).drop_first() =~= s@.skip(i + 1));
        i = i + 1;
    }
    slice_chars(s, i, s.len())
}

/// `str::trim_end_matches(c)` on a char sequence.
pub fn trim_end_char_exec(s: &[char], c: char) -> (res: Vec<char>)
    ensures
        res@ == trim_end_char(s@, c),
{
    let mut n: usize = s.len();
    assert(s@.take(n as int) =~= s@);
    while n > 0 && s[n - 1] == c
        invariant
            n <= s.len(),
            trim_end_char(s@, c) == trim_end_char(s@.take(n as int), c),
        decreases n,
    {
        assert(s@.take(n as int).drop_last() =~= s@.take(n - 1));
        n = n - 1;
    }
    slice_chars(s, 0, n)
}

/// `char::to_ascii_lowercase`.
pub fn lower_char_exec(c: char) -> (res: char)
    ensures
        res == lower_char(c),
{
    if 'A' <= c && c <= 'Z' {
        let b = c as u8;
        (b + 32) as char
    } else {
        c
    }
}

/// `str::to_ascii_lowercase` on a char sequence.
pub fn lower_chars(s: &[char]) -> (res: Vec<char>)
    ensures
        res@ == lower(s@),
{
    let mut res: Vec<char> = Vec::new();
    let mut i: usize = 0;
    while i < s.len()
        invariant
            i <= s.len(),
            res@ == lower(s@.take(i as int)),
        decreases s.len() - i,
    {
        res.push(lower_char_exec(s[i]));
        i = i + 1;
        assert(lower(s@.take(i as int)) =~= lower(s@.take(i - 1)).push(lower_char(s@[i - 1])));
    }
    assert(s@.take(s.len() as int) =~= s@);
    res
}

// ---------------------------------------------------------------------------
// Splitting, replacing, repeating.
// ---------------------------------------------------------------------------

/// `str::split(c)` on a char sequence.
pub fn split_char_exec(s: &[char], c: char) -> (res: Vec<Vec<char>>)
    ensures
        views(res@) == split_char(s@, c),
{
    let mut pieces: Vec<Vec<char>> = Vec::new();
    let mut rest: Vec<char> = slice_chars(s, 0, s.len());
    assert(rest@ =~= s@);
    assert(views(pieces@) =~= Seq::<Seq<char>>::empty());
    loop
        invariant
            split_char(s@, c) == views(pieces@) + split_char(rest@, c),
        decreases rest.len(),
    {
        let ghost old_pieces = views(pieces@);
        let ghost r = rest@;
        match find_char_exec(&rest, c) {
            None => {
                assert(split_char(r, c) == seq![r]);
                pieces.push(rest);
                assert(views(pieces@) =~= old_pieces + seq![r]);
                return pieces;
            },
            Some(i) => {
                proof {
                    lemma_find_from(rest@, seq![c], 0);
                }
                let head = slice_chars(&rest, 0, i);
                let tail = slice_chars(&rest, i + 1, rest.len());
                assert(head@ == rest@.take(i as int));
                assert(tail@ == rest@.skip(i + 1));
                assert(split_char(r, c) == seq![r.take(i as int)] + split_char(r.skip(i + 1), c));
                pieces.push(head);
                assert(views(pieces@) =~= old_pieces + seq![r.take(i as int)]);
                rest = tail;
            },
        }
    }
}

/// `str::replace(from, to)` on a char sequence, for a non-empty pattern.
pub fn replace_all_exec(s: &[char], from: &[char], to: &[char]) -> (res: Vec<char>)
    requires
        from.len() > 0,
    ensures
        res@ == replace_all(s@, from@, to@),
{
    let mut out: Vec<char> = Vec::new();
    let mut rest: Vec<char> = slice_chars(s, 0, s.len());
    assert(rest@ =~= s@);
    assert(out@ =~= Seq::<char>::empty());
    loop
        invariant
            from.len() > 0,
            replace_all(s@, from@, to@) == out@ + replace_all(rest@, from@, to@),
        decreases rest.len(),
    {
        let ghost r = rest@;
        match find_first(&rest, from) {
            None => {
                assert(replace_all(r, from@, to@) == r);
                push_all(&mut out, &rest);
                return out;
            },
            Some(i) => {
                proof {
                    lemma_find_from(rest@, from@, 0);
                }
                let head = slice_chars(&rest, 0, i);
                let tail = slice_chars(&rest, i + from.len(), rest.len());
                assert(head@ == rest@.take(i as int));
                assert(replace_all(r, from@, to@) == r.take(i as int) + to@ + replace_all(r.skip(i + from.len()), from@, to@));
                push_all(&mut out, &head);
                push_all(&mut out, to);
                rest = tail;
                assert(rest@ == r.skip(i + from.len()));
            },
        }
    }
}

/// `str::repeat(n)` on a char sequence.
pub fn repeat_chars(s: &[char], n: usize) -> (res: Vec<char>)
    ensures
        res@ == repeat(s@, n as nat),
{
    let mut out: Vec<char> = Vec::new();
    let mut k: usize = 0;
    assert(out@ =~= repeat(s@, 0));
    while k < n
        invariant
            k <= n,
            out@ == repeat(s@, k as nat),
        decreases n - k,
    {
        push_all(&mut out, s);
        k = k + 1;
    }
    out
}

// ---------------------------------------------------------------------------
// Decimal numbers.
// ---------------------------------------------------------------------------

pub fn digit_char_exec(d: u64) -> (res: char)
    requires
        d < 10,
    ensures
        res == digit_char(d as nat),
{
    let b: u8 = 48u8 + (d as u8);
    b as char
}

/// Decimal representation of a `u64` (what `u64::to_string` gives).
pub fn u64_str(n: u64) -> (res: Vec<char>)
    ensures
        res@ == nat_str(n as nat),
    decreases n,
{
    if n < 10 {
        vec![digit_char_exec(n)]
    } else {
        let mut v = u64_str(n / 10);
        v.push(digit_char_exec(n % 10));
        v
    }
}

/// Decimal representation of an `i64` (what `i64::to_string` gives).
pub fn i64_str(n: i64) -> (res: Vec<char>)
    ensures
        res@ == int_str(n as int),
{
    if n < 0 {
        let m: u64 = if n == i64::MIN { 0x8000_0000_0000_0000u64 } else { (-n) as u64 };
        let digits = u64_str(m);
        let mut v: Vec<char> = vec!['-'];
        push_all(&mut v, &digits);
        v
    } else {
        u64_str(n as u64)
    }
}

pub proof fn lemma_digits_value_prefix_le(s: Seq<char>, k: int)
    requires
        0 <= k <= s.len(),
    ensures
        digits_value(s.take(k)) <= digits_value(s),
    decreases s.len() - k,
{
    if k < s.len() {
        lemma_digits_value_prefix_le(s, k + 1);
        assert(s.take(k + 1).drop_last() =~= s.take(k));
        let a = digits_value(s.take(k));
        let b = digits_value(s.take(k + 1));
        assert(b == a * 10 + digit_value(s.take(k + 1).last()));
        assert(a <= a * 10) by (nonlinear_arith);
    } else {
        assert(s.take(k) =~= s);
    }
}

/// The value of a run of decimal digits, if it fits in a `u64`.
pub fn digits_value_exec(d: &[char]) -> (res: Option<u64>)
    requires
        all_digits(d@),
    ensures
        match res {
            Some(v) => v == digits_value(d@),
            None => digits_value(d@) > u64::MAX,
        },
{
    let mut acc: u64 = 0;
    let mut i: usize = 0;
    while i < d.len()
        invariant
            i <= d.len(),
            all_digits(d@),
            acc == digits_value(d@.take(i as int)),
        decreases d.len() - i,
    {
        assert(d@.take(i + 1).drop_last() =~= d@.take(i as int));
        assert(is_digit(d@[i as int]));
        let dv: u64 = ((d[i] as u32) - 48u32) as u64;
        match acc.checked_mul(10) {
            None => {
                proof {
                    lemma_digits_value_prefix_le(d@, i + 1);
                }
                return None;
            },
            Some(m) => match m.checked_add(dv) {
                None => {
                    proof {
                        lemma_digits_value_prefix_le(d@, i + 1);
                    }
                    return None;
                },
                Some(v) => {
                    acc = v;
                },
            },
        }
        i = i + 1;
    }
    assert(d@.take(d.len() as int) =~= d@);
    Some(acc)
}

pub fn is_digit_exec(c: char) -> (res: bool)
    ensures
        res == is_digit(c),
{
    '0' <= c && c <= '9'
}

pub fn all_digits_exec(d: &[char]) -> (res: bool)
    ensures
        res == all_digits(d@),
{
    let mut i: usize = 0;
    while i < d.len()
        invariant
            i <= d.len(),
            forall|j: int| 0 <= j < i ==> is_digit(#[trigger] d@[j]),
        decreases d.len() - i,
    {
        if !is_digit_exec(d[i]) {
            return false;
        }
        i = i + 1;
    }
    true
}

/// `str::parse::<u64>` on a char sequence (`None` for an error).
pub fn parse_u64_exec(s: &[char]) -> (res: Option<u64>)
    ensures
        res == parse_u64(s@),
{
    let d = if s.len() > 0 && s[0] == '+' { slice_chars(s, 1, s.len()) } else { slice_chars(s, 0, s.len()) };
    assert(d@ == (if s@.len() > 0 && s@[0] == '+' { s@.drop_first() } else { s@ }));
    if d.len() == 0 || !all_digits_exec(&d) {
        return None;
    }
    digits_value_exec(&d)
}

/// `str::parse::<i64>` on a char sequence (`None` for an error).
pub fn parse_i64_exec(s: &[char]) -> (res: Option<i64>)
    ensures
        res == parse_i64(s@),
{
    if s.len() > 0 && s[0] == '-' {
        let d = slice_chars(s, 1, s.len());
        assert(d@ == s@.drop_first());
        if d.len() == 0 || !all_digits_exec(&d) {
            return None;
        }
        match digits_value_exec(&d) {
            None => None,
            Some(v) => {
                if v <= 0x8000_0000_0000_0000u64 {
                    if v == 0x8000_0000_0000_0000u64 {
                        Some(i64::MIN)
                    } else {
                        Some(-(v as i64))
                    }
                } else {
                    None
                }
            },
        }
    } else {
        let d = if s.len() > 0 && s[0] == '+' { slice_chars(s, 1, s.len()) } else { slice_chars(s, 0, s.len()) };
        assert(d@ == (if s@.len() > 0 && s@[0] == '+' { s@.drop_first() } else { s@ }));
        if d.len() == 0 || !all_digits_exec(&d) {
            return None;
        }
        match digits_value_exec(&d) {
            None => None,
            Some(v) => if v <= i64::MAX as u64 { Some(v as i64) } else { None },
        }
    }
}

// ---------------------------------------------------------------------------
// Upper case and whitespace-separated tokens.
// ---------------------------------------------------------------------------

/// ASCII upper-casing of one char (`char::to_ascii_uppercase`).
pub open spec fn upper_char(c: char) -> char {
    if 'a' <= c <= 'z' {
        ((c as u32) - 32) as char
    } else {
        c
    }
}

/// ASCII upper-casing of a string (`str::to_ascii_uppercase`).
pub open spec fn upper(s: Seq<char>) -> Seq<char> {
    s.map_values(|c: char| upper_char(c))
}

/// `str::to_ascii_uppercase` on a char sequence.
pub fn upper_chars(s: &[char]) -> (res: Vec<char>)
    ensures
        res@ == upper(s@),
{
    let mut res: Vec<char> = Vec::new();
    let mut i: usize = 0;
    while i < s.len()
        invariant
            i <= s.len(),
            res@ == upper(s@.take(i as int)),
        decreases s.len() - i,
    {
        let c = s[i];
        let u = if 'a' <= c && c <= 'z' {
            let b = c as u8;
            (b - 32) as char
        } else {
            c
        };
        res.push(u);
        i = i + 1;
        assert(upper(s@.take(i as int)) =~= upper(s@.take(i - 1)).push(upper_char(s@[i - 1])));
    }
    assert(s@.take(s.len() as int) =~= s@);
    res
}

/// The number of leading chars of `s` that are not whitespace.
pub open spec fn token_len(s: Seq<char>) -> nat
    decreases s.len(),
{
    if s.len() == 0 || is_ws(s[0]) {
        0
    } else {
        1 + token_len(s.drop_first())
    }
}

pub proof fn lemma_token_len_bound(s: Seq<char>)
    ensures
        token_len(s) <= s.len(),
    decreases s.len(),
{
    if s.len() > 0 && !is_ws(s[0]) {
        lemma_token_len_bound(s.drop_first());
    }
}

/// The whitespace-separated tokens of `s` (`str::split_whitespace`).
pub open spec fn ws_tokens(s: Seq<char>) -> Seq<Seq<char>>
    decreases s.len(),
{
    if s.len() == 0 {
        seq![]
    } else if is_ws(s[0]) {
        ws_tokens(s.drop_first())
    } else {
        let n = token_len(s);
        proof {
            lemma_token_len_bound(s);
        }
        seq![s.take(n as int)] + ws_tokens(s.skip(n as int))
    }
}

/// `str::split_whitespace` on a char sequence.
pub fn ws_tokens_exec(s: &[char]) -> (res: Vec<Vec<char>>)
    ensures
        views(res@) == ws_tokens(s@),
{
    let mut toks: Vec<Vec<char>> = Vec::new();
    let mut i: usize = 0;
    assert(s@.skip(0) =~= s@);
    assert(views(toks@) =~= Seq::<Seq<char>>::empty());
    while i < s.len()
        invariant
            i <= s.len(),
            ws_tokens(s@) == views(toks@) + ws_tokens(s@.skip(i as int)),
        decreases s.len() - i,
    {
        if is_ws_exec(s[i]) {
            assert(s@.skip(i as int).drop_first() =~= s@.skip(i + 1));
            i = i + 1;
        } else {
            let mut j = i;
            assert(s@.skip(j as int) =~= s@.skip(i as int));
            while j < s.len() && !is_ws_exec(s[j])
                invariant
                    i <= j <= s.len(),
                    token_len(s@.skip(i as int)) == (j - i) + token_len(s@.skip(j as int)),
                decreases s.len() - j,
            {
                assert(s@.skip(j as int).drop_first() =~= s@.skip(j + 1));
                j = j + 1;
            }
            let tok = slice_chars(s, i, j);
            let ghost before = views(toks@);
            let ghost rest = s@.skip(i as int);
            assert(tok@ =~= rest.take(token_len(rest) as int));
            assert(rest.skip(token_len(rest) as int) =~= s@.skip(j as int));
            toks.push(tok);
            assert(views(toks@) =~= before.push(tok@));
            i = j;
        }
    }
    assert(s@.skip(s.len() as int) =~= Seq::<char>::empty());
    toks
}

// ---------------------------------------------------------------------------
// Facts about the model used by round-trip proofs.
// ---------------------------------------------------------------------------

/// `c` does not occur in `s`.
pub open spec fn lacks(s: Seq<char>, c: char) -> bool {
    forall|i: int| 0 <= i < s.len() ==> s[i] != c
}

pub proof fn lemma_find_first_at(s: Seq<char>, p: Seq<char>, k: int)
    requires
        0 <= k,
        occurs_at(s, p, k),
        forall|j: int| 0 <= j < k ==> !occurs_at(s, p, j),
    ensures
        find(s, p) == Some(k),
{
    lemma_find_from_first_at(s, p, 0, k);
}

pub proof fn lemma_find_from_first_at(s: Seq<char>, p: Seq<char>, i: int, k: int)
    requires
        0 <= i <= k,
        occurs_at(s, p, k),
        forall|j: int| i <= j < k ==> !occurs_at(s, p, j),
    ensures
        find_from(s, p, i) == Some(k),
    decreases k - i,
{
    if i < k {
        lemma_find_from_first_at(s, p, i + 1, k);
    }
}

pub proof fn lemma_find_none(s: Seq<char>, p: Seq<char>)
    requires
        forall|j: int| 0 <= j ==> !occurs_at(s, p, j),
    ensures
        find(s, p) is None,
{
    lemma_find_from(s, p, 0);
}

/// Replacing a char that the text lacks changes nothing.
pub proof fn lemma_replace_lacks(s: Seq<char>, c: char, to: Seq<char>)
    requires
        lacks(s, c),
    ensures
        replace_all(s, seq![c], to) == s,
{
    assert forall|j: int| 0 <= j implies !occurs_at(s, seq![c], j) by {
        if occurs_at(s, seq![c], j) {
            assert(s.subrange(j, j + 1)[0] == s[j]);
        }
    }
    lemma_find_none(s, seq![c]);
}

/// Splitting a text that lacks the separator gives the text.
pub proof fn lemma_split_lacks(s: Seq<char>, c: char)
    requires
        lacks(s, c),
    ensures
        split_char(s, c) == seq![s],
{
    lemma_find_from(s, seq![c], 0);
    if find_char(s, c) is Some {
        let k = find_char(s, c)->0;
        assert(s.subrange(k, k + 1)[0] == s[k]);
    }
}

/// Splitting `a c b` at `c`, where `a` lacks `c`, gives `a` and the pieces of `b`.
pub proof fn lemma_split_cons(a: Seq<char>, c: char, b: Seq<char>)
    requires
        lacks(a, c),
    ensures
        split_char(a + seq![c] + b, c) == seq![a] + split_char(b, c),
{
    let s = a + seq![c] + b;
    assert(occurs_at(s, seq![c], a.len() as int)) by {
        assert(s.subrange(a.len() as int, a.len() as int + 1) =~= seq![c]);
    }
    assert forall|j: int| 0 <= j < a.len() implies !occurs_at(s, seq![c], j) by {
        assert(s.subrange(j, j + 1)[0] == a[j]);
    }
    lemma_find_first_at(s, seq![c], a.len() as int);
    assert(s.take(a.len() as int) =~= a);
    assert(s.skip(a.len() as int + 1) =~= b);
}

pub proof fn lemma_nat_str(n: nat)
    ensures
        nat_str(n).len() >= 1,
        all_digits(nat_str(n)),
        digits_value(nat_str(n)) == n,
        lacks(nat_str(n), ':'),
        lacks(nat_str(n), '-'),
        lacks(nat_str(n), '+'),
    decreases n,
{
    lemma_digit_roundtrip(n % 10);
    if n >= 10 {
        lemma_nat_str(n / 10);
        let s = nat_str(n);
        assert(s.drop_last() =~= nat_str(n / 10));
        assert(digits_value(s) == digits_value(nat_str(n / 10)) * 10 + digit_value(s.last()));
        assert((n / 10) * 10 + n % 10 == n) by (nonlinear_arith);
        assert forall|i: int| 0 <= i < s.len() implies is_digit(#[trigger] s[i]) by {
            if i < s.len() - 1 {
                assert(s[i] == nat_str(n / 10)[i]);
            }
        }
        assert forall|i: int| 0 <= i < s.len() implies s[i] != ':' && s[i] != '-' && s[i] != '+' by {
            assert(is_digit(s[i]));
        }
    } else {
        let s = nat_str(n);
        assert(s.drop_last() =~= Seq::<char>::empty());
        assert(digits_value(s.drop_last()) == 0);
        assert(n % 10 == n);
    }
}

pub proof fn lemma_digit_roundtrip(d: nat)
    requires
        d < 10,
    ensures
        digit_value(digit_char(d)) == d,
        is_digit(digit_char(d)),
{
    let c = digit_char(d);
    assert(c as u32 == 48 + d);
}

pub proof fn lemma_parse_nat_str(n: u64)
    ensures
        parse_u64(nat_str(n as nat)) == Some(n),
{
    lemma_nat_str(n as nat);
    let s = nat_str(n as nat);
    assert(is_digit(s[0]));
}

pub proof fn lemma_parse_int_str(m: i64)
    ensures
        parse_i64(int_str(m as int)) == Some(m),
        int_str(m as int).len() >= 1,
        lacks(int_str(m as int), ':'),
        is_digit(int_str(m as int).last()),
        forall|i: int| 0 <= i < int_str(m as int).len() ==> is_digit(#[trigger] int_str(m as int)[i]) || int_str(m as int)[i] == '-',
{
    if m < 0 {
        let d = nat_str((-m) as nat);
        lemma_nat_str((-m) as nat);
        let s = int_str(m as int);
        assert(s == seq!['-'] + d);
        assert(s.drop_first() =~= d);
        assert(s.last() == d.last());
        assert(is_digit(d[d.len() - 1]));
        assert forall|i: int| 0 <= i < s.len() implies s[i] != ':' by {
            if i > 0 {
                assert(s[i] == d[i - 1]);
            }
        }
        assert forall|i: int| 0 <= i < s.len() implies is_digit(#[trigger] s[i]) || s[i] == '-' by {
            if i > 0 {
                assert(s[i] == d[i - 1]);
            }
        }
    } else {
        lemma_nat_str(m as nat);
        let s = nat_str(m as nat);
        assert(is_digit(s[0]));
        assert(is_digit(s[s.len() - 1]));
    }
}

pub proof fn lemma_trim_start_nonws(s: Seq<char>)
    requires
        s.len() > 0,
        !is_ws(s[0]),
    ensures
        trim_start(s) == s,
{
}

pub proof fn lemma_trim_end_nonws(s: Seq<char>)
    requires
        s.len() > 0,
        !is_ws(s.last()),
    ensures
        trim_end(s) == s,
{
}

/// Trimming text that begins and ends with non-whitespace changes nothing.
pub proof fn lemma_trim_nonws(s: Seq<char>)
    requires
        s.len() > 0,
        !is_ws(s[0]),
        !is_ws(s.last()),
    ensures
        trim(s) == s,
{
    lemma_trim_start_nonws(s);
    lemma_trim_end_nonws(s);
}

/// `trim_start` gives text that is empty or begins with non-whitespace.
pub proof fn lemma_trim_start_shape(s: Seq<char>)
    ensures
        trim_start(s).len() == 0 || !is_ws(trim_start(s)[0]),
        trim_start(s).len() <= s.len(),
        trim_start(s) == s.skip(s.len() - trim_start(s).len()),
    decreases s.len(),
{
    if s.len() > 0 && is_ws(s[0]) {
        lemma_trim_start_shape(s.drop_first());
        assert(s.drop_first().skip(s.drop_first().len() - trim_start(s).len()) =~= s.skip(s.len() - trim_start(s).len()));
    } else {
        assert(s.skip(0) =~= s);
    }
}

/// `trim_end` gives a prefix that is empty or ends with non-whitespace.
pub proof fn lemma_trim_end_shape(s: Seq<char>)
    ensures
        trim_end(s).len() == 0 || !is_ws(trim_end(s).last()),
        trim_end(s).len() <= s.len(),
        trim_end(s) == s.take(trim_end(s).len() as int),
    decreases s.len(),
{
    if s.len() > 0 && is_ws(s.last()) {
        lemma_trim_end_shape(s.drop_last());
        assert(s.drop_last().take(trim_end(s).len() as int) =~= s.take(trim_end(s).len() as int));
    } else {
        assert(s.take(s.len() as int) =~= s);
    }
}

/// Trimmed text is empty or begins and ends with non-whitespace.
pub proof fn lemma_trim_shape(s: Seq<char>)
    ensures
        trim(s).len() == 0 || (!is_ws(trim(s)[0]) && !is_ws(trim(s).last())),
{
    lemma_trim_start_shape(s);
    let a = trim_start(s);
    lemma_trim_end_shape(a);
    if trim(s).len() > 0 {
        assert(trim(s)[0] == a[0]);
    }
}

/// ASCII lower-casing keeps whitespace and non-whitespace apart, and a
/// second lower-casing changes nothing.
pub proof fn lemma_lower_char(c: char)
    ensures
        is_ws(lower_char(c)) == is_ws(c),
        lower_char(lower_char(c)) == lower_char(c),
{
    if 'A' <= c <= 'Z' {
        assert('a' <= lower_char(c) <= 'z');
    }
}

/// Lower-casing keeps the length and the whitespace-ness of each char, and is
/// idempotent.
pub proof fn lemma_lower(s: Seq<char>)
    ensures
        lower(s).len() == s.len(),
        forall|i: int| 0 <= i < s.len() ==> is_ws(#[trigger] lower(s)[i]) == is_ws(s[i]),
        lower(lower(s)) == lower(s),
{
    assert forall|i: int| 0 <= i < s.len() implies is_ws(#[trigger] lower(s)[i]) == is_ws(s[i]) by {
        lemma_lower_char(s[i]);
    }
    assert forall|i: int| 0 <= i < s.len() implies #[trigger] lower(lower(s))[i] == lower(s)[i] by {
        lemma_lower_char(s[i]);
    }
    assert(lower(lower(s)) =~= lower(s));
}

/// Leading spaces are trimmed.
pub proof fn lemma_trim_start_spaces(k: nat, s: Seq<char>)
    ensures
        trim_start(repeat(seq![' '], k) + s) == trim_start(s),
    decreases k,
{
    if k > 0 {
        let t = repeat(seq![' '], k) + s;
        lemma_repeat_space(k);
        assert(t[0] == ' ');
        assert(t.drop_first() =~= repeat(seq![' '], (k - 1) as nat) + s) by {
            lemma_repeat_space((k - 1) as nat);
            assert forall|i: int| 0 <= i < t.len() - 1 implies t.drop_first()[i] == (repeat(seq![' '], (k - 1) as nat) + s)[i] by {
                if i < k - 1 {
                } else {
                }
            }
        }
        lemma_trim_start_spaces((k - 1) as nat, s);
    } else {
        assert(repeat(seq![' '], 0) + s =~= s);
    }
}

/// `repeat(" ", k)` is `k` spaces.
/// `n` copies of a one-char text are `n` chars long.
pub proof fn lemma_repeat_len(s: Seq<char>, n: nat)
    requires
        s.len() == 1,
    ensures
        repeat(s, n).len() == n,
    decreases n,
{
    if n > 0 {
        lemma_repeat_len(s, (n - 1) as nat);
    }
}

pub proof fn lemma_repeat_space(k: nat)
    ensures
        repeat(seq![' '], k).len() == k,
        forall|i: int| 0 <= i < k ==> #[trigger] repeat(seq![' '], k)[i] == ' ',
    decreases k,
{
    if k > 0 {
        lemma_repeat_space((k - 1) as nat);
        let r = repeat(seq![' '], k);
        assert(r == repeat(seq![' '], (k - 1) as nat) + seq![' ']);
    }
}

} // verus!
