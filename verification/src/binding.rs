//! The decisions of the Python binding: table status and location, the
//! guards on reading and writing, the names that the binding accepts for
//! table kinds and code pages, and the textual forms of dates, date-times
//! and field specifications that it exchanges with Python.

use vstd::prelude::*;
use crate::codec::Outcome;
use crate::codepage::{
    TextEncoding, encode_str, encode_text, encoding_for_mark, encoding_of_mark, mark_for_name,
    mark_of_name,
};
use crate::header::{
    CodePageMark, DbfKind, FieldDescriptor, FieldModel, FieldType, flag_binary, flag_nullable,
};
use crate::text::{
    char_utf8_len, chars_of, find_char, is_digit, is_space, lemma_find_char_is,
    lemma_trim_no_space, lemma_word_len_is, lower_all, lower_chars, parse_unsigned,
    parse_unsigned_chars, split_chars, split_on, string_from_chars, sub_chars, trim, trim_chars,
    upper_all, utf8_len, words,
};
use crate::value::{
    Value, ValueModel, decimal, decimal_chars, Date, DateTime, date_from_text,
    lemma_decimal_digits, zero_padded, zero_padded_chars,
};
use crate::error::{Error, ErrorKind};
use crate::spec::{FieldSpecModel, default_dimensions, spec_from_text};

verus! {

// ---------------------------------------------------------------------------
// Calendar
// ---------------------------------------------------------------------------

/// Rust's `/` on integers: the quotient truncated toward zero (`b > 0`).
pub open spec fn tdiv(a: int, b: int) -> int {
    if a >= 0 {
        a / b
    } else {
        -((-a) / b)
    }
}

/// The Julian day number of a proleptic Gregorian date.
pub open spec fn julian_day_of(year: int, month: int, day: int) -> int {
    let a = tdiv(14 - month, 12);
    let y = year + 4800 - a;
    let m = month + 12 * a - 3;
    day + tdiv(153 * m + 2, 5) + 365 * y + tdiv(y, 4) - tdiv(y, 100) + tdiv(y, 400) - 32045
}

/// `a / b` as Rust computes it on `i32` (`b > 0`).
fn div_i32(a: i32, b: i32) -> (q: i32)
    requires
        b > 0,
        a > i32::MIN,
    ensures
        q == tdiv(a as int, b as int),
{
    if a >= 0 {
        a / b
    } else {
        -((-a) / b)
    }
}

/// The Julian day number of a Gregorian date (year, month and day as the
/// `D` field and the date-time conversion hand them over).
pub fn gregorian_to_julian_day(year: i32, month: i32, day: i32) -> (jd: i32)
    requires
        0 <= year <= 65535,
        0 <= month <= 255,
        0 <= day <= 255,
    ensures
        jd == julian_day_of(year as int, month as int, day as int),
{
    let a = div_i32(14 - month, 12);
    let y = year + 4800 - a;
    let m = month + 12 * a - 3;
    let q = div_i32(153 * m + 2, 5);
    day + q + 365 * y + div_i32(y, 4) - div_i32(y, 100) + div_i32(y, 400) - 32045
}

/// The proleptic Gregorian year, month and day of a Julian day number.
pub open spec fn ymd_of_julian(jd: int) -> (int, int, int) {
    let a = jd + 32044;
    let b = (4 * a + 3) / 146097;
    let c = a - (146097 * b) / 4;
    let d = (4 * c + 3) / 1461;
    let e = c - (1461 * d) / 4;
    let m = (5 * e + 2) / 153;
    (100 * b + d - 4800 + m / 10, m + 3 - 12 * (m / 10), e - (153 * m + 2) / 5 + 1)
}

/// The date of a Julian day number, for positive day numbers.
pub fn julian_day_to_ymd(julian_day: i32) -> (r: Option<(i32, u32, u32)>)
    ensures
        julian_day <= 0 ==> r is None,
        julian_day > 0 ==> r == Some(
            (
                ymd_of_julian(julian_day as int).0 as i32,
                ymd_of_julian(julian_day as int).1 as u32,
                ymd_of_julian(julian_day as int).2 as u32,
            ),
        ),
{
    if julian_day <= 0 {
        return None;
    }
    let a: i64 = julian_day as i64 + 32044;
    let b: i64 = (4 * a + 3) / 146_097;
    assert(146_097 * b <= 4 * a + 3);
    let c: i64 = a - (146_097 * b) / 4;
    assert(0 <= c <= a);
    let d: i64 = (4 * c + 3) / 1_461;
    assert(1_461 * d <= 4 * c + 3);
    let e: i64 = c - (1_461 * d) / 4;
    assert(0 <= e <= c);
    let m: i64 = (5 * e + 2) / 153;
    let day: i64 = e - (153 * m + 2) / 5 + 1;
    let month: i64 = m + 3 - 12 * (m / 10);
    let year: i64 = 100 * b + d - 4_800 + m / 10;
    #[verifier::truncate]
    let y32 = year as i32;
    #[verifier::truncate]
    let m32 = month as u32;
    #[verifier::truncate]
    let d32 = day as u32;
    Some((y32, m32, d32))
}

// ---------------------------------------------------------------------------
// Errors
// ---------------------------------------------------------------------------

/// The Python exception classes that the binding raises.
#[derive(Debug, Clone, Copy, PartialEq, Eq, Structural)]
pub enum ApiErrorKind {
    /// `RuntimeError`.
    Runtime,
    /// `ValueError`.
    Value,
    /// `TypeError`.
    Type,
    /// `fastdbf.DbfFormatError` (a `fastdbf.FastDbfError`).
    DbfFormat,
    /// `fastdbf.UnsupportedDbfTypeError` (a `fastdbf.FastDbfError`).
    UnsupportedDbfType,
    /// `KeyError`.
    Key,
    /// `IOError`.
    Io,
}

/// An exception that the binding raises: its class and its message.
#[derive(Debug, Clone, PartialEq, Eq)]
pub struct ApiError {
    pub kind: ApiErrorKind,
    pub message: String,
}

/// The exception class that a library error is raised as.
pub open spec fn api_kind_of(k: ErrorKind) -> ApiErrorKind {
    match k {
        ErrorKind::Io => ApiErrorKind::Io,
        ErrorKind::FieldNotFound => ApiErrorKind::Key,
        ErrorKind::InvalidFieldSpec | ErrorKind::Overflow => ApiErrorKind::Value,
        ErrorKind::InvalidFormat => ApiErrorKind::DbfFormat,
        ErrorKind::Unsupported => ApiErrorKind::UnsupportedDbfType,
    }
}

/// The exception that a library error is raised as, carrying its message.
pub fn api_error_of(e: Error) -> (a: ApiError)
    ensures
        a.kind == api_kind_of(e.kind()),
        a.message@ == match e {
            Error::Io(m) | Error::FieldNotFound(m) | Error::InvalidFieldSpec(m) | Error::Overflow(m)
            | Error::InvalidFormat(m) | Error::Unsupported(m) => m@,
        },
{
    match e {
        Error::Io(m) => ApiError { kind: ApiErrorKind::Io, message: m },
        Error::FieldNotFound(m) => ApiError { kind: ApiErrorKind::Key, message: m },
        Error::InvalidFieldSpec(m) | Error::Overflow(m) => ApiError {
            kind: ApiErrorKind::Value,
            message: m,
        },
        Error::InvalidFormat(m) => ApiError { kind: ApiErrorKind::DbfFormat, message: m },
        Error::Unsupported(m) => ApiError { kind: ApiErrorKind::UnsupportedDbfType, message: m },
    }
}

/// An exception of class `kind` with the message `text`.
pub fn api_error(kind: ApiErrorKind, text: &str) -> (a: ApiError)
    ensures
        a.kind == kind,
        a.message@ == text@,
{
    ApiError { kind, message: crate::error::plain_message(text) }
}

// ---------------------------------------------------------------------------
// Dates and date-times as ISO text
// ---------------------------------------------------------------------------

/// `n` as `format!("{:0width$}", n)` writes a signed number: zero-padded,
/// the sign counting toward the width.
pub open spec fn padded_int(n: int, width: nat) -> Seq<char> {
    if n < 0 {
        seq!['-'] + zero_padded(
            (-n) as nat,
            if width >= 1 {
                (width - 1) as nat
            } else {
                0
            },
        )
    } else {
        zero_padded(n as nat, width)
    }
}

fn padded_int_chars(n: i64, width: usize) -> (v: Vec<char>)
    requires
        n > i64::MIN,
    ensures
        v@ == padded_int(n as int, width as nat),
{
    if n < 0 {
        let mut v: Vec<char> = Vec::new();
        v.push('-');
        let w = if width >= 1 { width - 1 } else { 0 };
        let mut z = zero_padded_chars((-n) as u64, w);
        v.append(&mut z);
        proof {
            assert(v@ =~= seq!['-'] + zero_padded((-n) as nat, w as nat));
        }
        v
    } else {
        zero_padded_chars(n as u64, width)
    }
}

/// `YYYY-MM-DD`.
pub open spec fn iso_date_text(d: Date) -> Seq<char> {
    zero_padded(d.year as nat, 4) + seq!['-'] + zero_padded(d.month as nat, 2) + seq!['-']
        + zero_padded(d.day as nat, 2)
}

/// A date as `YYYY-MM-DD`.
pub fn date_to_iso(date: Date) -> (s: String)
    ensures
        s@ == iso_date_text(date),
{
    let mut v = zero_padded_chars(date.year as u64, 4);
    v.push('-');
    let mut m = zero_padded_chars(date.month as u64, 2);
    v.append(&mut m);
    v.push('-');
    let mut d = zero_padded_chars(date.day as u64, 2);
    v.append(&mut d);
    proof {
        assert(v@ =~= iso_date_text(date));
    }
    string_from_chars(v.as_slice())
}

/// Milliseconds since midnight, negative counts taken as zero.
pub open spec fn clock_millis(ms: i32) -> nat {
    if ms < 0 {
        0
    } else {
        ms as nat
    }
}

/// `HH:MM:SS.mmm` of a millisecond count.
pub open spec fn clock_text(t: nat) -> Seq<char> {
    zero_padded(t / 3600000, 2) + seq![':'] + zero_padded((t % 3600000) / 60000, 2) + seq![':']
        + zero_padded((t % 60000) / 1000, 2) + seq!['.'] + zero_padded(t % 1000, 3)
}

/// A date-time as `YYYY-MM-DDTHH:MM:SS.mmm` (the date from the Julian day
/// number); for a day number that is not positive, `julian:J millis:M`.
pub open spec fn iso_datetime_text(dt: DateTime) -> Seq<char> {
    if dt.julian_day > 0 {
        let ymd = ymd_of_julian(dt.julian_day as int);
        padded_int((ymd.0 as i32) as int, 4) + seq!['-'] + zero_padded((ymd.1 as u32) as nat, 2)
            + seq!['-'] + zero_padded((ymd.2 as u32) as nat, 2) + seq!['T'] + clock_text(
            clock_millis(dt.millis_since_midnight),
        )
    } else {
        "julian:"@ + padded_int(dt.julian_day as int, 0) + " millis:"@ + padded_int(
            dt.millis_since_midnight as int,
            0,
        )
    }
}

/// A date-time as ISO text.
pub fn datetime_to_iso(datetime: DateTime) -> (s: String)
    ensures
        s@ == iso_datetime_text(datetime),
{
    match julian_day_to_ymd(datetime.julian_day) {
        Some((year, month, day)) => {
            let total: u32 = if datetime.millis_since_midnight < 0 {
                0
            } else {
                datetime.millis_since_midnight as u32
            };
            let hour = total / 3_600_000;
            let minute = (total % 3_600_000) / 60_000;
            let second = (total % 60_000) / 1_000;
            let millis = total % 1_000;
            let mut v = padded_int_chars(year as i64, 4);
            v.push('-');
            let mut p = zero_padded_chars(month as u64, 2);
            v.append(&mut p);
            v.push('-');
            let mut p = zero_padded_chars(day as u64, 2);
            v.append(&mut p);
            v.push('T');
            let mut p = zero_padded_chars(hour as u64, 2);
            v.append(&mut p);
            v.push(':');
            let mut p = zero_padded_chars(minute as u64, 2);
            v.append(&mut p);
            v.push(':');
            let mut p = zero_padded_chars(second as u64, 2);
            v.append(&mut p);
            v.push('.');
            let mut p = zero_padded_chars(millis as u64, 3);
            v.append(&mut p);
            proof {
                assert(v@ =~= iso_datetime_text(datetime));
            }
            string_from_chars(v.as_slice())
        },
        None => {
            let mut v = chars_of("julian:");
            let mut p = padded_int_chars(datetime.julian_day as i64, 0);
            v.append(&mut p);
            let mut q = chars_of(" millis:");
            v.append(&mut q);
            let mut p = padded_int_chars(datetime.millis_since_midnight as i64, 0);
            v.append(&mut p);
            proof {
                assert(v@ =~= iso_datetime_text(datetime));
            }
            string_from_chars(v.as_slice())
        },
    }
}

// ---------------------------------------------------------------------------
// Reading ISO dates and date-times
// ---------------------------------------------------------------------------

/// Position of the first `c` in `v`.
pub fn find_char_in(v: &[char], c: char) -> (r: Option<usize>)
    ensures
        match r {
            Some(i) => find_char(v@, c) == Some(i as nat),
            None => find_char(v@, c) is None,
        },
{
    let mut i: usize = 0;
    while i < v.len()
        invariant
            i <= v@.len(),
            forall|k: int| 0 <= k < i ==> v@[k] != c,
        decreases v.len() - i,
    {
        if v[i] == c {
            proof {
                crate::text::lemma_find_char_is(v@, c, i as int);
            }
            return Some(i);
        }
        i += 1;
    }
    proof {
        crate::text::lemma_find_char_is(v@, c, i as int);
    }
    None
}

/// `s` without any `c` (`str::replace(c, "")`).
pub open spec fn remove_char(s: Seq<char>, c: char) -> Seq<char>
    decreases s.len(),
{
    if s.len() == 0 {
        Seq::empty()
    } else {
        let r = remove_char(s.drop_last(), c);
        if s.last() == c {
            r
        } else {
            r.push(s.last())
        }
    }
}

/// `v` without any `c`.
pub fn remove_char_in(v: &[char], c: char) -> (r: Vec<char>)
    ensures
        r@ == remove_char(v@, c),
{
    let mut r: Vec<char> = Vec::new();
    let mut i: usize = 0;
    while i < v.len()
        invariant
            i <= v@.len(),
            r@ == remove_char(v@.take(i as int), c),
        decreases v.len() - i,
    {
        proof {
            assert(v@.take(i + 1).drop_last() =~= v@.take(i as int));
        }
        if v[i] != c {
            r.push(v[i]);
        }
        i += 1;
    }
    proof {
        assert(v@.take(v@.len() as int) =~= v@);
    }
    r
}

/// The clock part of a time and its fraction: split at the first `.`.
pub open spec fn split_fraction(t: Seq<char>) -> (Seq<char>, Seq<char>) {
    match find_char(t, '.') {
        Some(i) => (t.take(i as int), t.skip(i + 1 as int)),
        None => (t, Seq::empty()),
    }
}

/// The characters of `s` that fill at most `room` UTF-8 bytes, with the
/// bytes they take: taking stops where the room or the text ends; `None`
/// where the last byte of the room falls inside a character (slicing a
/// `str` there panics).
pub open spec fn chars_in_room(s: Seq<char>, room: nat) -> Option<(nat, nat)>
    decreases s.len(),
{
    if s.len() == 0 || room == 0 {
        Some((0, 0))
    } else if char_utf8_len(s[0]) > room {
        None
    } else {
        match chars_in_room(s.drop_first(), (room - char_utf8_len(s[0])) as nat) {
            Some((k, b)) => Some((k + 1, b + char_utf8_len(s[0]))),
            None => None,
        }
    }
}

/// The characters of `v` that fill at most `room` bytes, with their bytes.
fn chars_in_room_of(v: &[char], room: usize) -> (r: Option<(usize, usize)>)
    requires
        room <= 4,
    ensures
        match r {
            Some((k, b)) => chars_in_room(v@, room as nat) == Some((k as nat, b as nat)) && k <= v@.len(),
            None => chars_in_room(v@, room as nat) is None,
        },
{
    let mut i: usize = 0;
    let mut used: usize = 0;
    proof {
        assert(v@.skip(0) =~= v@);
    }
    while i < v.len() && used < room
        invariant
            i <= v@.len(),
            used <= room <= 4,
            chars_in_room(v@, room as nat) == match chars_in_room(v@.skip(i as int), (room - used) as nat) {
                Some((k, b)) => Some(((k + i) as nat, (b + used) as nat)),
                None => None::<(nat, nat)>,
            },
        decreases v.len() - i,
    {
        let u: u32 = v[i] as u32;
        let w: usize = if u < 0x80 {
            1
        } else if u < 0x800 {
            2
        } else if u < 0x10000 {
            3
        } else {
            4
        };
        proof {
            assert(v@.skip(i as int)[0] == v@[i as int]);
            assert(v@.skip(i as int).drop_first() =~= v@.skip(i + 1 as int));
        }
        if used + w > room {
            return None;
        }
        used = used + w;
        i += 1;
    }
    Some((i, used))
}

/// What the binding makes of the time part of an ISO date-time
/// (`HH:MM:SS` or `HH:MM:SS.f`, at most three bytes of fraction, one or two
/// digits counting as tenths or hundredths): the milliseconds since
/// midnight; `ValueError` for a malformed time; a panic where the
/// fraction's third byte falls inside a character or where the `u32`
/// arithmetic overflows.
pub open spec fn time_millis(t: Seq<char>) -> Outcome<u32, ApiErrorKind> {
    let (clock, frac) = split_fraction(t);
    let parts = split_on(clock, ':');
    if parts.len() != 3 {
        Outcome::Failed(ApiErrorKind::Value)
    } else {
        match (
            parse_unsigned(parts[0], u32::MAX as nat),
            parse_unsigned(parts[1], u32::MAX as nat),
            parse_unsigned(parts[2], u32::MAX as nat),
        ) {
            (Some(h), Some(m), Some(s)) => {
                let whole = h * 3600000 + m * 60000 + s * 1000;
                if frac.len() == 0 {
                    if whole > u32::MAX {
                        Outcome::Panics
                    } else {
                        Outcome::Done(whole as u32)
                    }
                } else {
                    match chars_in_room(frac, 3) {
                        None => Outcome::Panics,
                        Some((k, bytes)) => match parse_unsigned(frac.take(k as int), u32::MAX as nat) {
                            None => Outcome::Failed(ApiErrorKind::Value),
                            Some(ms) => {
                                let scaled = if bytes == 1 {
                                    ms * 100
                                } else if bytes == 2 {
                                    ms * 10
                                } else {
                                    ms
                                };
                                if scaled > u32::MAX || whole + scaled > u32::MAX {
                                    Outcome::Panics
                                } else {
                                    Outcome::Done((whole + scaled) as u32)
                                }
                            },
                        },
                    }
                }
            },
            _ => Outcome::Failed(ApiErrorKind::Value),
        }
    }
}

/// [`time_millis`], computed.
fn time_millis_of(t: &[char]) -> (r: Outcome<u32, ApiError>)
    ensures
        match r {
            Outcome::Done(ms) => time_millis(t@) == Outcome::<u32, ApiErrorKind>::Done(ms),
            Outcome::Failed(e) => time_millis(t@) == Outcome::<u32, ApiErrorKind>::Failed(e.kind),
            Outcome::Panics => time_millis(t@) is Panics,
        },
{
    let dot = find_char_in(t, '.');
    proof {
        crate::text::lemma_find_char_bound(t@, '.');
    }
    let (clock, frac) = match dot {
        Some(i) => {
            let n = t.len();
            assert(i < n);
            (sub_chars(t, 0, i), sub_chars(t, i + 1, n))
        },
        None => (sub_chars(t, 0, t.len()), Vec::new()),
    };
    proof {
        assert(t@.subrange(0, t@.len() as int) =~= t@);
        if let Some(i) = find_char(t@, '.') {
            crate::text::lemma_find_char_bound(t@, '.');
            assert(t@.subrange(0, i as int) =~= t@.take(i as int));
            assert(t@.subrange(i + 1 as int, t@.len() as int) =~= t@.skip(i + 1 as int));
        } else {
            assert(frac@ =~= Seq::<char>::empty());
        }
        assert((clock@, frac@) == split_fraction(t@));
    }
    let parts = split_chars(clock.as_slice(), ':');
    proof {
        assert(parts.deep_view() == split_on(clock@, ':'));
        assert(parts@.len() == parts.deep_view().len());
    }
    if parts.len() != 3 {
        return Outcome::Failed(api_error(
            ApiErrorKind::Value,
            "datetime time part must look like HH:MM:SS or HH:MM:SS.mmm",
        ));
    }
    proof {
        assert(parts.deep_view()[0] == parts@[0]@);
        assert(parts.deep_view()[1] == parts@[1]@);
        assert(parts.deep_view()[2] == parts@[2]@);
    }
    let hour = match parse_unsigned_chars(parts[0].as_slice(), 0xFFFF_FFFF) {
        Some(h) => h,
        None => {
            return Outcome::Failed(api_error(ApiErrorKind::Value, "invalid hour"));
        },
    };
    let minute = match parse_unsigned_chars(parts[1].as_slice(), 0xFFFF_FFFF) {
        Some(m) => m,
        None => {
            return Outcome::Failed(api_error(ApiErrorKind::Value, "invalid minute"));
        },
    };
    let second = match parse_unsigned_chars(parts[2].as_slice(), 0xFFFF_FFFF) {
        Some(x) => x,
        None => {
            return Outcome::Failed(api_error(ApiErrorKind::Value, "invalid second"));
        },
    };
    let whole: u64 = hour * 3_600_000 + minute * 60_000 + second * 1_000;
    if frac.len() == 0 {
        if whole > 0xFFFF_FFFF {
            return Outcome::Panics;
        }
        return Outcome::Done(whole as u32);
    }
    let (k, bytes) = match chars_in_room_of(frac.as_slice(), 3) {
        Some(x) => x,
        None => {
            return Outcome::Panics;
        },
    };
    let head = sub_chars(frac.as_slice(), 0, k);
    proof {
        assert(head@ =~= frac@.take(k as int));
    }
    let ms = match parse_unsigned_chars(head.as_slice(), 0xFFFF_FFFF) {
        Some(x) => x,
        None => {
            return Outcome::Failed(api_error(ApiErrorKind::Value, "invalid millisecond fraction"));
        },
    };
    let scaled: u64 = if bytes == 1 {
        ms * 100
    } else if bytes == 2 {
        ms * 10
    } else {
        ms
    };
    if scaled > 0xFFFF_FFFF || whole + scaled > 0xFFFF_FFFF {
        return Outcome::Panics;
    }
    Outcome::Done((whole + scaled) as u32)
}

/// The Visual FoxPro date-time of a date and the time part of an ISO
/// date-time.
pub fn iso_datetime_parts_to_vfp(date: Date, time_part: &str) -> (r: Result<DateTime, ApiError>)
    requires
        !(time_millis(time_part@) is Panics),
    ensures
        match r {
            Ok(dt) => time_millis(time_part@) matches Outcome::Done(ms) && dt == (DateTime {
                julian_day: julian_day_of(date.year as int, date.month as int, date.day as int) as i32,
                millis_since_midnight: ms as i32,
            }),
            Err(e) => time_millis(time_part@) == Outcome::<u32, ApiErrorKind>::Failed(e.kind),
        },
{
    let t = chars_of(time_part);
    match time_millis_of(t.as_slice()) {
        Outcome::Done(ms) => {
            let jd = gregorian_to_julian_day(date.year as i32, date.month as i32, date.day as i32);
            #[verifier::truncate]
            let m32 = ms as i32;
            Ok(DateTime::new(jd, m32))
        },
        Outcome::Failed(e) => Err(e),
        Outcome::Panics => {
            proof {
                assert(false);
            }
            Err(api_error(ApiErrorKind::Value, "invalid millisecond fraction"))
        },
    }
}

/// What the binding makes of the text of a `D` value: the dashes of an ISO
/// date dropped, the rest read as `YYYYMMDD`.
pub fn date_from_iso(raw: &str) -> (r: Result<Option<Date>, ApiError>)
    ensures
        match r {
            Ok(d) => date_from_text(remove_char(raw@, '-')) == Ok::<Option<Date>, ErrorKind>(d),
            Err(e) => date_from_text(remove_char(raw@, '-')) matches Err(k) && e.kind == api_kind_of(k),
        },
{
    let v = chars_of(raw);
    let n = remove_char_in(v.as_slice(), '-');
    match Date::parse_ymd_chars(n.as_slice()) {
        Ok(d) => Ok(d),
        Err(e) => Err(api_error_of(e)),
    }
}

/// What the binding makes of the text of a `T` value
/// (`YYYY-MM-DDTHH:MM:SS[.mmm]`).
pub open spec fn datetime_from_text(raw: Seq<char>) -> Outcome<DateTime, ApiErrorKind> {
    match find_char(raw, 'T') {
        None => Outcome::Failed(ApiErrorKind::Value),
        Some(i) => match date_from_text(remove_char(raw.take(i as int), '-')) {
            Err(k) => Outcome::Failed(api_kind_of(k)),
            Ok(None) => Outcome::Failed(ApiErrorKind::Value),
            Ok(Some(d)) => match time_millis(raw.skip(i + 1 as int)) {
                Outcome::Done(ms) => Outcome::Done(
                    DateTime {
                        julian_day: julian_day_of(d.year as int, d.month as int, d.day as int) as i32,
                        millis_since_midnight: ms as i32,
                    },
                ),
                Outcome::Failed(k) => Outcome::Failed(k),
                Outcome::Panics => Outcome::Panics,
            },
        },
    }
}

/// [`datetime_from_text`], computed.
fn datetime_outcome(raw: &str) -> (r: Outcome<DateTime, ApiError>)
    ensures
        match r {
            Outcome::Done(dt) => datetime_from_text(raw@) == Outcome::<DateTime, ApiErrorKind>::Done(dt),
            Outcome::Failed(e) => datetime_from_text(raw@) == Outcome::<DateTime, ApiErrorKind>::Failed(e.kind),
            Outcome::Panics => datetime_from_text(raw@) is Panics,
        },
{
    let v = chars_of(raw);
    let i = match find_char_in(v.as_slice(), 'T') {
        Some(i) => i,
        None => {
            return Outcome::Failed(api_error(
                ApiErrorKind::Value,
                "datetime must be ISO-like, e.g. 2024-01-31T12:34:56.000",
            ));
        },
    };
    proof {
        crate::text::lemma_find_char_bound(v@, 'T');
    }
    let date_part = sub_chars(v.as_slice(), 0, i);
    let time_part = sub_chars(v.as_slice(), i + 1, v.len());
    proof {
        assert(date_part@ =~= v@.take(i as int));
        assert(time_part@ =~= v@.skip(i + 1));
    }
    let n = remove_char_in(date_part.as_slice(), '-');
    let date = match Date::parse_ymd_chars(n.as_slice()) {
        Ok(Some(d)) => d,
        Ok(None) => {
            return Outcome::Failed(api_error(ApiErrorKind::Value, "datetime date part cannot be empty"));
        },
        Err(e) => {
            return Outcome::Failed(api_error_of(e));
        },
    };
    match time_millis_of(time_part.as_slice()) {
        Outcome::Done(ms) => {
            let jd = gregorian_to_julian_day(date.year as i32, date.month as i32, date.day as i32);
            #[verifier::truncate]
            let m32 = ms as i32;
            Outcome::Done(DateTime::new(jd, m32))
        },
        Outcome::Failed(e) => Outcome::Failed(e),
        Outcome::Panics => Outcome::Panics,
    }
}

/// The date-time that the text of a `T` value gives.
pub fn datetime_from_iso(raw: &str) -> (r: Result<DateTime, ApiError>)
    requires
        !(datetime_from_text(raw@) is Panics),
    ensures
        match r {
            Ok(dt) => datetime_from_text(raw@) == Outcome::<DateTime, ApiErrorKind>::Done(dt),
            Err(e) => datetime_from_text(raw@) == Outcome::<DateTime, ApiErrorKind>::Failed(e.kind),
        },
{
    match datetime_outcome(raw) {
        Outcome::Done(dt) => Ok(dt),
        Outcome::Failed(e) => Err(e),
        Outcome::Panics => {
            proof {
                assert(false);
            }
            Err(api_error(ApiErrorKind::Value, "invalid millisecond fraction"))
        },
    }
}

/// Whether reading the text of a `T` value panics (its fraction's third
/// byte falls inside a character, or its time overflows `u32`
/// milliseconds): the texts that [`datetime_from_iso`] does not take.
pub fn datetime_text_would_panic(raw: &str) -> (b: bool)
    ensures
        b == (datetime_from_text(raw@) is Panics),
{
    match datetime_outcome(raw) {
        Outcome::Panics => true,
        _ => false,
    }
}

// ---------------------------------------------------------------------------
// Table status and location
// ---------------------------------------------------------------------------

/// Whether a table is open, and for what.
#[derive(Debug, Clone, Copy, PartialEq, Eq, Structural)]
pub enum TableStatus {
    Closed,
    ReadOnly,
    ReadWrite,
}

/// Where a table lives.
#[derive(Debug, Clone, Copy, PartialEq, Eq, Structural)]
pub enum TableLocation {
    InMemory,
    OnDisk,
}

impl TableStatus {
    /// The status as Python's `repr` shows it.
    pub fn repr(self) -> (s: &'static str)
        ensures
            s@ == match self {
                TableStatus::Closed => "TableStatus.Closed"@,
                TableStatus::ReadOnly => "TableStatus.ReadOnly"@,
                TableStatus::ReadWrite => "TableStatus.ReadWrite"@,
            },
    {
        match self {
            TableStatus::Closed => "TableStatus.Closed",
            TableStatus::ReadOnly => "TableStatus.ReadOnly",
            TableStatus::ReadWrite => "TableStatus.ReadWrite",
        }
    }

    /// The status as Python's `str` shows it.
    pub fn text(self) -> (s: &'static str)
        ensures
            s@ == match self {
                TableStatus::Closed => "closed"@,
                TableStatus::ReadOnly => "read_only"@,
                TableStatus::ReadWrite => "read_write"@,
            },
    {
        match self {
            TableStatus::Closed => "closed",
            TableStatus::ReadOnly => "read_only",
            TableStatus::ReadWrite => "read_write",
        }
    }

    /// The status that `open(mode)` sets: read-only for `r`, `rb`,
    /// `read-only` and `read_only`, read-write otherwise.
    pub fn for_mode(mode: Option<&str>) -> (s: TableStatus)
        ensures
            s == (match mode {
                Some(m) => if m@ == "r"@ || m@ == "rb"@ || m@ == "read-only"@ || m@ == "read_only"@ {
                    TableStatus::ReadOnly
                } else {
                    TableStatus::ReadWrite
                },
                None => TableStatus::ReadWrite,
            }),
    {
        match mode {
            Some(m) => {
                let v = chars_of(m);
                if crate::text::chars_are(v.as_slice(), "r") || crate::text::chars_are(v.as_slice(), "rb")
                    || crate::text::chars_are(v.as_slice(), "read-only") || crate::text::chars_are(
                    v.as_slice(),
                    "read_only",
                ) {
                    TableStatus::ReadOnly
                } else {
                    TableStatus::ReadWrite
                }
            },
            None => TableStatus::ReadWrite,
        }
    }

    /// The status on entering a `with` block: a closed table opens
    /// read-write, an open one keeps its status.
    pub fn on_enter(self) -> (s: TableStatus)
        ensures
            s == (if self == TableStatus::Closed {
                TableStatus::ReadWrite
            } else {
                self
            }),
    {
        if self == TableStatus::Closed {
            TableStatus::ReadWrite
        } else {
            self
        }
    }

    /// Reading needs an open table: `RuntimeError` when it is closed.
    pub fn require_open(self) -> (r: Result<(), ApiError>)
        ensures
            r is Ok <==> self != TableStatus::Closed,
            r matches Err(e) ==> e.kind == ApiErrorKind::Runtime,
    {
        if self == TableStatus::Closed {
            Err(api_error(ApiErrorKind::Runtime, "table is closed; call open() before reading"))
        } else {
            Ok(())
        }
    }

    /// Writing needs a table open read-write: `RuntimeError` otherwise.
    pub fn require_read_write(self) -> (r: Result<(), ApiError>)
        ensures
            r is Ok <==> self == TableStatus::ReadWrite,
            r matches Err(e) ==> e.kind == ApiErrorKind::Runtime,
    {
        match self {
            TableStatus::Closed => Err(api_error(
                ApiErrorKind::Runtime,
                "table is closed; call open() before writing",
            )),
            TableStatus::ReadOnly => Err(api_error(
                ApiErrorKind::Runtime,
                "table is open read-only; reopen without 'r' mode to write",
            )),
            TableStatus::ReadWrite => Ok(()),
        }
    }

    /// Whether closing a table writes it out: a table open read-write is
    /// always flushed to its file name, unless that name is `:memory:`.
    pub fn writes_on_close(self, filename: Option<&str>) -> (b: bool)
        ensures
            b == (self == TableStatus::ReadWrite && match filename {
                Some(f) => f@ != ":memory:"@,
                None => false,
            }),
    {
        if self == TableStatus::ReadWrite {
            match filename {
                Some(f) => {
                    let v = chars_of(f);
                    !crate::text::chars_are(v.as_slice(), ":memory:")
                },
                None => false,
            }
        } else {
            false
        }
    }
}

impl TableLocation {
    /// Where a table lives, from its on-disk flag.
    pub fn of(on_disk: bool) -> (l: TableLocation)
        ensures
            l == (if on_disk {
                TableLocation::OnDisk
            } else {
                TableLocation::InMemory
            }),
    {
        if on_disk {
            TableLocation::OnDisk
        } else {
            TableLocation::InMemory
        }
    }

    /// The location as Python's `repr` shows it.
    pub fn repr(self) -> (s: &'static str)
        ensures
            s@ == match self {
                TableLocation::InMemory => "TableLocation.InMemory"@,
                TableLocation::OnDisk => "TableLocation.OnDisk"@,
            },
    {
        match self {
            TableLocation::InMemory => "TableLocation.InMemory",
            TableLocation::OnDisk => "TableLocation.OnDisk",
        }
    }

    /// The location as Python's `str` shows it.
    pub fn text(self) -> (s: &'static str)
        ensures
            s@ == match self {
                TableLocation::InMemory => "in_memory"@,
                TableLocation::OnDisk => "on_disk"@,
            },
    {
        match self {
            TableLocation::InMemory => "in_memory",
            TableLocation::OnDisk => "on_disk",
        }
    }
}

// ---------------------------------------------------------------------------
// Names of kinds, types and code pages
// ---------------------------------------------------------------------------

/// The table kind that a `dbf_type` argument names: nothing or blank
/// names none; otherwise, trimmed and lower-cased, a short or full name;
/// `None` for any other name (a `ValueError`).
pub open spec fn kind_from_name(name: Option<Seq<char>>) -> Option<Option<DbfKind>> {
    match name {
        None => Some(None),
        Some(raw) => {
            let n = lower_all(trim(raw));
            if n.len() == 0 {
                Some(None)
            } else if n == "db3"@ || n == "dbase3"@ {
                Some(Some(DbfKind::DBase3))
            } else if n == "db3_memo"@ || n == "dbase3withmemo"@ {
                Some(Some(DbfKind::DBase3WithMemo))
            } else if n == "fp"@ || n == "foxpro2withmemo"@ {
                Some(Some(DbfKind::FoxPro2WithMemo))
            } else if n == "vfp"@ || n == "visualfoxpro"@ {
                Some(Some(DbfKind::VisualFoxPro))
            } else if n == "vfp_auto"@ || n == "visualfoxproautoincrement"@ {
                Some(Some(DbfKind::VisualFoxProAutoIncrement))
            } else if n == "vfp_var"@ || n == "visualfoxprovar"@ {
                Some(Some(DbfKind::VisualFoxProVar))
            } else if n == "db4"@ || n == "dbase4withmemo"@ {
                Some(Some(DbfKind::DBase4WithMemo))
            } else {
                None
            }
        },
    }
}

/// The table kind that a `dbf_type` argument names.
pub fn dbf_type_to_kind(dbf_type: Option<&str>) -> (r: Result<Option<DbfKind>, ApiError>)
    ensures
        match r {
            Ok(k) => kind_from_name(
                match dbf_type {
                    Some(t) => Some(t@),
                    None => None,
                },
            ) == Some(k),
            Err(e) => kind_from_name(
                match dbf_type {
                    Some(t) => Some(t@),
                    None => None,
                },
            ) is None && e.kind == ApiErrorKind::Value,
        },
{
    let raw = match dbf_type {
        Some(t) => t,
        None => {
            return Ok(None);
        },
    };
    let v = chars_of(raw);
    let t = trim_chars(v.as_slice());
    let n = lower_chars(t.as_slice());
    let ns = n.as_slice();
    if n.len() == 0 {
        Ok(None)
    } else if crate::text::chars_are(ns, "db3") || crate::text::chars_are(ns, "dbase3") {
        Ok(Some(DbfKind::DBase3))
    } else if crate::text::chars_are(ns, "db3_memo") || crate::text::chars_are(ns, "dbase3withmemo") {
        Ok(Some(DbfKind::DBase3WithMemo))
    } else if crate::text::chars_are(ns, "fp") || crate::text::chars_are(ns, "foxpro2withmemo") {
        Ok(Some(DbfKind::FoxPro2WithMemo))
    } else if crate::text::chars_are(ns, "vfp") || crate::text::chars_are(ns, "visualfoxpro") {
        Ok(Some(DbfKind::VisualFoxPro))
    } else if crate::text::chars_are(ns, "vfp_auto") || crate::text::chars_are(
        ns,
        "visualfoxproautoincrement",
    ) {
        Ok(Some(DbfKind::VisualFoxProAutoIncrement))
    } else if crate::text::chars_are(ns, "vfp_var") || crate::text::chars_are(ns, "visualfoxprovar") {
        Ok(Some(DbfKind::VisualFoxProVar))
    } else if crate::text::chars_are(ns, "db4") || crate::text::chars_are(ns, "dbase4withmemo") {
        Ok(Some(DbfKind::DBase4WithMemo))
    } else {
        let mut m = chars_of("unsupported dbf_type \"");
        let mut body = n.clone();
        m.append(&mut body);
        let mut tail = chars_of("\"; use e.g. 'db3', 'vfp', 'fp', or the full type name");
        m.append(&mut tail);
        Err(ApiError { kind: ApiErrorKind::Value, message: string_from_chars(m.as_slice()) })
    }
}

/// The name of a table kind, as the binding reports it (`Table.kind`).
pub open spec fn kind_name_text(kind: DbfKind) -> Seq<char> {
    match kind {
        DbfKind::DBase3 => "DBase3"@,
        DbfKind::DBase3WithMemo => "DBase3WithMemo"@,
        DbfKind::FoxPro2WithMemo => "FoxPro2WithMemo"@,
        DbfKind::VisualFoxPro => "VisualFoxPro"@,
        DbfKind::VisualFoxProAutoIncrement => "VisualFoxProAutoIncrement"@,
        DbfKind::VisualFoxProVar => "VisualFoxProVar"@,
        DbfKind::DBase4WithMemo => "DBase4WithMemo"@,
    }
}

/// The name of a table kind.
pub fn kind_name(kind: DbfKind) -> (s: &'static str)
    ensures
        s@ == kind_name_text(kind),
{
    match kind {
        DbfKind::DBase3 => "DBase3",
        DbfKind::DBase3WithMemo => "DBase3WithMemo",
        DbfKind::FoxPro2WithMemo => "FoxPro2WithMemo",
        DbfKind::VisualFoxPro => "VisualFoxPro",
        DbfKind::VisualFoxProAutoIncrement => "VisualFoxProAutoIncrement",
        DbfKind::VisualFoxProVar => "VisualFoxProVar",
        DbfKind::DBase4WithMemo => "DBase4WithMemo",
    }
}

/// Lower-casing a name without blanks at its ends gives `lowered`.
proof fn lemma_lowered(name: Seq<char>, lowered: Seq<char>)
    requires
        name.len() > 0,
        !crate::text::is_space(name[0]),
        !crate::text::is_space(name.last()),
        name.len() == lowered.len(),
        forall|i: int| 0 <= i < name.len() ==> crate::text::lower(#[trigger] name[i]) == lowered[i],
    ensures
        lower_all(trim(name)) == lowered,
{
    crate::text::lemma_trim_no_space(name);
    assert(lower_all(name) =~= lowered);
}

/// The name that `Table.kind` reports for a kind, given back as a
/// `dbf_type`, names the same kind.
#[verifier::spinoff_prover]
pub proof fn law_kind_name_round_trip(kind: DbfKind)
    ensures
        kind_from_name(Some(kind_name_text(kind))) == Some(Some(kind)),
{
    match kind {
        DbfKind::DBase3 => {
            reveal_strlit("DBase3");
            reveal_strlit("dbase3");
            reveal_strlit("db3");
            lemma_lowered("DBase3"@, "dbase3"@);
        },
        DbfKind::DBase3WithMemo => {
            reveal_strlit("DBase3WithMemo");
            reveal_strlit("dbase3withmemo");
            reveal_strlit("db3");
            reveal_strlit("dbase3");
            reveal_strlit("db3_memo");
            lemma_lowered("DBase3WithMemo"@, "dbase3withmemo"@);
        },
        DbfKind::FoxPro2WithMemo => {
            reveal_strlit("FoxPro2WithMemo");
            reveal_strlit("foxpro2withmemo");
            reveal_strlit("db3");
            reveal_strlit("dbase3");
            reveal_strlit("db3_memo");
            reveal_strlit("dbase3withmemo");
            reveal_strlit("fp");
            lemma_lowered("FoxPro2WithMemo"@, "foxpro2withmemo"@);
        },
        DbfKind::VisualFoxPro => {
            reveal_strlit("VisualFoxPro");
            reveal_strlit("visualfoxpro");
            reveal_strlit("db3");
            reveal_strlit("dbase3");
            reveal_strlit("db3_memo");
            reveal_strlit("dbase3withmemo");
            reveal_strlit("fp");
            reveal_strlit("foxpro2withmemo");
            reveal_strlit("vfp");
            lemma_lowered("VisualFoxPro"@, "visualfoxpro"@);
        },
        DbfKind::VisualFoxProAutoIncrement => {
            reveal_strlit("VisualFoxProAutoIncrement");
            reveal_strlit("visualfoxproautoincrement");
            reveal_strlit("db3");
            reveal_strlit("dbase3");
            reveal_strlit("db3_memo");
            reveal_strlit("dbase3withmemo");
            reveal_strlit("fp");
            reveal_strlit("foxpro2withmemo");
            reveal_strlit("vfp");
            reveal_strlit("visualfoxpro");
            reveal_strlit("vfp_auto");
            lemma_lowered("VisualFoxProAutoIncrement"@, "visualfoxproautoincrement"@);
        },
        DbfKind::VisualFoxProVar => {
            reveal_strlit("VisualFoxProVar");
            reveal_strlit("visualfoxprovar");
            reveal_strlit("db3");
            reveal_strlit("dbase3");
            reveal_strlit("db3_memo");
            reveal_strlit("dbase3withmemo");
            reveal_strlit("fp");
            reveal_strlit("foxpro2withmemo");
            reveal_strlit("vfp");
            reveal_strlit("visualfoxpro");
            reveal_strlit("vfp_auto");
            reveal_strlit("visualfoxproautoincrement");
            reveal_strlit("vfp_var");
            lemma_lowered("VisualFoxProVar"@, "visualfoxprovar"@);
            assert("visualfoxprovar"@[0] != "foxpro2withmemo"@[0]);
        },
        DbfKind::DBase4WithMemo => {
            reveal_strlit("DBase4WithMemo");
            reveal_strlit("dbase4withmemo");
            reveal_strlit("db3");
            reveal_strlit("dbase3");
            reveal_strlit("db3_memo");
            reveal_strlit("dbase3withmemo");
            reveal_strlit("fp");
            reveal_strlit("foxpro2withmemo");
            reveal_strlit("vfp");
            reveal_strlit("visualfoxpro");
            reveal_strlit("vfp_auto");
            reveal_strlit("visualfoxproautoincrement");
            reveal_strlit("vfp_var");
            reveal_strlit("visualfoxprovar");
            reveal_strlit("db4");
            lemma_lowered("DBase4WithMemo"@, "dbase4withmemo"@);
            assert("dbase4withmemo"@[5] != "dbase3withmemo"@[5]);
        },
    }
}

/// The short `dbf_type` of each table kind (`db3`, `fp`, `vfp`, ...).
pub open spec fn short_type_name(kind: DbfKind) -> Seq<char> {
    match kind {
        DbfKind::DBase3 => "db3"@,
        DbfKind::DBase3WithMemo => "db3_memo"@,
        DbfKind::FoxPro2WithMemo => "fp"@,
        DbfKind::VisualFoxPro => "vfp"@,
        DbfKind::VisualFoxProAutoIncrement => "vfp_auto"@,
        DbfKind::VisualFoxProVar => "vfp_var"@,
        DbfKind::DBase4WithMemo => "db4"@,
    }
}

/// A short `dbf_type`, in any case and with blanks around it, names the
/// same table kind as the full name that `Table.kind` reports for that
/// kind: `db3` and `DBase3`, `fp` and `FoxPro2WithMemo`, `vfp` and
/// `VisualFoxPro`, `db4` and `DBase4WithMemo`, and so on.
#[verifier::spinoff_prover]
pub proof fn law_short_type_names(kind: DbfKind, raw: Seq<char>)
    requires
        lower_all(trim(raw)) == short_type_name(kind),
    ensures
        kind_from_name(Some(raw)) == kind_from_name(Some(kind_name_text(kind))),
        kind_from_name(Some(raw)) == Some(Some(kind)),
{
    law_kind_name_round_trip(kind);
    reveal_strlit("db3");
    reveal_strlit("dbase3");
    reveal_strlit("db3_memo");
    reveal_strlit("dbase3withmemo");
    reveal_strlit("fp");
    reveal_strlit("foxpro2withmemo");
    reveal_strlit("vfp");
    reveal_strlit("visualfoxpro");
    reveal_strlit("vfp_auto");
    reveal_strlit("visualfoxproautoincrement");
    reveal_strlit("vfp_var");
    reveal_strlit("visualfoxprovar");
    reveal_strlit("db4");
    reveal_strlit("dbase4withmemo");
    let n = lower_all(trim(raw));
    match kind {
        DbfKind::DBase3 => {
            assert(n == "db3"@);
        },
        DbfKind::DBase3WithMemo => {
            assert(n == "db3_memo"@);
            assert(n != "db3"@ && n != "dbase3"@);
        },
        DbfKind::FoxPro2WithMemo => {
            assert(n == "fp"@);
            assert(n != "db3"@ && n != "dbase3"@ && n != "db3_memo"@ && n != "dbase3withmemo"@);
        },
        DbfKind::VisualFoxPro => {
            assert(n == "vfp"@);
            assert(n[0] == 'v' && "db3"@[0] == 'd' && "dbase3"@[0] == 'd' && "db3_memo"@[0] == 'd'
                && "dbase3withmemo"@[0] == 'd' && "fp"@[0] == 'f' && "foxpro2withmemo"@[0] == 'f');
            assert(n != "db3"@ && n != "dbase3"@ && n != "db3_memo"@ && n != "dbase3withmemo"@);
            assert(n != "fp"@ && n != "foxpro2withmemo"@);
        },
        DbfKind::VisualFoxProAutoIncrement => {
            assert(n == "vfp_auto"@);
            assert(n[0] == 'v' && "db3"@[0] == 'd' && "dbase3"@[0] == 'd' && "db3_memo"@[0] == 'd'
                && "dbase3withmemo"@[0] == 'd' && "fp"@[0] == 'f' && "foxpro2withmemo"@[0] == 'f');
            assert(n != "db3"@ && n != "dbase3"@ && n != "db3_memo"@ && n != "dbase3withmemo"@);
            assert(n != "fp"@ && n != "foxpro2withmemo"@ && n != "vfp"@ && n != "visualfoxpro"@);
        },
        DbfKind::VisualFoxProVar => {
            assert(n == "vfp_var"@);
            assert(n[0] == 'v' && "db3"@[0] == 'd' && "dbase3"@[0] == 'd' && "db3_memo"@[0] == 'd'
                && "dbase3withmemo"@[0] == 'd' && "fp"@[0] == 'f' && "foxpro2withmemo"@[0] == 'f');
            assert(n != "db3"@ && n != "dbase3"@ && n != "db3_memo"@ && n != "dbase3withmemo"@);
            assert(n != "fp"@ && n != "foxpro2withmemo"@ && n != "vfp"@ && n != "visualfoxpro"@);
            assert(n != "vfp_auto"@ && n != "visualfoxproautoincrement"@);
        },
        DbfKind::DBase4WithMemo => {
            assert(n == "db4"@);
            assert(n[2] == '4' && "db3"@[2] == '3' && n[0] == 'd' && "fp"@[0] == 'f'
                && "foxpro2withmemo"@[0] == 'f' && "vfp"@[0] == 'v' && "visualfoxpro"@[0] == 'v'
                && "vfp_auto"@[0] == 'v' && "visualfoxproautoincrement"@[0] == 'v' && "vfp_var"@[0] == 'v'
                && "visualfoxprovar"@[0] == 'v');
            assert(n != "db3"@ && n != "dbase3"@ && n != "db3_memo"@ && n != "dbase3withmemo"@);
            assert(n != "fp"@ && n != "foxpro2withmemo"@ && n != "vfp"@ && n != "visualfoxpro"@);
            assert(n != "vfp_auto"@ && n != "visualfoxproautoincrement"@);
            assert(n != "vfp_var"@ && n != "visualfoxprovar"@);
        },
    }
}

/// The name of a field type, as the binding reports it.
pub fn field_type_name(t: FieldType) -> (s: &'static str)
    ensures
        s@ == match t {
            FieldType::NullFlags => "NullFlags"@,
            FieldType::Character => "Character"@,
            FieldType::Date => "Date"@,
            FieldType::Logical => "Logical"@,
            FieldType::Memo => "Memo"@,
            FieldType::Numeric => "Numeric"@,
            FieldType::Float => "Float"@,
            FieldType::Integer => "Integer"@,
            FieldType::Double => "Double"@,
            FieldType::DateTime => "DateTime"@,
            FieldType::Currency => "Currency"@,
            FieldType::General => "General"@,
            FieldType::Picture => "Picture"@,
        },
{
    match t {
        FieldType::NullFlags => "NullFlags",
        FieldType::Character => "Character",
        FieldType::Date => "Date",
        FieldType::Logical => "Logical",
        FieldType::Memo => "Memo",
        FieldType::Numeric => "Numeric",
        FieldType::Float => "Float",
        FieldType::Integer => "Integer",
        FieldType::Double => "Double",
        FieldType::DateTime => "DateTime",
        FieldType::Currency => "Currency",
        FieldType::General => "General",
        FieldType::Picture => "Picture",
    }
}

/// The type code of a field type: its type byte as a character.
pub fn type_code(t: FieldType) -> (c: char)
    ensures
        c as u32 == crate::header::symbol_of(t) as u32,
{
    let b = t.symbol();
    b as char
}

/// The value of a hexadecimal digit.
pub open spec fn hex_value(c: char) -> Option<nat> {
    if '0' <= c && c <= '9' {
        Some((c as nat - '0' as nat) as nat)
    } else if 'a' <= c && c <= 'f' {
        Some((c as nat - 'a' as nat + 10) as nat)
    } else if 'A' <= c && c <= 'F' {
        Some((c as nat - 'A' as nat + 10) as nat)
    } else {
        None
    }
}

/// The number that hexadecimal digits spell, if they all are digits.
pub open spec fn hex_digits_value(s: Seq<char>) -> Option<nat>
    decreases s.len(),
{
    if s.len() == 0 {
        Some(0)
    } else {
        match (hex_digits_value(s.drop_last()), hex_value(s.last())) {
            (Some(a), Some(d)) => Some(a * 16 + d),
            _ => None,
        }
    }
}

/// What `u8::from_str_radix(s, 16)` accepts: an optional `+`, then one or
/// more hexadecimal digits whose value fits a byte.
pub open spec fn parse_hex_byte(s: Seq<char>) -> Option<u8> {
    let d = if s.len() > 0 && s[0] == '+' {
        s.drop_first()
    } else {
        s
    };
    if d.len() == 0 {
        None
    } else {
        match hex_digits_value(d) {
            Some(v) => if v <= 255 {
                Some(v as u8)
            } else {
                None
            },
            None => None,
        }
    }
}

/// `s` without its leading repetitions of `0x` (`str::trim_start_matches`).
pub open spec fn strip_hex_prefix(s: Seq<char>) -> Seq<char>
    decreases s.len(),
{
    if s.len() >= 2 && s[0] == '0' && s[1] == 'x' {
        strip_hex_prefix(s.skip(2))
    } else {
        s
    }
}

/// The mark byte that a `codepage` argument gives as a number: hexadecimal
/// (after any `0x`) first, then decimal.
pub open spec fn numeric_mark(name: Seq<char>) -> Option<u8> {
    match parse_hex_byte(strip_hex_prefix(name)) {
        Some(v) => Some(v),
        None => match parse_unsigned(trim(name), 255) {
            Some(v) => Some(v as u8),
            None => None,
        },
    }
}

/// The encoding that a `codepage` argument selects: a number is a mark
/// byte, anything else a code-page name; `None` (a `ValueError`) for an
/// unknown name.
pub open spec fn codepage_encoding(name: Seq<char>) -> Option<Option<TextEncoding>> {
    match numeric_mark(name) {
        Some(m) => Some(encoding_of_mark(m)),
        None => match mark_of_name(name) {
            Some(m) => Some(encoding_of_mark(m)),
            None => None,
        },
    }
}

fn hex_byte(v: &[char]) -> (r: Option<u8>)
    ensures
        r == parse_hex_byte(v@),
{
    let start: usize = if v.len() > 0 && v[0] == '+' { 1 } else { 0 };
    let ghost d = if v@.len() > 0 && v@[0] == '+' { v@.drop_first() } else { v@ };
    proof {
        assert(d =~= v@.skip(start as int));
    }
    if start >= v.len() {
        return None;
    }
    let mut value: u32 = 0;
    let mut i = start;
    while i < v.len()
        invariant
            start <= i <= v@.len(),
            d == v@.skip(start as int),
            d == (if v@.len() > 0 && v@[0] == '+' { v@.drop_first() } else { v@ }),
            start < v@.len(),
            hex_digits_value(v@.subrange(start as int, i as int)) matches Some(x) && (if x <= 255 {
                value as nat == x
            } else {
                value == 256
            }),
        decreases v.len() - i,
    {
        let c = v[i];
        let dv: u32 = if '0' <= c && c <= '9' {
            (c as u32) - ('0' as u32)
        } else if 'a' <= c && c <= 'f' {
            (c as u32) - ('a' as u32) + 10
        } else if 'A' <= c && c <= 'F' {
            (c as u32) - ('A' as u32) + 10
        } else {
            proof {
                lemma_hex_digits_stop(v@, start as int, i as int);
                assert(v@.subrange(start as int, v@.len() as int) =~= d);
            }
            return None;
        };
        proof {
            let p = v@.subrange(start as int, i as int);
            assert(v@.subrange(start as int, i + 1) =~= p.push(c));
            assert(p.push(c).drop_last() =~= p);
        }
        value = if value > 255 || value * 16 + dv > 255 { 256 } else { value * 16 + dv };
        i += 1;
    }
    proof {
        assert(v@.subrange(start as int, v@.len() as int) =~= d);
    }
    if value <= 255 {
        Some(value as u8)
    } else {
        None
    }
}

/// Digits that a non-digit follows spell nothing.
proof fn lemma_hex_digits_stop(v: Seq<char>, start: int, i: int)
    requires
        0 <= start <= i < v.len(),
        hex_value(v[i]) is None,
    ensures
        hex_digits_value(v.subrange(start, v.len() as int)) is None,
    decreases v.len() - i,
{
    if i == v.len() - 1 {
        assert(v.subrange(start, v.len() as int).last() == v[i]);
    } else {
        lemma_hex_digits_stop(v.drop_last(), start, i);
        assert(v.subrange(start, v.len() as int).drop_last() =~= v.drop_last().subrange(
            start,
            v.len() - 1,
        ));
    }
}

fn strip_hex_prefix_of(v: &[char]) -> (r: Vec<char>)
    ensures
        r@ == strip_hex_prefix(v@),
{
    let mut i: usize = 0;
    proof {
        assert(v@.skip(0) =~= v@);
    }
    while v.len() - i >= 2 && v[i] == '0' && v[i + 1] == 'x'
        invariant
            i <= v@.len(),
            strip_hex_prefix(v@) == strip_hex_prefix(v@.skip(i as int)),
        decreases v.len() - i,
    {
        proof {
            assert(v@.skip(i as int).skip(2) =~= v@.skip(i + 2));
        }
        i += 2;
    }
    proof {
        let s = v@.skip(i as int);
        if s.len() >= 2 {
            assert(s[0] == v@[i as int] && s[1] == v@[i + 1]);
        }
    }
    sub_chars(v, i, v.len())
}

/// The mark byte that a `codepage` argument gives as a number.
pub fn numeric_mark_of(name: &str) -> (r: Option<u8>)
    ensures
        r == numeric_mark(name@),
{
    let v = chars_of(name);
    let s = strip_hex_prefix_of(v.as_slice());
    proof {
        assert(v@.skip(0) =~= v@);
    }
    match hex_byte(s.as_slice()) {
        Some(b) => Some(b),
        None => {
            let t = trim_chars(v.as_slice());
            match parse_unsigned_chars(t.as_slice(), 255) {
                Some(x) => Some(x as u8),
                None => None,
            }
        },
    }
}

/// The encoding that a `codepage` argument selects.
pub fn encoding_for_codepage(name: &str) -> (r: Result<Option<TextEncoding>, ApiError>)
    ensures
        match r {
            Ok(e) => codepage_encoding(name@) == Some(e),
            Err(e) => codepage_encoding(name@) is None && e.kind == ApiErrorKind::Value,
        },
{
    match numeric_mark_of(name) {
        Some(m) => Ok(encoding_for_mark(m)),
        None => match mark_for_name(name) {
            Some(m) => Ok(encoding_for_mark(m)),
            None => Err(api_error(
                ApiErrorKind::Value,
                "unknown codepage; use e.g. 'cp1252', 'windows-1251', or the numeric mark byte",
            )),
        },
    }
}

/// The encoding a table works with: the one given explicitly, else the one
/// its code-page mark selects.
pub fn effective_encoding(explicit: Option<TextEncoding>, mark: CodePageMark) -> (r: Option<TextEncoding>)
    ensures
        r == match explicit {
            Some(e) => Some(e),
            None => encoding_of_mark(mark.0),
        },
{
    match explicit {
        Some(e) => Some(e),
        None => encoding_for_mark(mark.0),
    }
}

// ---------------------------------------------------------------------------
// Field specifications as text
// ---------------------------------------------------------------------------

/// ` X(length,decimals)` after a name.
pub open spec fn dims_text(code: Seq<char>, f: FieldModel) -> Seq<char> {
    code + "("@ + decimal(f.length as nat) + ","@ + decimal(f.decimals as nat) + ")"@
}

/// The specification text of a field, as the binding's `structure(field)`
/// gives it: name, type code and dimensions where the type has them (for
/// the fixed-width types only when decimals are set).
pub open spec fn field_spec_text(f: FieldModel) -> Seq<char> {
    let n = f.name;
    match f.field_type {
        FieldType::Character => n + " C("@ + decimal(f.length as nat) + ")"@,
        FieldType::Numeric => n + dims_text(" N"@, f),
        FieldType::Float => n + dims_text(" F"@, f),
        FieldType::Date => n + " D"@,
        FieldType::Logical => n + " L"@,
        FieldType::Memo => n + " M"@,
        FieldType::General => n + " G"@,
        FieldType::Picture => n + " P"@,
        FieldType::NullFlags => n + " 0"@,
        FieldType::Integer => if f.decimals > 0 {
            n + dims_text(" I"@, f)
        } else {
            n + " I"@
        },
        FieldType::Double => if f.decimals > 0 {
            n + dims_text(" B"@, f)
        } else {
            n + " B"@
        },
        FieldType::DateTime => if f.decimals > 0 {
            n + dims_text(" T"@, f)
        } else {
            n + " T"@
        },
        FieldType::Currency => if f.decimals > 0 {
            n + dims_text(" Y"@, f)
        } else {
            n + " Y"@
        },
    }
}

fn dims_chars(code: &str, f: &FieldDescriptor) -> (v: Vec<char>)
    ensures
        v@ == dims_text(code@, f@),
{
    let mut v = chars_of(code);
    let mut o = chars_of("(");
    v.append(&mut o);
    let mut l = decimal_chars(f.length as u64);
    v.append(&mut l);
    let mut c = chars_of(",");
    v.append(&mut c);
    let mut d = decimal_chars(f.decimals as u64);
    v.append(&mut d);
    let mut e = chars_of(")");
    v.append(&mut e);
    proof {
        assert(v@ =~= dims_text(code@, f@));
    }
    v
}

/// The specification text of a field.
pub fn field_spec_string(info: &FieldDescriptor) -> (s: String)
    ensures
        s@ == field_spec_text(info@),
{
    let mut v = chars_of(info.name.as_str());
    let mut tail: Vec<char> = match info.field_type {
        FieldType::Character => {
            let mut t = chars_of(" C(");
            let mut l = decimal_chars(info.length as u64);
            t.append(&mut l);
            let mut e = chars_of(")");
            t.append(&mut e);
            t
        },
        FieldType::Numeric => dims_chars(" N", info),
        FieldType::Float => dims_chars(" F", info),
        FieldType::Date => chars_of(" D"),
        FieldType::Logical => chars_of(" L"),
        FieldType::Memo => chars_of(" M"),
        FieldType::General => chars_of(" G"),
        FieldType::Picture => chars_of(" P"),
        FieldType::NullFlags => chars_of(" 0"),
        FieldType::Integer => if info.decimals > 0 {
            dims_chars(" I", info)
        } else {
            chars_of(" I")
        },
        FieldType::Double => if info.decimals > 0 {
            dims_chars(" B", info)
        } else {
            chars_of(" B")
        },
        FieldType::DateTime => if info.decimals > 0 {
            dims_chars(" T", info)
        } else {
            chars_of(" T")
        },
        FieldType::Currency => if info.decimals > 0 {
            dims_chars(" Y", info)
        } else {
            chars_of(" Y")
        },
    };
    v.append(&mut tail);
    proof {
        assert(v@ =~= field_spec_text(info@));
    }
    string_from_chars(v.as_slice())
}

/// What `structure(field)` gives for one field: its specification text,
/// then ` null` when it is nullable and ` BINARY` when it holds binary data.
pub open spec fn field_structure_text(f: FieldModel) -> Seq<char> {
    field_spec_text(f) + (if flag_nullable(f.flags) {
        " null"@
    } else {
        Seq::empty()
    }) + (if flag_binary(f.flags) {
        " BINARY"@
    } else {
        Seq::empty()
    })
}

/// The structure line of one field.
pub fn field_structure(info: &FieldDescriptor) -> (s: String)
    ensures
        s@ == field_structure_text(info@),
{
    let spec = field_spec_string(info);
    let mut v = chars_of(spec.as_str());
    if info.is_nullable() {
        let mut n = chars_of(" null");
        v.append(&mut n);
    }
    if info.is_binary() {
        let mut b = chars_of(" BINARY");
        v.append(&mut b);
    }
    proof {
        assert(v@ =~= field_structure_text(info@));
    }
    string_from_chars(v.as_slice())
}

// ---------------------------------------------------------------------------
// Rows and values coming from Python
// ---------------------------------------------------------------------------

/// A message with a number in it: `prefix`, the number, `suffix`.
fn message_with(prefix: &str, n: u64, suffix: &str) -> (s: String)
    ensures
        s@ == prefix@ + decimal(n as nat) + suffix@,
{
    let mut v = chars_of(prefix);
    let mut d = decimal_chars(n);
    v.append(&mut d);
    let mut t = chars_of(suffix);
    v.append(&mut t);
    string_from_chars(v.as_slice())
}

/// The record at `index` of `count`: `KeyError` past the end.
pub fn record_index(count: usize, index: usize) -> (r: Result<usize, ApiError>)
    ensures
        r is Ok <==> index < count,
        r matches Ok(i) ==> i == index,
        r matches Err(e) ==> e.kind == ApiErrorKind::Key,
{
    if index < count {
        Ok(index)
    } else {
        Err(ApiError {
            kind: ApiErrorKind::Key,
            message: message_with("record index out of range: ", index as u64, ""),
        })
    }
}

/// A row given as a sequence must have one value per field: `ValueError`
/// otherwise.
pub fn check_row_width(len: usize, width: usize) -> (r: Result<(), ApiError>)
    ensures
        r is Ok <==> len == width,
        r matches Err(e) ==> e.kind == ApiErrorKind::Value,
{
    if len != width {
        let mut v = chars_of("append sequence width ");
        let mut a = decimal_chars(len as u64);
        v.append(&mut a);
        let mut m = chars_of(" does not match table width ");
        v.append(&mut m);
        let mut b = decimal_chars(width as u64);
        v.append(&mut b);
        Err(ApiError { kind: ApiErrorKind::Value, message: string_from_chars(v.as_slice()) })
    } else {
        Ok(())
    }
}

/// The value of a `C` field given as text: the text itself, when the
/// table's encoding can write it (`ValueError` otherwise).
pub fn character_from_text(text: &str, encoding: Option<TextEncoding>) -> (r: Result<Value, ApiError>)
    ensures
        match r {
            Ok(v) => encode_text(text@, encoding) is Some && v@ == ValueModel::Character(text@),
            Err(e) => encode_text(text@, encoding) is None && e.kind == ApiErrorKind::Value,
        },
{
    match encoding {
        Some(enc) => {
            if encode_str(text, encoding).is_none() {
                let mut v = chars_of("string contains characters that cannot be encoded in ");
                let name = enc.name();
                let mut n = chars_of(name.as_str());
                v.push('"');
                v.append(&mut n);
                v.push('"');
                return Err(ApiError { kind: ApiErrorKind::Value, message: string_from_chars(v.as_slice()) });
            }
            Ok(Value::Character(crate::error::plain_message(text)))
        },
        None => Ok(Value::Character(crate::error::plain_message(text))),
    }
}

/// The value of a `C` field given as bytes: their text in the table's
/// encoding.
pub fn character_from_bytes(bytes: &[u8], encoding: Option<TextEncoding>) -> (v: Value)
    ensures
        v@ == ValueModel::Character(crate::codepage::decode_text(bytes@, encoding)),
{
    Value::Character(crate::codepage::decode_bytes(bytes, encoding))
}

/// The value of an `M` field given as text: the text encoded in the
/// table's encoding (what the encoder writes for characters it lacks
/// included).
pub fn memo_from_text(text: &str, encoding: Option<TextEncoding>) -> (v: Value)
    ensures
        v@ == ValueModel::Memo(crate::codepage::encoded_bytes(text@, encoding)),
{
    Value::Memo(crate::codepage::encode_lossy(text, encoding))
}

/// The position that a Python index (negative from the end) names in a
/// record of `len` fields.
pub open spec fn position_of_index(len: int, index: int) -> Option<int> {
    let pos = if index < 0 {
        len + index
    } else {
        index
    };
    if 0 <= pos < len {
        Some(pos)
    } else {
        None
    }
}

/// The position that a Python index names: `KeyError` out of range.
pub fn record_position(len: usize, index: i64) -> (r: Result<usize, ApiError>)
    requires
        len <= i64::MAX,
    ensures
        match r {
            Ok(i) => position_of_index(len as int, index as int) == Some(i as int),
            Err(e) => position_of_index(len as int, index as int) is None && e.kind == ApiErrorKind::Key,
        },
{
    let l = len as i64;
    let pos: i64 = if index < 0 {
        l + index
    } else {
        index
    };
    if 0 <= pos && pos < l {
        Ok(pos as usize)
    } else {
        let mut v = chars_of("record index out of range: ");
        let mag: u64 = if index < 0 {
            (-(index + 1)) as u64 + 1
        } else {
            index as u64
        };
        if index < 0 {
            v.push('-');
        }
        let mut d = decimal_chars(mag);
        v.append(&mut d);
        Err(ApiError { kind: ApiErrorKind::Key, message: string_from_chars(v.as_slice()) })
    }
}

/// The position of the field that a name (trimmed, upper-cased) names:
/// `KeyError` when there is none.
pub fn named_position(fields: &[FieldDescriptor], name: &str) -> (r: Result<usize, ApiError>)
    ensures
        match r {
            Ok(i) => crate::record::field_position(
                crate::record::fields_view(fields@),
                crate::record::normalized_name(name@),
            ) == Some(i as nat),
            Err(e) => crate::record::field_position(
                crate::record::fields_view(fields@),
                crate::record::normalized_name(name@),
            ) is None && e.kind == ApiErrorKind::Key,
        },
{
    match crate::record::index_of(fields, name) {
        Ok(i) => Ok(i),
        Err(e) => {
            let mut v = chars_of("field not found: ");
            let detail = match e {
                Error::FieldNotFound(n) => n,
                _ => crate::error::plain_message(""),
            };
            let mut d = chars_of(detail.as_str());
            v.append(&mut d);
            Err(ApiError { kind: ApiErrorKind::Key, message: string_from_chars(v.as_slice()) })
        },
    }
}

// ---------------------------------------------------------------------------
// Specification text read back
// ---------------------------------------------------------------------------

/// The type part of a field's specification text: its code and, where
/// the text has them, its dimensions.
pub open spec fn type_word(f: FieldModel) -> Seq<char> {
    match f.field_type {
        FieldType::Character => "C("@ + decimal(f.length as nat) + ")"@,
        FieldType::Numeric => dims_text("N"@, f),
        FieldType::Float => dims_text("F"@, f),
        FieldType::Date => "D"@,
        FieldType::Logical => "L"@,
        FieldType::Memo => "M"@,
        FieldType::General => "G"@,
        FieldType::Picture => "P"@,
        FieldType::NullFlags => "0"@,
        FieldType::Integer => if f.decimals > 0 {
            dims_text("I"@, f)
        } else {
            "I"@
        },
        FieldType::Double => if f.decimals > 0 {
            dims_text("B"@, f)
        } else {
            "B"@
        },
        FieldType::DateTime => if f.decimals > 0 {
            dims_text("T"@, f)
        } else {
            "T"@
        },
        FieldType::Currency => if f.decimals > 0 {
            dims_text("Y"@, f)
        } else {
            "Y"@
        },
    }
}

/// A character that field specifications give names: an upper-case
/// letter, a digit or an underscore.
pub open spec fn listed_name_char(c: char) -> bool {
    ('A' <= c && c <= 'Z') || ('0' <= c && c <= '9') || c == '_'
}

/// A name of at most eleven such characters: what the specification parser
/// produces and a descriptor stores.
pub open spec fn listed_name(name: Seq<char>) -> bool {
    name.len() <= 11 && forall|i: int| 0 <= i < name.len() ==> listed_name_char(#[trigger] name[i])
}

/// The fields whose specification text reads back as their
/// specification: a stored name, no binary flag, a length, and the
/// dimensions that the text shows or that parsing fills in (a type's own
/// width, no decimals for characters).
pub open spec fn spec_text_faithful(f: FieldModel) -> bool {
    let t = f.field_type;
    &&& f.name.len() > 0
    &&& listed_name(f.name)
    &&& f.length >= 1
    &&& match t {
        FieldType::Character => f.decimals == 0,
        FieldType::Numeric | FieldType::Float => true,
        FieldType::Date | FieldType::Logical | FieldType::Memo | FieldType::General
        | FieldType::Picture => f.length == default_dimensions(t) && f.decimals == 0,
        FieldType::Integer | FieldType::Double | FieldType::DateTime | FieldType::Currency => f.decimals
            > 0 || f.length == default_dimensions(t),
        FieldType::NullFlags => false,
    }
}

/// A word without blanks, followed by nothing or a blank, is the first word.
proof fn lemma_words_first(w: Seq<char>, rest: Seq<char>)
    requires
        w.len() > 0,
        forall|k: int| 0 <= k < w.len() ==> !is_space(#[trigger] w[k]),
        rest.len() > 0 ==> is_space(rest[0]),
    ensures
        words(w + rest) == seq![w] + words(rest),
{
    let s = w + rest;
    assert(!is_space(s[0]));
    assert(crate::text::trim_start(s) == s);
    assert forall|k: int| 0 <= k < w.len() implies !is_space(#[trigger] s[k]) by {
        assert(s[k] == w[k]);
    }
    if rest.len() > 0 {
        assert(s[w.len() as int] == rest[0]);
    }
    lemma_word_len_is(s, w.len() as int);
    assert(s.take(w.len() as int) =~= w);
    assert(s.skip(w.len() as int) =~= rest);
}

/// A leading blank does not change the words.
proof fn lemma_words_blank(x: Seq<char>)
    ensures
        words(seq![' '] + x) == words(x),
{
    let s = seq![' '] + x;
    assert(is_space(s[0]));
    assert(s.drop_first() =~= x);
    assert(crate::text::trim_start(s) == crate::text::trim_start(x));
}

/// Decimal digits: no blank, comma or bracket among them.
proof fn lemma_digits_plain(n: nat)
    ensures
        decimal(n).len() >= 1,
        forall|k: int| 0 <= k < decimal(n).len() ==> is_digit(#[trigger] decimal(n)[k]),
        forall|k: int| 0 <= k < decimal(n).len() ==> !is_space(#[trigger] decimal(n)[k]),
        forall|k: int| 0 <= k < decimal(n).len() ==> #[trigger] decimal(n)[k] != ',',
        crate::text::trim(decimal(n)) == decimal(n),
        n <= 255 ==> parse_unsigned(decimal(n), 255) == Some(n),
{
    lemma_decimal_digits(n);
    let d = decimal(n);
    assert(is_digit(d[0]) && is_digit(d.last()));
    lemma_trim_no_space(d);
}

/// A text without the separator is one piece.
proof fn lemma_split_one(s: Seq<char>, sep: char)
    requires
        forall|k: int| 0 <= k < s.len() ==> s[k] != sep,
    ensures
        split_on(s, sep) == seq![s],
{
    lemma_find_char_is(s, sep, s.len() as int);
}

/// Two texts without the separator, joined by it, are two pieces.
proof fn lemma_split_two(a: Seq<char>, b: Seq<char>, sep: char)
    requires
        forall|k: int| 0 <= k < a.len() ==> a[k] != sep,
        forall|k: int| 0 <= k < b.len() ==> b[k] != sep,
    ensures
        split_on(a + seq![sep] + b, sep) == seq![a, b],
{
    let s = a + seq![sep] + b;
    assert forall|k: int| 0 <= k < a.len() implies s[k] != sep by {
        assert(s[k] == a[k]);
    }
    assert(s[a.len() as int] == sep);
    lemma_find_char_is(s, sep, a.len() as int);
    assert(s.take(a.len() as int) =~= a);
    assert(s.skip(a.len() + 1 as int) =~= b);
    lemma_split_one(b, sep);
}

/// The `(length,decimals)` part of a type word reads back.
proof fn lemma_dims_round_trip(f: FieldModel, with_decimals: bool)
    ensures
        crate::spec::dimensions_from_text(
            if with_decimals {
                "("@ + decimal(f.length as nat) + ","@ + decimal(f.decimals as nat) + ")"@
            } else {
                "("@ + decimal(f.length as nat) + ")"@
            },
            0,
        ) == Ok::<(u8, u8), ErrorKind>((f.length, if with_decimals { f.decimals } else { 0u8 })),
{
    reveal_strlit("(");
    reveal_strlit(")");
    reveal_strlit(",");
    lemma_digits_plain(f.length as nat);
    lemma_digits_plain(f.decimals as nat);
    let l = decimal(f.length as nat);
    let d = decimal(f.decimals as nat);
    if with_decimals {
        let dims = "("@ + l + ","@ + d + ")"@;
        assert(dims.subrange(1, dims.len() - 1) =~= l + seq![','] + d);
        lemma_split_two(l, d, ',');
    } else {
        let dims = "("@ + l + ")"@;
        assert(dims.subrange(1, dims.len() - 1) =~= l);
        lemma_split_one(l, ',');
    }
}

/// ASCII text takes one UTF-8 byte per character.
proof fn lemma_ascii_utf8_len(s: Seq<char>)
    requires
        forall|k: int| 0 <= k < s.len() ==> (#[trigger] s[k] as u32) < 0x80,
    ensures
        utf8_len(s) == s.len(),
    decreases s.len(),
{
    if s.len() > 0 {
        lemma_ascii_utf8_len(s.drop_last());
    }
}

/// The type word of a field reads back as its type and dimensions.
#[verifier::spinoff_prover]
proof fn lemma_type_word_round_trip(f: FieldModel)
    requires
        spec_text_faithful(f),
    ensures
        crate::spec::type_from_text(type_word(f)) == Ok::<(FieldType, u8, u8), ErrorKind>(
            (f.field_type, f.length, f.decimals),
        ),
        type_word(f).len() > 0,
        forall|k: int| 0 <= k < type_word(f).len() ==> !is_space(#[trigger] type_word(f)[k]),
{
    let w = type_word(f);
    let t = f.field_type;
    reveal_strlit("C(");
    reveal_strlit(")");
    reveal_strlit("(");
    reveal_strlit(",");
    reveal_strlit("N");
    reveal_strlit("F");
    reveal_strlit("D");
    reveal_strlit("L");
    reveal_strlit("M");
    reveal_strlit("G");
    reveal_strlit("P");
    reveal_strlit("I");
    reveal_strlit("B");
    reveal_strlit("T");
    reveal_strlit("Y");
    lemma_digits_plain(f.length as nat);
    lemma_digits_plain(f.decimals as nat);
    crate::header::law_symbol_round_trip(t);
    let l = decimal(f.length as nat);
    let d = decimal(f.decimals as nat);
    let with_dims = t == FieldType::Character || t == FieldType::Numeric || t == FieldType::Float
        || ((t == FieldType::Integer || t == FieldType::Double || t == FieldType::DateTime || t
        == FieldType::Currency) && f.decimals > 0);
    let with_decimals = with_dims && t != FieldType::Character;
    let tail = if !with_dims {
        Seq::<char>::empty()
    } else if with_decimals {
        "("@ + l + ","@ + d + ")"@
    } else {
        "("@ + l + ")"@
    };
    assert(w =~= seq![w[0]] + tail);
    assert(w.drop_first() =~= tail);
    assert(w[0] as u32 == crate::header::symbol_of(t) as u32);
    assert forall|k: int| 0 <= k < w.len() implies !is_space(#[trigger] w[k]) by {
        if k > 0 {
            assert(w[k] == tail[k - 1]);
        }
    }
    assert(!is_space(w[0]) && !is_space(w.last()));
    lemma_trim_no_space(w);
    if with_dims {
        assert(!is_space(tail[0]) && !is_space(tail.last()));
        lemma_trim_no_space(tail);
        lemma_dims_round_trip(f, with_decimals);
        assert(crate::spec::dimensions_from_text(tail, default_dimensions(t))
            == crate::spec::dimensions_from_text(tail, 0));
    }
}

/// A field's specification text is its name, a blank and its type word.
#[verifier::spinoff_prover]
proof fn lemma_spec_text_shape(f: FieldModel)
    ensures
        field_spec_text(f) == f.name + seq![' '] + type_word(f),
{
    match f.field_type {
        FieldType::Character => {
            reveal_strlit(" C(");
            reveal_strlit("C(");
            assert(field_spec_text(f) =~= f.name + seq![' '] + type_word(f));
        },
        FieldType::Numeric => {
            reveal_strlit(" N");
            reveal_strlit("N");
            assert(field_spec_text(f) =~= f.name + seq![' '] + type_word(f));
        },
        FieldType::Float => {
            reveal_strlit(" F");
            reveal_strlit("F");
            assert(field_spec_text(f) =~= f.name + seq![' '] + type_word(f));
        },
        FieldType::Date => {
            reveal_strlit(" D");
            reveal_strlit("D");
            assert(field_spec_text(f) =~= f.name + seq![' '] + type_word(f));
        },
        FieldType::Logical => {
            reveal_strlit(" L");
            reveal_strlit("L");
            assert(field_spec_text(f) =~= f.name + seq![' '] + type_word(f));
        },
        FieldType::Memo => {
            reveal_strlit(" M");
            reveal_strlit("M");
            assert(field_spec_text(f) =~= f.name + seq![' '] + type_word(f));
        },
        FieldType::General => {
            reveal_strlit(" G");
            reveal_strlit("G");
            assert(field_spec_text(f) =~= f.name + seq![' '] + type_word(f));
        },
        FieldType::Picture => {
            reveal_strlit(" P");
            reveal_strlit("P");
            assert(field_spec_text(f) =~= f.name + seq![' '] + type_word(f));
        },
        FieldType::NullFlags => {
            reveal_strlit(" 0");
            reveal_strlit("0");
            assert(field_spec_text(f) =~= f.name + seq![' '] + type_word(f));
        },
        FieldType::Integer => {
            reveal_strlit(" I");
            reveal_strlit("I");
            assert(field_spec_text(f) =~= f.name + seq![' '] + type_word(f));
        },
        FieldType::Double => {
            reveal_strlit(" B");
            reveal_strlit("B");
            assert(field_spec_text(f) =~= f.name + seq![' '] + type_word(f));
        },
        FieldType::DateTime => {
            reveal_strlit(" T");
            reveal_strlit("T");
            assert(field_spec_text(f) =~= f.name + seq![' '] + type_word(f));
        },
        FieldType::Currency => {
            reveal_strlit(" Y");
            reveal_strlit("Y");
            assert(field_spec_text(f) =~= f.name + seq![' '] + type_word(f));
        },
    }
}

/// The modifier words of a field's structure line.
pub open spec fn structure_mods(f: FieldModel) -> Seq<Seq<char>> {
    (if flag_nullable(f.flags) {
        seq!["null"@]
    } else {
        Seq::empty()
    }) + (if flag_binary(f.flags) {
        seq!["BINARY"@]
    } else {
        Seq::empty()
    })
}

/// A blank, a word, then nothing or a blank-led rest: the word comes first.
proof fn lemma_words_blank_first(m: Seq<char>, rest: Seq<char>)
    requires
        m.len() > 0,
        forall|k: int| 0 <= k < m.len() ==> !is_space(#[trigger] m[k]),
        rest.len() > 0 ==> is_space(rest[0]),
    ensures
        words(seq![' '] + m + rest) == seq![m] + words(rest),
{
    assert(seq![' '] + m + rest =~= seq![' '] + (m + rest));
    lemma_words_blank(m + rest);
    lemma_words_first(m, rest);
}

/// The words of `name type` followed by blank-led modifier `m` (when
/// there is one).
proof fn lemma_spec_words(name: Seq<char>, ty: Seq<char>, m: Seq<char>)
    requires
        name.len() > 0,
        ty.len() > 0,
        forall|k: int| 0 <= k < name.len() ==> !is_space(#[trigger] name[k]),
        forall|k: int| 0 <= k < ty.len() ==> !is_space(#[trigger] ty[k]),
        forall|k: int| 0 <= k < m.len() ==> !is_space(#[trigger] m[k]),
    ensures
        words(name + seq![' '] + ty) == seq![name, ty],
        m.len() > 0 ==> words(name + seq![' '] + ty + seq![' '] + m) == seq![name, ty, m],
{
    assert(words(Seq::<char>::empty()) =~= Seq::<Seq<char>>::empty());
    assert(name + seq![' '] + ty =~= name + (seq![' '] + ty + Seq::<char>::empty()));
    lemma_words_blank_first(ty, Seq::<char>::empty());
    lemma_words_first(name, seq![' '] + ty + Seq::<char>::empty());
    assert(seq![name] + (seq![ty] + Seq::<Seq<char>>::empty()) =~= seq![name, ty]);
    if m.len() > 0 {
        let tail = seq![' '] + m + Seq::<char>::empty();
        lemma_words_blank_first(m, Seq::<char>::empty());
        lemma_words_blank_first(ty, tail);
        let rest = seq![' '] + ty + tail;
        lemma_words_first(name, rest);
        assert(name + seq![' '] + ty + seq![' '] + m =~= name + rest);
        assert(seq![name] + (seq![ty] + (seq![m] + Seq::<Seq<char>>::empty())) =~= seq![name, ty, m]);
    }
}

/// Both nullable modifiers mark a field nullable: a specification
/// `name type nullable` reads as `name type null`, and both read as
/// `name type` with the field made nullable (or fail as it does). The
/// `binary` modifier likewise marks the field binary.
#[verifier::spinoff_prover]
pub proof fn law_spec_modifiers(name: Seq<char>, ty: Seq<char>)
    requires
        name.len() > 0,
        ty.len() > 0,
        forall|k: int| 0 <= k < name.len() ==> !is_space(#[trigger] name[k]),
        forall|k: int| 0 <= k < ty.len() ==> !is_space(#[trigger] ty[k]),
    ensures
        spec_from_text(name + seq![' '] + ty + seq![' '] + "nullable"@) == spec_from_text(
            name + seq![' '] + ty + seq![' '] + "null"@,
        ),
        spec_from_text(name + seq![' '] + ty + seq![' '] + "null"@) == match spec_from_text(
            name + seq![' '] + ty,
        ) {
            Ok(s) => Ok::<FieldSpecModel, ErrorKind>(FieldSpecModel { nullable: true, ..s }),
            Err(e) => Err(e),
        },
        spec_from_text(name + seq![' '] + ty + seq![' '] + "binary"@) == match spec_from_text(
            name + seq![' '] + ty,
        ) {
            Ok(s) => Ok::<FieldSpecModel, ErrorKind>(FieldSpecModel { binary: true, ..s }),
            Err(e) => Err(e),
        },
{
    reveal_strlit("nullable");
    reveal_strlit("null");
    reveal_strlit("binary");
    lemma_spec_words(name, ty, "nullable"@);
    lemma_spec_words(name, ty, "null"@);
    lemma_spec_words(name, ty, "binary"@);
    assert(lower_all("nullable"@) =~= "nullable"@);
    assert(lower_all("null"@) =~= "null"@);
    assert(lower_all("binary"@) =~= "binary"@);
    assert("binary"@ != "null"@ && "binary"@ != "nullable"@);
    assert("null"@ != "binary"@ && "nullable"@ != "binary"@);
    let w1 = seq![name, ty, "nullable"@];
    let w2 = seq![name, ty, "null"@];
    let w3 = seq![name, ty, "binary"@];
    assert(crate::spec::nullable_word(w1[2]) && crate::spec::modifier_word(w1[2]));
    assert(crate::spec::nullable_word(w2[2]) && crate::spec::modifier_word(w2[2]));
    assert(crate::spec::binary_word(w3[2]) && crate::spec::modifier_word(w3[2]));
    assert(!crate::spec::binary_word(w1[2]) && !crate::spec::binary_word(w2[2]));
    assert(!crate::spec::nullable_word(w3[2]));
    assert forall|i: int| 2 <= i < w1.len() implies crate::spec::modifier_word(#[trigger] w1[i]) by {}
    assert forall|i: int| 2 <= i < w2.len() implies crate::spec::modifier_word(#[trigger] w2[i]) by {}
    assert forall|i: int| 2 <= i < w3.len() implies crate::spec::modifier_word(#[trigger] w3[i]) by {}
    assert(!(exists|i: int| 2 <= i < w1.len() && crate::spec::binary_word(#[trigger] w1[i])));
    assert(!(exists|i: int| 2 <= i < w2.len() && crate::spec::binary_word(#[trigger] w2[i])));
    assert(!(exists|i: int| 2 <= i < w3.len() && crate::spec::nullable_word(#[trigger] w3[i])));
    assert(exists|i: int| 2 <= i < w1.len() && crate::spec::nullable_word(#[trigger] w1[i]));
    assert(exists|i: int| 2 <= i < w2.len() && crate::spec::nullable_word(#[trigger] w2[i]));
    assert(exists|i: int| 2 <= i < w3.len() && crate::spec::binary_word(#[trigger] w3[i]));
    let w0 = seq![name, ty];
    assert(!(exists|i: int| 2 <= i < w0.len() && crate::spec::nullable_word(#[trigger] w0[i])));
    assert(!(exists|i: int| 2 <= i < w0.len() && crate::spec::binary_word(#[trigger] w0[i])));
    assert(forall|i: int| 2 <= i < w0.len() ==> crate::spec::modifier_word(#[trigger] w0[i]));
}

/// The words of a field's structure line: its name, its type word, and
/// its modifiers.
proof fn lemma_structure_words(f: FieldModel)
    requires
        spec_text_faithful(f),
    ensures
        words(field_structure_text(f)) == seq![f.name, type_word(f)] + structure_mods(f),
{
    reveal_strlit(" null");
    reveal_strlit("null");
    reveal_strlit(" BINARY");
    reveal_strlit("BINARY");
    let name = f.name;
    let w = type_word(f);
    lemma_type_word_round_trip(f);
    lemma_spec_text_shape(f);
    let bl = if flag_binary(f.flags) {
        seq![' '] + "BINARY"@
    } else {
        Seq::<char>::empty()
    };
    let nl = if flag_nullable(f.flags) {
        seq![' '] + "null"@ + bl
    } else {
        bl
    };
    assert(field_structure_text(f) =~= name + (seq![' '] + (w + nl)));
    assert forall|k: int| 0 <= k < name.len() implies !is_space(#[trigger] name[k]) by {
        assert(listed_name_char(name[k]));
    }
    lemma_words_first(name, seq![' '] + (w + nl));
    lemma_words_blank(w + nl);
    lemma_words_first(w, nl);
    assert(words(Seq::<char>::empty()) =~= Seq::<Seq<char>>::empty());
    assert(forall|k: int| 0 <= k < "BINARY"@.len() ==> !is_space(#[trigger] "BINARY"@[k]));
    assert(forall|k: int| 0 <= k < "null"@.len() ==> !is_space(#[trigger] "null"@[k]));
    let wb = if flag_binary(f.flags) {
        seq!["BINARY"@]
    } else {
        Seq::<Seq<char>>::empty()
    };
    if flag_binary(f.flags) {
        lemma_words_blank_first("BINARY"@, Seq::<char>::empty());
        assert(seq![' '] + "BINARY"@ + Seq::<char>::empty() =~= bl);
        assert(seq!["BINARY"@] + Seq::<Seq<char>>::empty() =~= wb);
    }
    assert(words(bl) == wb);
    if flag_nullable(f.flags) {
        lemma_words_blank_first("null"@, bl);
        assert(words(nl) =~= seq!["null"@] + wb);
    }
    assert(seq![f.name, w] + structure_mods(f) =~= seq![name] + (seq![w] + words(nl)));
}

/// A stored name reads back as itself through the name rules.
proof fn lemma_name_parses(name: Seq<char>)
    requires
        name.len() > 0,
        listed_name(name),
    ensures
        crate::spec::name_from_text(name) == Ok::<Seq<char>, ErrorKind>(name),
{
    assert forall|k: int| 0 <= k < name.len() implies (#[trigger] name[k] as u32) < 0x80 by {
        assert(listed_name_char(name[k]));
    }
    lemma_ascii_utf8_len(name);
    assert(listed_name_char(name[0]));
    assert(listed_name_char(name.last()));
    lemma_trim_no_space(name);
    assert(upper_all(name) =~= name) by {
        assert forall|k: int| 0 <= k < name.len() implies crate::text::upper(name[k]) == name[k] by {
            assert(listed_name_char(name[k]));
        }
    }
    assert forall|k: int| 0 <= k < name.len() implies crate::spec::name_char(#[trigger] name[k]) by {
        assert(listed_name_char(name[k]));
    }
}

/// A field's structure text (`structure(field)`) reads back, through the
/// specification parser, as the field's specification: name, type,
/// length, decimals, nullability and binariness.
#[verifier::spinoff_prover]
pub proof fn law_field_structure_round_trip(f: FieldModel)
    requires
        spec_text_faithful(f),
    ensures
        spec_from_text(field_structure_text(f)) == Ok::<FieldSpecModel, ErrorKind>(
            FieldSpecModel {
                name: f.name,
                field_type: f.field_type,
                length: f.length,
                decimals: f.decimals,
                nullable: flag_nullable(f.flags),
                binary: flag_binary(f.flags),
            },
        ),
{
    reveal_strlit("null");
    reveal_strlit("BINARY");
    reveal_strlit("binary");
    reveal_strlit("nullable");
    lemma_structure_words(f);
    lemma_type_word_round_trip(f);
    lemma_name_parses(f.name);
    let ws = words(field_structure_text(f));
    let mods = structure_mods(f);
    assert(lower_all("null"@) =~= "null"@);
    assert(lower_all("BINARY"@) =~= "binary"@);
    assert(!crate::spec::binary_word("null"@));
    assert(!crate::spec::nullable_word("BINARY"@));
    assert forall|i: int| 2 <= i < ws.len() implies crate::spec::modifier_word(#[trigger] ws[i]) by {
        assert(ws[i] == mods[i - 2]);
    }
    if flag_nullable(f.flags) {
        assert(ws[2] == "null"@);
        assert(crate::spec::nullable_word(ws[2]));
    } else {
        assert forall|i: int| 2 <= i < ws.len() implies !crate::spec::nullable_word(#[trigger] ws[i]) by {
            assert(ws[i] == mods[i - 2]);
        }
    }
    if flag_binary(f.flags) {
        let j = ws.len() - 1;
        assert(ws[j] == "BINARY"@);
        assert(crate::spec::binary_word(ws[j]));
    } else {
        assert forall|i: int| 2 <= i < ws.len() implies !crate::spec::binary_word(#[trigger] ws[i]) by {
            assert(ws[i] == mods[i - 2]);
        }
    }
}

/// Splitting a text, a separator and a piece without separators: the
/// pieces of the text, then that piece.
proof fn lemma_split_push(a: Seq<char>, b: Seq<char>, sep: char)
    requires
        forall|k: int| 0 <= k < b.len() ==> b[k] != sep,
    ensures
        split_on(a + seq![sep] + b, sep) == split_on(a, sep).push(b),
    decreases a.len(),
{
    crate::text::lemma_find_char_bound(a, sep);
    let s = a + seq![sep] + b;
    match find_char(a, sep) {
        None => {
            lemma_split_two(a, b, sep);
            lemma_split_one(a, sep);
            assert(seq![a, b] =~= seq![a].push(b));
        },
        Some(i) => {
            let i = i as int;
            assert forall|k: int| 0 <= k < i implies s[k] != sep by {
                assert(s[k] == a[k]);
            }
            assert(s[i] == a[i]);
            lemma_find_char_is(s, sep, i);
            assert(s.take(i) =~= a.take(i));
            assert(s.skip(i + 1) =~= a.skip(i + 1) + seq![sep] + b);
            lemma_split_push(a.skip(i + 1), b, sep);
            assert(split_on(s, sep) =~= split_on(a, sep).push(b));
        },
    }
}

/// Reading one more piece, blank-led, that parses: its specification
/// follows those of the pieces before.
proof fn lemma_specs_push(ps: Seq<Seq<char>>, x: Seq<char>, r: Seq<FieldSpecModel>, f: FieldSpecModel)
    requires
        crate::spec::specs_from_pieces(ps) == Ok::<Seq<FieldSpecModel>, ErrorKind>(r),
        trim(x).len() > 0,
        spec_from_text(trim(x)) == Ok::<FieldSpecModel, ErrorKind>(f),
    ensures
        crate::spec::specs_from_pieces(ps.push(x)) == Ok::<Seq<FieldSpecModel>, ErrorKind>(r.push(f)),
    decreases ps.len(),
{
    let q = ps.push(x);
    assert(crate::spec::specs_from_pieces(Seq::<Seq<char>>::empty()) == Ok::<
        Seq<FieldSpecModel>,
        ErrorKind,
    >(Seq::empty()));
    if ps.len() == 0 {
        assert(q.drop_first() =~= Seq::<Seq<char>>::empty());
        assert(seq![f] + Seq::<FieldSpecModel>::empty() =~= r.push(f));
    } else {
        assert(q[0] == ps[0]);
        assert(q.drop_first() =~= ps.drop_first().push(x));
        let t = trim(ps[0]);
        if t.len() == 0 {
            lemma_specs_push(ps.drop_first(), x, r, f);
        } else {
            let g = spec_from_text(t)->Ok_0;
            let rest = crate::spec::specs_from_pieces(ps.drop_first())->Ok_0;
            assert(r == seq![g] + rest);
            lemma_specs_push(ps.drop_first(), x, rest, f);
            assert(seq![g] + rest.push(f) =~= r.push(f));
        }
    }
}

/// A type word holds no `;`.
#[verifier::spinoff_prover]
proof fn lemma_type_word_no_semicolon(f: FieldModel)
    ensures
        forall|k: int| 0 <= k < type_word(f).len() ==> #[trigger] type_word(f)[k] != ';',
{
    reveal_strlit("C(");
    reveal_strlit(")");
    reveal_strlit("(");
    reveal_strlit(",");
    reveal_strlit("N");
    reveal_strlit("F");
    reveal_strlit("D");
    reveal_strlit("L");
    reveal_strlit("M");
    reveal_strlit("G");
    reveal_strlit("P");
    reveal_strlit("I");
    reveal_strlit("B");
    reveal_strlit("T");
    reveal_strlit("Y");
    reveal_strlit("0");
    lemma_digits_plain(f.length as nat);
    lemma_digits_plain(f.decimals as nat);
    let w = type_word(f);
    let t = f.field_type;
    let l = decimal(f.length as nat);
    let d = decimal(f.decimals as nat);
    let with_dims = t == FieldType::Character || t == FieldType::Numeric || t == FieldType::Float
        || ((t == FieldType::Integer || t == FieldType::Double || t == FieldType::DateTime || t
        == FieldType::Currency) && f.decimals > 0);
    let with_decimals = with_dims && t != FieldType::Character;
    let tail = if !with_dims {
        Seq::<char>::empty()
    } else if with_decimals {
        "("@ + l + ","@ + d + ")"@
    } else {
        "("@ + l + ")"@
    };
    assert(w =~= seq![w[0]] + tail);
    assert(w[0] != ';');
    assert forall|k: int| 0 <= k < w.len() implies #[trigger] w[k] != ';' by {
        if k > 0 {
            assert(w[k] == tail[k - 1]);
            if with_dims {
                let j = k - 1;
                if with_decimals {
                    if 1 <= j < 1 + l.len() {
                        assert(tail[j] == l[j - 1]);
                        assert(is_digit(l[j - 1]));
                    } else if 2 + l.len() <= j < 2 + l.len() + d.len() {
                        assert(tail[j] == d[j - 2 - l.len()]);
                        assert(is_digit(d[j - 2 - l.len()]));
                    }
                } else {
                    if 1 <= j < 1 + l.len() {
                        assert(tail[j] == l[j - 1]);
                        assert(is_digit(l[j - 1]));
                    }
                }
            }
        }
    }
}

/// A field's structure line: no `;`, and no blank at either end.
proof fn lemma_structure_line(f: FieldModel)
    requires
        spec_text_faithful(f),
    ensures
        forall|k: int| 0 <= k < field_structure_text(f).len() ==> #[trigger] field_structure_text(f)[k] != ';',
        field_structure_text(f).len() > 0,
        !is_space(field_structure_text(f)[0]),
        !is_space(field_structure_text(f).last()),
{
    reveal_strlit(" null");
    reveal_strlit(" BINARY");
    lemma_spec_text_shape(f);
    lemma_type_word_round_trip(f);
    lemma_type_word_no_semicolon(f);
    let w = type_word(f);
    let name = f.name;
    let bl = if flag_binary(f.flags) { " BINARY"@ } else { Seq::<char>::empty() };
    let nl = if flag_nullable(f.flags) { " null"@ } else { Seq::<char>::empty() };
    let text = field_structure_text(f);
    assert(text =~= name + seq![' '] + w + nl + bl);
    assert forall|k: int| 0 <= k < text.len() implies #[trigger] text[k] != ';' by {
        if k < name.len() {
            assert(text[k] == name[k]);
            assert(listed_name_char(name[k]));
        } else if k == name.len() {
        } else if k < name.len() + 1 + w.len() {
            assert(text[k] == w[k - name.len() - 1]);
        } else if k < name.len() + 1 + w.len() + nl.len() {
            assert(text[k] == nl[k - name.len() - 1 - w.len()]);
        } else {
            assert(text[k] == bl[k - name.len() - 1 - w.len() - nl.len()]);
        }
    }
    if name.len() > 0 {
        assert(text[0] == name[0]);
        assert(listed_name_char(name[0]));
    } else {
        assert(text[0] == ' ');
    }
    assert(text.last() != ' ' && !is_space(text.last())) by {
        if bl.len() > 0 {
            assert(text.last() == bl.last());
        } else if nl.len() > 0 {
            assert(text.last() == nl.last());
        } else {
            assert(text.last() == w.last());
        }
    }
}

/// The structure listing of a table's fields reads back, through the
/// specification-list parser, as the specifications that reproduce those
/// fields (for fields whose structure lines are faithful).
#[verifier::spinoff_prover]
pub proof fn law_structure_parses_back(fields: Seq<FieldModel>)
    requires
        forall|j: int| 0 <= j < fields.len() ==> spec_text_faithful(#[trigger] fields[j]),
    ensures
        crate::spec::specs_from_text(crate::table::structure_text(fields)) == Ok::<
            Seq<FieldSpecModel>,
            ErrorKind,
        >(crate::table::like_specs(fields)),
    decreases fields.len(),
{
    let parts = fields.map_values(|f: FieldModel| crate::table::field_text(f));
    if fields.len() == 0 {
        assert(crate::table::structure_text(fields) =~= Seq::<char>::empty());
        lemma_split_one(Seq::<char>::empty(), ';');
        assert(trim(Seq::<char>::empty()).len() == 0);
        assert(seq![Seq::<char>::empty()].drop_first() =~= Seq::<Seq<char>>::empty());
    } else {
        let init = fields.drop_last();
        let f = fields.last();
        assert forall|j: int| 0 <= j < init.len() implies spec_text_faithful(#[trigger] init[j]) by {
            assert(init[j] == fields[j]);
        }
        law_structure_parses_back(init);
        lemma_structure_line(f);
        law_field_structure_round_trip(f);
        let text = field_structure_text(f);
        assert(f.field_type != FieldType::NullFlags);
        assert(crate::table::like_specs(fields) == crate::table::like_specs(init).push(
            crate::table::spec_of_field(f),
        ));
        lemma_trim_no_space(text);
        if fields.len() == 1 {
            assert(init.len() == 0);
            assert(crate::table::structure_text(fields) =~= text);
            lemma_split_one(text, ';');
            let ps = seq![text];
            assert(ps =~= Seq::<Seq<char>>::empty().push(text));
            lemma_specs_push(Seq::<Seq<char>>::empty(), text, Seq::empty(), crate::table::spec_of_field(f));
            assert(crate::table::like_specs(init) =~= Seq::<FieldSpecModel>::empty());
        } else {
            let init_parts = init.map_values(|g: FieldModel| crate::table::field_text(g));
            assert(parts.drop_last() =~= init_parts);
            assert(parts.last() == text);
            reveal_strlit("; ");
            let a = crate::table::structure_text(init);
            let b = seq![' '] + text;
            assert(crate::table::structure_text(fields) =~= a + seq![';'] + b);
            assert forall|k: int| 0 <= k < b.len() implies b[k] != ';' by {
                if k > 0 {
                    assert(b[k] == text[k - 1]);
                }
            }
            lemma_split_push(a, b, ';');
            crate::text::lemma_trim_start_prepend_spaces(seq![' '], text);
            assert(trim(b) == text);
            lemma_specs_push(
                split_on(a, ';'),
                b,
                crate::table::like_specs(init),
                crate::table::spec_of_field(f),
            );
        }
    }
}

/// Splitting two texts joined by the separator: the pieces of the first,
/// then those of the second.
proof fn lemma_split_concat(a: Seq<char>, b: Seq<char>, sep: char)
    ensures
        split_on(a + seq![sep] + b, sep) == split_on(a, sep) + split_on(b, sep),
    decreases a.len(),
{
    crate::text::lemma_find_char_bound(a, sep);
    let s = a + seq![sep] + b;
    match find_char(a, sep) {
        None => {
            assert forall|k: int| 0 <= k < a.len() implies s[k] != sep by {
                assert(s[k] == a[k]);
            }
            lemma_find_char_is(s, sep, a.len() as int);
            assert(s.take(a.len() as int) =~= a);
            assert(s.skip(a.len() + 1 as int) =~= b);
            lemma_split_one(a, sep);
            assert(split_on(s, sep) =~= split_on(a, sep) + split_on(b, sep));
        },
        Some(i) => {
            let i = i as int;
            assert forall|k: int| 0 <= k < i implies s[k] != sep by {
                assert(s[k] == a[k]);
            }
            assert(s[i] == a[i]);
            lemma_find_char_is(s, sep, i);
            assert(s.take(i) =~= a.take(i));
            assert(s.skip(i + 1) =~= a.skip(i + 1) + seq![sep] + b);
            lemma_split_concat(a.skip(i + 1), b, sep);
            assert(split_on(s, sep) =~= split_on(a, sep) + split_on(b, sep));
        },
    }
}

/// The specifications of two runs of pieces, one after the other: the
/// first error decides, else the specifications of both in turn.
proof fn lemma_specs_concat(p: Seq<Seq<char>>, q: Seq<Seq<char>>)
    ensures
        crate::spec::specs_from_pieces(p + q) == match crate::spec::specs_from_pieces(p) {
            Err(e) => Err(e),
            Ok(r1) => match crate::spec::specs_from_pieces(q) {
                Err(e) => Err(e),
                Ok(r2) => Ok::<Seq<FieldSpecModel>, ErrorKind>(r1 + r2),
            },
        },
    decreases p.len(),
{
    if p.len() == 0 {
        assert(p + q =~= q);
        match crate::spec::specs_from_pieces(q) {
            Err(e) => {},
            Ok(r2) => {
                assert(Seq::<FieldSpecModel>::empty() + r2 =~= r2);
            },
        }
    } else {
        assert((p + q)[0] == p[0]);
        assert((p + q).drop_first() =~= p.drop_first() + q);
        lemma_specs_concat(p.drop_first(), q);
        let t = trim(p[0]);
        if t.len() > 0 {
            match (spec_from_text(t), crate::spec::specs_from_pieces(p.drop_first()), crate::spec::specs_from_pieces(q)) {
                (Ok(g), Ok(rest), Ok(r2)) => {
                    assert(seq![g] + (rest + r2) =~= (seq![g] + rest) + r2);
                },
                _ => {},
            }
        }
    }
}

/// Two specification lists joined by `;` read as the first list's
/// specifications followed by the second's; where either is invalid, the
/// first error (in the first list, else in the second) is the result.
pub proof fn law_parse_many_concat(a: Seq<char>, b: Seq<char>)
    ensures
        crate::spec::specs_from_text(a + seq![';'] + b) == match crate::spec::specs_from_text(a) {
            Err(e) => Err(e),
            Ok(r1) => match crate::spec::specs_from_text(b) {
                Err(e) => Err(e),
                Ok(r2) => Ok::<Seq<FieldSpecModel>, ErrorKind>(r1 + r2),
            },
        },
{
    lemma_split_concat(a, b, ';');
    lemma_specs_concat(split_on(a, ';'), split_on(b, ';'));
}

// ---------------------------------------------------------------------------
// The calendar read back
// ---------------------------------------------------------------------------

/// Gregorian leap years.
pub open spec fn is_leap(y: int) -> bool {
    (y % 4 == 0 && y % 100 != 0) || y % 400 == 0
}

/// Days of month `m` of year `y`.
pub open spec fn days_in_month(y: int, m: int) -> int {
    if m == 2 {
        if is_leap(y) {
            29
        } else {
            28
        }
    } else if m == 4 || m == 6 || m == 9 || m == 11 {
        30
    } else {
        31
    }
}

/// Days before month `mm` of a year that starts in March (`mm` from 0).
pub open spec fn days_before(mm: int) -> int {
    (153 * mm + 2) / 5
}

/// The month of a March-based day of the year.
proof fn lemma_month_of_day(mm: int, dd: int)
    requires
        0 <= mm <= 11,
        0 <= dd < days_before(mm + 1) - days_before(mm),
    ensures
        (5 * (days_before(mm) + dd) + 2) / 153 == mm,
{
    assert(days_before(0) == 0 && days_before(1) == 31 && days_before(2) == 61
        && days_before(3) == 92 && days_before(4) == 122 && days_before(5) == 153
        && days_before(6) == 184 && days_before(7) == 214 && days_before(8) == 245
        && days_before(9) == 275 && days_before(10) == 306 && days_before(11) == 337
        && days_before(12) == 367);
}

/// Reading a date's Julian day number back gives the date, for years from
/// 0 to 65535 and every day that the month has.
#[verifier::spinoff_prover]
pub proof fn law_julian_day_round_trip(y: int, m: int, d: int)
    requires
        0 <= y <= 65535,
        1 <= m <= 12,
        1 <= d <= days_in_month(y, m),
    ensures
        julian_day_of(y, m, d) > 0,
        ymd_of_julian(julian_day_of(y, m, d)) == (y, m, d),
{
    let a: int = if m <= 2 { 1 } else { 0 };
    assert(tdiv(14 - m, 12) == a);
    let yy = y + 4800 - a;
    let mm = m + 12 * a - 3;
    assert(0 <= mm <= 11);
    let dd = d - 1;
    let big_d = days_before(mm) + dd;
    assert(tdiv(153 * mm + 2, 5) == days_before(mm));
    assert(yy >= 0);
    assert(tdiv(yy, 4) == yy / 4 && tdiv(yy, 100) == yy / 100 && tdiv(yy, 400) == yy / 400);
    let jd = julian_day_of(y, m, d);
    assert(jd == d + days_before(mm) + 365 * yy + yy / 4 - yy / 100 + yy / 400 - 32045);
    // the day of the March-based year fits its month
    assert(0 <= dd < days_before(mm + 1) - days_before(mm)) by {
        assert(days_before(0) == 0 && days_before(1) == 31 && days_before(2) == 61
            && days_before(3) == 92 && days_before(4) == 122 && days_before(5) == 153
            && days_before(6) == 184 && days_before(7) == 214 && days_before(8) == 245
            && days_before(9) == 275 && days_before(10) == 306 && days_before(11) == 337
            && days_before(12) == 367);
    }
    // centuries and years within them
    let cb = yy / 100;
    let r = yy % 100;
    assert(yy == 100 * cb + r && 0 <= r < 100);
    assert(yy / 4 == 25 * cb + r / 4);
    assert(yy / 400 == cb / 4);
    let e = 365 * r + r / 4 + big_d;
    let big_a = jd + 32044;
    assert(big_a == 36524 * cb + cb / 4 + e);
    // a leap day falls only where the year ending the March-based year is a leap year
    assert(big_d <= 364 || (r % 4 == 3 && (r != 99 || cb % 4 == 3))) by {
        if big_d > 364 {
            assert(mm == 11 && d == 29);
            assert(m == 2 && is_leap(y));
            assert(y + 4800 == yy + 1);
        }
    }
    assert(e <= 36524);
    assert(e == 36524 ==> cb % 4 == 3);
    assert(cb / 4 * 4 + cb % 4 == cb);
    let b = (4 * big_a + 3) / 146097;
    assert(4 * big_a + 3 == 146097 * cb + (4 * e + 3 - cb % 4));
    assert(0 <= 4 * e + 3 - cb % 4 < 146097);
    assert(b == cb);
    let c = big_a - (146097 * b) / 4;
    assert((146097 * cb) / 4 == 36524 * cb + cb / 4);
    assert(c == e);
    let dq = (4 * c + 3) / 1461;
    assert(r / 4 * 4 + r % 4 == r);
    assert(4 * e + 3 == 1461 * r + (4 * big_d + 3 - r % 4));
    assert(big_d == 365 ==> r % 4 == 3);
    assert(0 <= 4 * big_d + 3 - r % 4 < 1461);
    assert(dq == r);
    let e2 = c - (1461 * dq) / 4;
    assert((1461 * r) / 4 == 365 * r + r / 4);
    assert(e2 == big_d);
    lemma_month_of_day(mm, dd);
    let m2 = (5 * e2 + 2) / 153;
    assert(m2 == mm);
    assert(mm / 10 == (if mm >= 10 { 1int } else { 0int }));
    assert(a == mm / 10);
}

/// Removing a character from joined texts removes it from each.
proof fn lemma_remove_char_concat(s: Seq<char>, t: Seq<char>, c: char)
    ensures
        remove_char(s + t, c) == remove_char(s, c) + remove_char(t, c),
    decreases t.len(),
{
    if t.len() == 0 {
        assert(s + t =~= s);
        assert(remove_char(s, c) + remove_char(t, c) =~= remove_char(s, c));
    } else {
        assert((s + t).drop_last() =~= s + t.drop_last());
        assert((s + t).last() == t.last());
        lemma_remove_char_concat(s, t.drop_last(), c);
        if t.last() == c {
        } else {
            assert(remove_char(s, c) + remove_char(t.drop_last(), c).push(t.last()) =~= (remove_char(
                s,
                c,
            ) + remove_char(t.drop_last(), c)).push(t.last()));
        }
    }
}

/// Removing a character that does not occur changes nothing.
proof fn lemma_remove_char_absent(s: Seq<char>, c: char)
    requires
        forall|k: int| 0 <= k < s.len() ==> s[k] != c,
    ensures
        remove_char(s, c) == s,
    decreases s.len(),
{
    if s.len() > 0 {
        lemma_remove_char_absent(s.drop_last(), c);
        assert(s.drop_last().push(s.last()) =~= s);
    }
}

/// Three texts without the separator, joined by it, are three pieces.
proof fn lemma_split_three(a: Seq<char>, b: Seq<char>, c: Seq<char>, sep: char)
    requires
        forall|k: int| 0 <= k < a.len() ==> a[k] != sep,
        forall|k: int| 0 <= k < b.len() ==> b[k] != sep,
        forall|k: int| 0 <= k < c.len() ==> c[k] != sep,
    ensures
        split_on(a + seq![sep] + b + seq![sep] + c, sep) == seq![a, b, c],
{
    let s = a + seq![sep] + b + seq![sep] + c;
    assert forall|k: int| 0 <= k < a.len() implies s[k] != sep by {
        assert(s[k] == a[k]);
    }
    assert(s[a.len() as int] == sep);
    lemma_find_char_is(s, sep, a.len() as int);
    assert(s.take(a.len() as int) =~= a);
    assert(s.skip(a.len() + 1 as int) =~= b + seq![sep] + c);
    lemma_split_two(b, c, sep);
}

/// A number below `10^width` (`width` at most four), zero-padded: digits
/// only, `width` of them, read back as the number.
proof fn lemma_padded_reads_back(n: nat, width: nat)
    requires
        1 <= width <= 4,
        n < crate::text::pow10(width),
    ensures
        zero_padded(n, width).len() == width,
        forall|k: int| 0 <= k < width ==> is_digit(#[trigger] zero_padded(n, width)[k]),
        parse_unsigned(zero_padded(n, width), u32::MAX as nat) == Some(n),
{
    reveal_with_fuel(crate::text::pow10, 5);
    crate::roundtrip::lemma_zero_padded(n, width);
    let z = zero_padded(n, width);
    assert(is_digit(z[0]));
}

/// `HH:MM:SS.mmm` reads back as the milliseconds it was written from.
#[verifier::spinoff_prover]
proof fn lemma_clock_round_trip(t: nat)
    requires
        t < 86400000,
    ensures
        time_millis(clock_text(t)) == Outcome::<u32, ApiErrorKind>::Done(t as u32),
{
    reveal_with_fuel(crate::text::pow10, 5);
    let h = t / 3600000;
    let mi = (t % 3600000) / 60000;
    let se = (t % 60000) / 1000;
    let ml = t % 1000;
    lemma_padded_reads_back(h, 2);
    lemma_padded_reads_back(mi, 2);
    lemma_padded_reads_back(se, 2);
    lemma_padded_reads_back(ml, 3);
    let hh = zero_padded(h, 2);
    let mm = zero_padded(mi, 2);
    let ss = zero_padded(se, 2);
    let ff = zero_padded(ml, 3);
    let clock = hh + seq![':'] + mm + seq![':'] + ss;
    let text = clock_text(t);
    assert(text =~= clock + seq!['.'] + ff);
    assert forall|k: int| 0 <= k < clock.len() implies clock[k] != '.' by {
        if k < 2 {
            assert(is_digit(hh[k]));
        } else if 3 <= k < 5 {
            assert(clock[k] == mm[k - 3]);
            assert(is_digit(mm[k - 3]));
        } else if 6 <= k < 8 {
            assert(clock[k] == ss[k - 6]);
            assert(is_digit(ss[k - 6]));
        }
    }
    assert(text[8] == '.');
    lemma_find_char_is(text, '.', 8);
    assert(text.take(8) =~= clock);
    assert(text.skip(9) =~= ff);
    assert forall|k: int| 0 <= k < 2 implies hh[k] != ':' by {
        assert(is_digit(hh[k]));
    }
    assert forall|k: int| 0 <= k < 2 implies mm[k] != ':' by {
        assert(is_digit(mm[k]));
    }
    assert forall|k: int| 0 <= k < 2 implies ss[k] != ':' by {
        assert(is_digit(ss[k]));
    }
    lemma_split_three(hh, mm, ss, ':');
    // three one-byte characters of fraction
    assert(is_digit(ff[0]) && is_digit(ff[1]) && is_digit(ff[2]));
    let f1 = ff.drop_first();
    let f2 = f1.drop_first();
    let f3 = f2.drop_first();
    assert(f3.len() == 0);
    assert(crate::text::char_utf8_len(ff[0]) == 1 && crate::text::char_utf8_len(f1[0]) == 1
        && crate::text::char_utf8_len(f2[0]) == 1);
    assert(chars_in_room(f3, 0) == Some((0nat, 0nat)));
    assert(chars_in_room(f2, 1) == Some((1nat, 1nat)));
    assert(chars_in_room(f1, 2) == Some((2nat, 2nat)));
    assert(chars_in_room(ff, 3) == Some((3nat, 3nat)));
    assert(ff.take(3) =~= ff);
    assert(h * 3600000 + mi * 60000 + se * 1000 + ml == t);
}

/// `YYYY-MM-DD` without its dashes is `YYYYMMDD`.
proof fn lemma_iso_date_dashes(date: Date)
    requires
        date.year <= 9999,
        date.month <= 99,
        date.day <= 99,
    ensures
        remove_char(iso_date_text(date), '-') == crate::value::ymd_text(date),
{
    reveal_with_fuel(crate::text::pow10, 5);
    let yt = zero_padded(date.year as nat, 4);
    let mt = zero_padded(date.month as nat, 2);
    let dtx = zero_padded(date.day as nat, 2);
    lemma_padded_reads_back(date.year as nat, 4);
    lemma_padded_reads_back(date.month as nat, 2);
    lemma_padded_reads_back(date.day as nat, 2);
    lemma_remove_char_concat(yt + seq!['-'] + mt + seq!['-'], dtx, '-');
    lemma_remove_char_concat(yt + seq!['-'] + mt, seq!['-'], '-');
    lemma_remove_char_concat(yt + seq!['-'], mt, '-');
    lemma_remove_char_concat(yt, seq!['-'], '-');
    assert(remove_char(seq!['-'], '-') =~= Seq::<char>::empty()) by {
        assert(seq!['-'].drop_last() =~= Seq::<char>::empty());
        assert(remove_char(Seq::<char>::empty(), '-') =~= Seq::<char>::empty());
        assert(seq!['-'].last() == '-');
    }
    assert forall|k: int| 0 <= k < yt.len() implies yt[k] != '-' by {
        assert(is_digit(yt[k]));
    }
    assert forall|k: int| 0 <= k < mt.len() implies mt[k] != '-' by {
        assert(is_digit(mt[k]));
    }
    assert forall|k: int| 0 <= k < dtx.len() implies dtx[k] != '-' by {
        assert(is_digit(dtx[k]));
    }
    lemma_remove_char_absent(yt, '-');
    lemma_remove_char_absent(mt, '-');
    lemma_remove_char_absent(dtx, '-');
    assert(remove_char(iso_date_text(date), '-') =~= crate::value::ymd_text(date));
}

/// A date written as ISO text (`YYYY-MM-DD`, as a `D` value is handed out)
/// and written back from that text is the same date, for every date whose
/// year has at most four digits (and month and day two).
pub proof fn law_iso_date_round_trip(date: Date)
    requires
        date.year <= 9999,
        date.month <= 99,
        date.day <= 99,
    ensures
        date_from_text(remove_char(iso_date_text(date), '-')) == Ok::<Option<Date>, ErrorKind>(
            Some(date),
        ),
{
    lemma_iso_date_dashes(date);
    crate::roundtrip::law_ymd_text_round_trip(date);
}

/// A date-time written as ISO text (`YYYY-MM-DDTHH:MM:SS.mmm`) reads back
/// as the same date-time, for dates from year 0 to 9999 and times within
/// the day.
#[verifier::spinoff_prover]
pub proof fn law_iso_datetime_round_trip(y: int, m: int, d: int, ms: int)
    requires
        0 <= y <= 9999,
        1 <= m <= 12,
        1 <= d <= days_in_month(y, m),
        0 <= ms < 86400000,
    ensures
        ({
            let dt = DateTime {
                julian_day: julian_day_of(y, m, d) as i32,
                millis_since_midnight: ms as i32,
            };
            datetime_from_text(iso_datetime_text(dt)) == Outcome::<DateTime, ApiErrorKind>::Done(dt)
        }),
{
    reveal_with_fuel(crate::text::pow10, 5);
    law_julian_day_round_trip(y, m, d);
    let jd = julian_day_of(y, m, d);
    assert(jd < 0x7FFF_FFFF) by {
        assert(jd <= 31 + 367 + 365 * 14800 + 14800);
    }
    let dt = DateTime { julian_day: jd as i32, millis_since_midnight: ms as i32 };
    assert(dt.julian_day as int == jd);
    let yt = zero_padded(y as nat, 4);
    let mt = zero_padded(m as nat, 2);
    let dtx = zero_padded(d as nat, 2);
    lemma_padded_reads_back(y as nat, 4);
    lemma_padded_reads_back(m as nat, 2);
    lemma_padded_reads_back(d as nat, 2);
    assert((y as i32) as int == y);
    assert(padded_int(y, 4) == yt);
    let date_text = yt + seq!['-'] + mt + seq!['-'] + dtx;
    let text = iso_datetime_text(dt);
    assert(text =~= date_text + seq!['T'] + clock_text(ms as nat));
    // the `T` that ends the date
    assert forall|k: int| 0 <= k < 10 implies text[k] != 'T' by {
        if k < 4 {
            assert(is_digit(yt[k]));
        } else if 5 <= k < 7 {
            assert(text[k] == mt[k - 5]);
            assert(is_digit(mt[k - 5]));
        } else if 8 <= k < 10 {
            assert(text[k] == dtx[k - 8]);
            assert(is_digit(dtx[k - 8]));
        }
    }
    assert(text[10] == 'T');
    lemma_find_char_is(text, 'T', 10);
    assert(text.take(10) =~= date_text);
    assert(text.skip(11) =~= clock_text(ms as nat));
    // the date without its dashes
    let date = Date { year: y as u16, month: m as u8, day: d as u8 };
    assert(date_text =~= iso_date_text(date));
    law_iso_date_round_trip(date);
    lemma_clock_round_trip(ms as nat);
}

} // verus!
