//! Field values: dates, Visual FoxPro date-times and the value enum that a
//! record holds, with the textual forms that the `.dbf` format stores.

use vstd::prelude::*;
use crate::error::{Error, ErrorKind, Result, quoted_message};
use crate::text::{
    all_digits, char_is_digit, chars_are, chars_of, digit_value, digits_value, is_digit,
    lemma_digits_value_bound, lemma_digits_value_push, lower_all, lower_chars, pow10,
    string_from_chars, sub_chars, trim, trim_chars,
};

verus! {

/// A calendar date as stored in a `D` field (`YYYYMMDD`).
#[derive(Debug, Clone, Copy, PartialEq, Eq, Structural, PartialOrd, Ord, Hash)]
pub struct Date {
    pub year: u16,
    pub month: u8,
    pub day: u8,
}

/// A Visual FoxPro `T` value: Julian day number and milliseconds since midnight.
#[derive(Debug, Clone, Copy, PartialEq, Eq, Structural, PartialOrd, Ord, Hash)]
pub struct DateTime {
    pub julian_day: i32,
    pub millis_since_midnight: i32,
}

/// One field value of a record.
///
/// Numbers of `N`/`F` fields are held as the decimal text that the file
/// stores (what `f64` formatting and parsing produce and accept), and
/// `B` (double) values as their IEEE-754 bit pattern, so that the library
/// itself never computes with floating point.
#[derive(Debug, Clone, PartialEq)]
pub enum Value {
    Null,
    Character(String),
    /// The decimal text of an `N` or `F` value, as read or as given. It is
    /// written back as this text, right-aligned: it is not re-rendered to
    /// the field's decimals, since that rendering goes through floating
    /// point (callers that hold a number render it themselves).
    Numeric(String),
    Logical(Option<bool>),
    Date(Option<Date>),
    Integer(i32),
    Double(u64),
    DateTime(Option<DateTime>),
    Currency(i64),
    Memo(Vec<u8>),
    MemoRef(u32),
    Binary(Vec<u8>),
}

/// The mathematical model of a [`Value`].
pub enum ValueModel {
    Null,
    Character(Seq<char>),
    Numeric(Seq<char>),
    Logical(Option<bool>),
    Date(Option<Date>),
    Integer(i32),
    Double(u64),
    DateTime(Option<DateTime>),
    Currency(i64),
    Memo(Seq<u8>),
    MemoRef(u32),
    Binary(Seq<u8>),
}

impl View for Value {
    type V = ValueModel;

    open spec fn view(&self) -> ValueModel {
        match self {
            Value::Null => ValueModel::Null,
            Value::Character(s) => ValueModel::Character(s@),
            Value::Numeric(s) => ValueModel::Numeric(s@),
            Value::Logical(b) => ValueModel::Logical(*b),
            Value::Date(d) => ValueModel::Date(*d),
            Value::Integer(n) => ValueModel::Integer(*n),
            Value::Double(bits) => ValueModel::Double(*bits),
            Value::DateTime(t) => ValueModel::DateTime(*t),
            Value::Currency(n) => ValueModel::Currency(*n),
            Value::Memo(b) => ValueModel::Memo(b@),
            Value::MemoRef(p) => ValueModel::MemoRef(*p),
            Value::Binary(b) => ValueModel::Binary(b@),
        }
    }
}

impl Value {
    pub fn null_for_logical() -> (v: Value)
        ensures
            v@ == ValueModel::Logical(None),
    {
        Value::Logical(None)
    }

    pub fn null_for_date() -> (v: Value)
        ensures
            v@ == ValueModel::Date(None),
    {
        Value::Date(None)
    }

    pub fn null_for_datetime() -> (v: Value)
        ensures
            v@ == ValueModel::DateTime(None),
    {
        Value::DateTime(None)
    }

    /// A copy of this value.
    pub fn duplicate(&self) -> (v: Value)
        ensures
            v@ == self@,
    {
        match self {
            Value::Null => Value::Null,
            Value::Character(s) => Value::Character(s.clone()),
            Value::Numeric(s) => Value::Numeric(s.clone()),
            Value::Logical(b) => Value::Logical(*b),
            Value::Date(d) => Value::Date(*d),
            Value::Integer(n) => Value::Integer(*n),
            Value::Double(bits) => Value::Double(*bits),
            Value::DateTime(t) => Value::DateTime(*t),
            Value::Currency(n) => Value::Currency(*n),
            Value::Memo(b) => Value::Memo(copy_bytes(b.as_slice())),
            Value::MemoRef(p) => Value::MemoRef(*p),
            Value::Binary(b) => Value::Binary(copy_bytes(b.as_slice())),
        }
    }
}

/// A copy of a byte slice.
pub fn copy_bytes(b: &[u8]) -> (r: Vec<u8>)
    ensures
        r@ == b@,
{
    let mut r: Vec<u8> = Vec::new();
    let mut i: usize = 0;
    while i < b.len()
        invariant
            i <= b@.len(),
            r@ == b@.take(i as int),
        decreases b.len() - i,
    {
        r.push(b[i]);
        i += 1;
        proof {
            assert(r@ =~= b@.take(i as int));
        }
    }
    proof {
        assert(b@.take(b@.len() as int) =~= b@);
    }
    r
}

// ---------------------------------------------------------------------------
// Decimal text
// ---------------------------------------------------------------------------

/// The ASCII digit for `d < 10`.
pub open spec fn digit_char(d: nat) -> char {
    (('0' as u32) + d) as char
}

/// The decimal digits of `n`, without leading zeros.
pub open spec fn decimal(n: nat) -> Seq<char>
    decreases n,
{
    if n < 10 {
        seq![digit_char(n)]
    } else {
        decimal(n / 10).push(digit_char(n % 10))
    }
}

/// `n` in decimal, left-padded with zeros to at least `width` characters
/// (what `format!("{:0width$}", n)` produces).
pub open spec fn zero_padded(n: nat, width: nat) -> Seq<char> {
    let d = decimal(n);
    if d.len() < width {
        Seq::new((width - d.len()) as nat, |i: int| '0') + d
    } else {
        d
    }
}

pub proof fn lemma_digit_char(d: nat)
    requires
        d < 10,
    ensures
        digit_value(digit_char(d)) == d,
        is_digit(digit_char(d)),
{
}

pub proof fn lemma_decimal_digits(n: nat)
    ensures
        all_digits(decimal(n)),
        decimal(n).len() >= 1,
        digits_value(decimal(n)) == n,
        n < 10 ==> decimal(n).len() == 1,
        n < 100 ==> decimal(n).len() <= 2,
        n < 1000 ==> decimal(n).len() <= 3,
        n < 10000 ==> decimal(n).len() <= 4,
    decreases n,
{
    if n >= 10 {
        lemma_decimal_digits(n / 10);
        lemma_digit_char(n % 10);
        assert(decimal(n).drop_last() =~= decimal(n / 10));
        assert(digits_value(decimal(n)) == digits_value(decimal(n / 10)) * 10 + digit_value(
            digit_char(n % 10),
        ));
        assert((n / 10) * 10 + n % 10 == n);
        assert forall|k: int| 0 <= k < decimal(n).len() implies is_digit(#[trigger] decimal(n)[k]) by {
            if k < decimal(n).len() - 1 {
                assert(decimal(n)[k] == decimal(n / 10)[k]);
            }
        }
    } else {
        lemma_digit_char(n);
        assert(decimal(n).drop_last() =~= Seq::<char>::empty());
        assert(digits_value(Seq::<char>::empty()) == 0);
        assert(digits_value(decimal(n)) == digits_value(decimal(n).drop_last()) * 10
            + digit_value(decimal(n).last()));
    }
}

pub fn digit_to_char(d: u64) -> (c: char)
    requires
        d < 10,
    ensures
        c == digit_char(d as nat),
        is_digit(c),
{
    let b = (d as u8) + 48u8;
    b as char
}

/// The decimal digits of `n`.
pub fn decimal_chars(n: u64) -> (v: Vec<char>)
    ensures
        v@ == decimal(n as nat),
    decreases n,
{
    if n < 10 {
        let mut v: Vec<char> = Vec::new();
        v.push(digit_to_char(n));
        v
    } else {
        let mut v = decimal_chars(n / 10);
        v.push(digit_to_char(n % 10));
        v
    }
}

/// `format!("{:0width$}", n)`, as characters.
pub fn zero_padded_chars(n: u64, width: usize) -> (v: Vec<char>)
    ensures
        v@ == zero_padded(n as nat, width as nat),
{
    let d = decimal_chars(n);
    if d.len() < width {
        let mut v: Vec<char> = Vec::new();
        let pad = width - d.len();
        let mut i: usize = 0;
        while i < pad
            invariant
                i <= pad,
                v@ == Seq::new(i as nat, |k: int| '0'),
            decreases pad - i,
        {
            v.push('0');
            i += 1;
            proof {
                assert(v@ =~= Seq::new(i as nat, |k: int| '0'));
            }
        }
        let mut i: usize = 0;
        let ghost prefix = v@;
        while i < d.len()
            invariant
                i <= d@.len(),
                v@ == prefix + d@.take(i as int),
            decreases d.len() - i,
        {
            v.push(d[i]);
            i += 1;
            proof {
                assert(v@ =~= prefix + d@.take(i as int));
            }
        }
        proof {
            assert(d@.take(d@.len() as int) =~= d@);
        }
        v
    } else {
        d
    }
}

/// The number that the decimal digits `v[from..to]` spell.
pub fn digits_number(v: &[char], from: usize, to: usize) -> (n: u64)
    requires
        from <= to <= v@.len(),
        to - from <= 18,
        all_digits(v@.subrange(from as int, to as int)),
    ensures
        n as nat == digits_value(v@.subrange(from as int, to as int)),
{
    let mut n: u64 = 0;
    let mut i = from;
    proof {
        lemma_digits_value_bound(v@.subrange(from as int, to as int));
    }
    while i < to
        invariant
            from <= i <= to <= v@.len(),
            to - from <= 18,
            all_digits(v@.subrange(from as int, to as int)),
            n as nat == digits_value(v@.subrange(from as int, i as int)),
            n < pow10((i - from) as nat),
        decreases to - i,
    {
        let c = v[i];
        assert(v@.subrange(from as int, to as int)[i - from] == c);
        let ghost p = v@.subrange(from as int, i as int);
        proof {
            assert(v@.subrange(from as int, i + 1) =~= p.push(c));
            lemma_digits_value_push(p, c);
            lemma_pow10_bound((i - from) as nat);
        }
        n = n * 10 + (c as u32 - '0' as u32) as u64;
        i += 1;
    }
    n
}

pub proof fn lemma_pow10_mono(a: nat, b: nat)
    requires
        a <= b,
    ensures
        pow10(a) <= pow10(b),
    decreases b,
{
    if a < b {
        lemma_pow10_mono(a, (b - 1) as nat);
    }
}

pub proof fn lemma_pow10_bound(k: nat)
    requires
        k <= 17,
    ensures
        pow10(k) <= 100_000_000_000_000_000,
{
    lemma_pow10_mono(k, 17);
    reveal_with_fuel(pow10, 18);
}

// ---------------------------------------------------------------------------
// Dates
// ---------------------------------------------------------------------------

/// What [`Date::parse_ymd`] makes of a text: after trimming, empty is no
/// date, eight ASCII digits are `YYYYMMDD`, anything else is invalid.
pub open spec fn date_from_text(s: Seq<char>) -> core::result::Result<Option<Date>, ErrorKind> {
    let t = trim(s);
    if t.len() == 0 {
        Ok(None)
    } else if t.len() == 8 && all_digits(t) {
        Ok(
            Some(
                Date {
                    year: digits_value(t.take(4)) as u16,
                    month: digits_value(t.subrange(4, 6)) as u8,
                    day: digits_value(t.subrange(6, 8)) as u8,
                },
            ),
        )
    } else {
        Err(ErrorKind::InvalidFormat)
    }
}

/// `YYYYMMDD` with each part zero-padded (wider when a part needs more digits).
pub open spec fn ymd_text(d: Date) -> Seq<char> {
    zero_padded(d.year as nat, 4) + zero_padded(d.month as nat, 2) + zero_padded(d.day as nat, 2)
}

impl Date {
    pub fn new(year: u16, month: u8, day: u8) -> (d: Date)
        ensures
            d == (Date { year, month, day }),
    {
        Date { year, month, day }
    }

    /// Parses the `YYYYMMDD` payload of a `D` field; blank is no date.
    pub fn parse_ymd(raw: &str) -> (r: Result<Option<Date>>)
        ensures
            match r {
                Ok(d) => date_from_text(raw@) == Ok::<Option<Date>, ErrorKind>(d),
                Err(e) => date_from_text(raw@) == Err::<Option<Date>, ErrorKind>(e.kind()),
            },
    {
        let v = chars_of(raw);
        Date::parse_ymd_chars(v.as_slice())
    }

    /// [`Date::parse_ymd`] on characters.
    pub fn parse_ymd_chars(raw: &[char]) -> (r: Result<Option<Date>>)
        ensures
            match r {
                Ok(d) => date_from_text(raw@) == Ok::<Option<Date>, ErrorKind>(d),
                Err(e) => date_from_text(raw@) == Err::<Option<Date>, ErrorKind>(e.kind()),
            },
    {
        let t = trim_chars(raw);
        if t.len() == 0 {
            return Ok(None);
        }
        let mut ok = t.len() == 8;
        let mut i: usize = 0;
        while ok && i < t.len()
            invariant
                i <= t@.len(),
                ok ==> t@.len() == 8,
                ok ==> forall|k: int| 0 <= k < i ==> is_digit(#[trigger] t@[k]),
                !ok ==> !(t@.len() == 8 && all_digits(t@)),
            decreases t.len() - i,
        {
            if !char_is_digit(t[i]) {
                ok = false;
            }
            i += 1;
        }
        if !ok {
            return Err(Error::InvalidFormat(quoted_message("invalid DBF date payload: ", raw, "")));
        }
        proof {
            assert(all_digits(t@));
            assert(all_digits(t@.subrange(0, 4)));
            assert(all_digits(t@.subrange(4, 6)));
            assert(all_digits(t@.subrange(6, 8)));
            lemma_digits_value_bound(t@.subrange(0, 4));
            lemma_digits_value_bound(t@.subrange(4, 6));
            lemma_digits_value_bound(t@.subrange(6, 8));
            reveal_with_fuel(pow10, 5);
            assert(t@.take(4) =~= t@.subrange(0, 4));
        }
        let year = digits_number(t.as_slice(), 0, 4);
        let month = digits_number(t.as_slice(), 4, 6);
        let day = digits_number(t.as_slice(), 6, 8);
        Ok(Some(Date { year: year as u16, month: month as u8, day: day as u8 }))
    }

    /// The `YYYYMMDD` form (`format!("{:04}{:02}{:02}", ..)`).
    pub fn to_ymd_string(self) -> (s: String)
        ensures
            s@ == ymd_text(self),
    {
        let mut v = zero_padded_chars(self.year as u64, 4);
        let mut m = zero_padded_chars(self.month as u64, 2);
        let mut d = zero_padded_chars(self.day as u64, 2);
        v.append(&mut m);
        v.append(&mut d);
        string_from_chars(v.as_slice())
    }
}

impl DateTime {
    pub fn new(julian_day: i32, millis_since_midnight: i32) -> (t: DateTime)
        ensures
            t == (DateTime { julian_day, millis_since_midnight }),
    {
        DateTime { julian_day, millis_since_midnight }
    }
}

// ---------------------------------------------------------------------------
// Numeric text
// ---------------------------------------------------------------------------

/// Number of leading ASCII digits of `s`.
pub open spec fn leading_digits(s: Seq<char>) -> nat
    decreases s.len(),
{
    if s.len() > 0 && is_digit(s[0]) {
        1 + leading_digits(s.drop_first())
    } else {
        0
    }
}

/// `s` without one leading `+` or `-`.
pub open spec fn strip_sign(s: Seq<char>) -> Seq<char> {
    if s.len() > 0 && (s[0] == '+' || s[0] == '-') {
        s.drop_first()
    } else {
        s
    }
}

/// Empty, or `e`/`E`, an optional sign and one or more digits.
pub open spec fn exponent_ok(r: Seq<char>) -> bool {
    r.len() == 0 || ((r[0] == 'e' || r[0] == 'E') && {
        let t = strip_sign(r.drop_first());
        t.len() > 0 && all_digits(t)
    })
}

/// `Digit+ | Digit+ '.' Digit* | Digit* '.' Digit+`, then an optional exponent.
pub open spec fn decimal_number(s: Seq<char>) -> bool {
    let a = leading_digits(s);
    let r = s.skip(a as int);
    if r.len() > 0 && r[0] == '.' {
        let f = r.drop_first();
        let b = leading_digits(f);
        a + b >= 1 && exponent_ok(f.skip(b as int))
    } else {
        a >= 1 && exponent_ok(r)
    }
}

/// The texts that Rust's `f64::from_str` accepts: an optional sign, then
/// `inf`, `infinity` or `nan` in any case, or a decimal number.
pub open spec fn is_float_text(s: Seq<char>) -> bool {
    let t = strip_sign(s);
    let l = lower_all(t);
    l == "inf"@ || l == "infinity"@ || l == "nan"@ || decimal_number(t)
}

pub proof fn lemma_leading_digits(s: Seq<char>)
    ensures
        leading_digits(s) <= s.len(),
        forall|k: int| 0 <= k < leading_digits(s) ==> is_digit(#[trigger] s[k]),
        leading_digits(s) < s.len() ==> !is_digit(s[leading_digits(s) as int]),
    decreases s.len(),
{
    if s.len() > 0 && is_digit(s[0]) {
        lemma_leading_digits(s.drop_first());
        assert forall|k: int| 0 <= k < leading_digits(s) implies is_digit(#[trigger] s[k]) by {
            if k > 0 {
                assert(s[k] == s.drop_first()[k - 1]);
            }
        }
    }
}

pub proof fn lemma_leading_digits_skip(s: Seq<char>, i: int)
    requires
        0 <= i <= s.len(),
        forall|k: int| 0 <= k < i ==> is_digit(#[trigger] s[k]),
    ensures
        leading_digits(s) == i + leading_digits(s.skip(i)),
    decreases i,
{
    if i > 0 {
        assert(s.drop_first().skip(i - 1) =~= s.skip(i));
        lemma_leading_digits_skip(s.drop_first(), i - 1);
    } else {
        assert(s.skip(0) =~= s);
    }
}

/// Number of ASCII digits in `v` from `from` on, before the first other character.
pub fn count_digits(v: &[char], from: usize) -> (n: usize)
    requires
        from <= v@.len(),
    ensures
        n as nat == leading_digits(v@.skip(from as int)),
        from + n <= v@.len(),
{
    let mut i = from;
    while i < v.len() && char_is_digit(v[i])
        invariant
            from <= i <= v@.len(),
            forall|k: int| from <= k < i ==> is_digit(#[trigger] v@[k]),
        decreases v.len() - i,
    {
        i += 1;
    }
    proof {
        let s = v@.skip(from as int);
        assert forall|k: int| 0 <= k < i - from implies is_digit(#[trigger] s[k]) by {
            assert(s[k] == v@[k + from]);
        }
        lemma_leading_digits_skip(s, i - from);
        assert(s.skip(i - from) =~= v@.skip(i as int));
        if i < v.len() {
            assert(v@.skip(i as int)[0] == v@[i as int]);
        }
    }
    i - from
}

/// Whether `v[from..]` is a valid exponent part (see [`exponent_ok`]).
fn exponent_chars_ok(v: &[char], from: usize) -> (b: bool)
    requires
        from <= v@.len(),
    ensures
        b == exponent_ok(v@.skip(from as int)),
{
    let ghost r = v@.skip(from as int);
    if from == v.len() {
        return true;
    }
    assert(r[0] == v@[from as int]);
    if v[from] != 'e' && v[from] != 'E' {
        return false;
    }
    let mut j = from + 1;
    if j < v.len() && (v[j] == '+' || v[j] == '-') {
        j += 1;
    }
    proof {
        assert(r.drop_first() =~= v@.skip(from + 1));
        assert(strip_sign(r.drop_first()) =~= v@.skip(j as int));
    }
    if j == v.len() {
        return false;
    }
    let n = count_digits(v, j);
    proof {
        lemma_leading_digits(v@.skip(j as int));
        let t = v@.skip(j as int);
        if n as int == t.len() {
            assert forall|k: int| 0 <= k < t.len() implies is_digit(#[trigger] t[k]) by {}
        } else {
            assert(!is_digit(t[n as int]));
        }
    }
    j + n == v.len()
}

/// Whether `v[from..]`, ASCII-lowercased, is `inf`, `infinity` or `nan`.
fn special_float_word(v: &[char], from: usize) -> (b: bool)
    requires
        from <= v@.len(),
    ensures
        b == (lower_all(v@.skip(from as int)) == "inf"@ || lower_all(v@.skip(from as int))
            == "infinity"@ || lower_all(v@.skip(from as int)) == "nan"@),
{
    let body = sub_chars(v, from, v.len());
    assert(body@ =~= v@.skip(from as int));
    let l = lower_chars(body.as_slice());
    chars_are(l.as_slice(), "inf") || chars_are(l.as_slice(), "infinity") || chars_are(
        l.as_slice(),
        "nan",
    )
}

/// Whether Rust's `f64::from_str` accepts the text `v` (see [`is_float_text`]).
pub fn float_text_ok(v: &[char]) -> (b: bool)
    ensures
        b == is_float_text(v@),
{
    let start: usize = if v.len() > 0 && (v[0] == '+' || v[0] == '-') { 1 } else { 0 };
    let ghost t = strip_sign(v@);
    proof {
        assert(t =~= v@.skip(start as int));
    }
    if special_float_word(v, start) {
        return true;
    }
    let a = count_digits(v, start);
    let p = start + a;
    proof {
        assert(t.skip(a as int) =~= v@.skip(p as int));
    }
    if p < v.len() && v[p] == '.' {
        let b = count_digits(v, p + 1);
        proof {
            assert(t.skip(a as int).drop_first() =~= v@.skip(p + 1));
            assert(t.skip(a as int).drop_first().skip(b as int) =~= v@.skip(p + 1 + b));
        }
        a + b >= 1 && exponent_chars_ok(v, p + 1 + b)
    } else {
        a >= 1 && exponent_chars_ok(v, p)
    }
}

} // verus!
