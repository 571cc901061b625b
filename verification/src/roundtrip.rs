//! What reading gives back of what was written: the laws that tie the
//! encoders of [`crate::codec`] to their decoders.

use vstd::prelude::*;
use vstd::utf8::{
    encode_utf8, encode_utf8_decode_utf8, encode_utf8_valid_utf8, is_ascii_chars,
    is_ascii_chars_encode_utf8,
};
use crate::bytes::{
    bits32, bits64, le32, le32_bytes, lemma_le32, lemma_le64, lemma_signed32, lemma_signed64, zeros,
    le16, le16_bytes, lemma_le16,
};
use crate::codec::{
    NullFlagLayout, Outcome, ascii_bytes, blanks, field_step, fields_encode, is_null_for,
    lemma_null_bit_other, lemma_null_bit_set, lemma_null_bit_zero, memo_content, memo_payload,
    null_bit, pointer_text, put, record_decode, record_encode, value_decode, value_encode,
    values_decode, with_null_bit, DescriptorState, descriptor_bytes, descriptor_name,
    descriptor_step, header_bytes, header_from_bytes, lemma_zero_position, name_field,
    descriptors_from, records_decode, record_slice, null_flag_bytes,
};
use crate::record::RecordModel;
use crate::header::{
    Header, law_symbol_round_trip, law_version_round_trip, symbol_of, type_for_byte, DbfKind,
    FieldModel, FieldType, backlink_of, flag_nullable,
};
use crate::text::{
    upper_all, all_digits, digits_value, is_digit, is_space, lemma_trim_end_append_spaces,
    lemma_trim_no_space, lemma_trim_start_prepend_spaces, parse_unsigned, pow10, trim, trim_start,
};
use crate::codepage::{
    TextEncoding, decode_text, decoded_text, encoded_text, encoding_of_mark, label_of, utf8_text,
};
use crate::table::{
    DecodedTable, TableModel, descriptors_bytes, fresh_memo, null_flags_descriptor, records_encode,
    table_decode, table_image, table_prefix, written_header, layout_header_length, from_specs_error, from_specs_panics,
    lemma_total_length_mono, nullable_count, spec_field, spec_fields, spec_header, spec_layout,
    spec_null_len, total_length,
};
use crate::spec::FieldSpecModel;
use crate::error::ErrorKind;
use crate::memo::{
    MemoModel, holds_memo, law_append_holds, law_append_keeps_holds, memo_appended, memo_read,
    memo_well_formed, storable,
};
use crate::value::{
    Date, DateTime, ValueModel, date_from_text, decimal, is_float_text, lemma_decimal_digits,
    ymd_text, zero_padded,
};

verus! {

// ---------------------------------------------------------------------------
// Text and digits
// ---------------------------------------------------------------------------

/// `n` blanks as characters.
pub open spec fn spaces(n: nat) -> Seq<char> {
    Seq::new(n, |i: int| ' ')
}

/// UTF-8 encoding distributes over concatenation.
pub proof fn lemma_encode_utf8_concat(a: Seq<char>, b: Seq<char>)
    ensures
        encode_utf8(a + b) == encode_utf8(a) + encode_utf8(b),
    decreases a.len(),
{
    if a.len() == 0 {
        assert(a + b =~= b);
        assert(encode_utf8(a) + encode_utf8(b) =~= encode_utf8(b));
    } else {
        assert((a + b).drop_first() =~= a.drop_first() + b);
        assert((a + b)[0] == a[0]);
        lemma_encode_utf8_concat(a.drop_first(), b);
        assert(encode_utf8(a + b) =~= encode_utf8(a) + encode_utf8(b));
    }
}

/// The UTF-8 encoding of ASCII text is its bytes one by one.
pub proof fn lemma_ascii_encoding(s: Seq<char>)
    requires
        is_ascii_chars(s),
    ensures
        encode_utf8(s) == s.map_values(|c: char| c as u8),
{
    is_ascii_chars_encode_utf8(s);
    assert(encode_utf8(s) =~= s.map_values(|c: char| c as u8));
}

/// Blanks are the UTF-8 encoding of spaces.
pub proof fn lemma_blanks_encode(n: nat)
    ensures
        encode_utf8(spaces(n)) == blanks(n),
{
    assert(is_ascii_chars(spaces(n)));
    lemma_ascii_encoding(spaces(n));
    assert(spaces(n).map_values(|c: char| c as u8) =~= blanks(n));
}

/// Valid UTF-8 text reads back as itself.
pub proof fn lemma_utf8_text_encoded(s: Seq<char>)
    ensures
        utf8_text(encode_utf8(s)) == s,
{
    encode_utf8_valid_utf8(s);
    encode_utf8_decode_utf8(s);
}

/// The digits of `a` followed by those of `b`.
pub proof fn lemma_digits_value_concat(a: Seq<char>, b: Seq<char>)
    ensures
        digits_value(a + b) == digits_value(a) * pow10(b.len()) + digits_value(b),
    decreases b.len(),
{
    if b.len() == 0 {
        assert(a + b =~= a);
        assert(pow10(0) == 1);
        assert(digits_value(b) == 0);
        assert(digits_value(a) * 1 == digits_value(a));
    } else {
        assert((a + b).drop_last() =~= a + b.drop_last());
        assert((a + b).last() == b.last());
        lemma_digits_value_concat(a, b.drop_last());
        let p = pow10(b.drop_last().len());
        let x = digits_value(a);
        let y = digits_value(b.drop_last());
        let d = crate::text::digit_value(b.last());
        assert(pow10(b.len()) == 10 * p);
        assert(digits_value(a + b) == (x * p + y) * 10 + d);
        assert(digits_value(b) == y * 10 + d);
        assert((x * p + y) * 10 + d == x * (10 * p) + (y * 10 + d)) by (nonlinear_arith);
    }
}

/// Zero digits spell nothing.
pub proof fn lemma_zero_digits(k: nat)
    ensures
        digits_value(Seq::new(k, |i: int| '0')) == 0,
        all_digits(Seq::new(k, |i: int| '0')),
    decreases k,
{
    if k > 0 {
        assert(Seq::new(k, |i: int| '0').drop_last() =~= Seq::new((k - 1) as nat, |i: int| '0'));
        lemma_zero_digits((k - 1) as nat);
    }
}

/// A number below `10^width`, zero-padded to `width`, takes exactly
/// `width` digits that spell it.
pub proof fn lemma_zero_padded(n: nat, width: nat)
    requires
        1 <= width <= 4,
        n < pow10(width),
    ensures
        zero_padded(n, width).len() == width,
        all_digits(zero_padded(n, width)),
        digits_value(zero_padded(n, width)) == n,
{
    lemma_decimal_digits(n);
    reveal_with_fuel(pow10, 5);
    let d = decimal(n);
    if d.len() < width {
        let z = Seq::new((width - d.len()) as nat, |i: int| '0');
        lemma_zero_digits((width - d.len()) as nat);
        lemma_digits_value_concat(z, d);
        assert(0 * pow10(d.len()) == 0);
        assert(z + d == zero_padded(n, width));
        assert forall|i: int| 0 <= i < (z + d).len() implies is_digit(#[trigger] (z + d)[i]) by {
            if i < z.len() {
                assert((z + d)[i] == z[i]);
            } else {
                assert((z + d)[i] == d[i - z.len()]);
            }
        }
    }
}

/// `YYYYMMDD` of a date whose year has at most four digits and whose
/// month and day have at most two.
pub proof fn lemma_ymd_text(d: Date)
    requires
        d.year <= 9999,
        d.month <= 99,
        d.day <= 99,
    ensures
        ymd_text(d).len() == 8,
        all_digits(ymd_text(d)),
        digits_value(ymd_text(d).take(4)) == d.year,
        digits_value(ymd_text(d).subrange(4, 6)) == d.month,
        digits_value(ymd_text(d).subrange(6, 8)) == d.day,
{
    reveal_with_fuel(pow10, 5);
    lemma_zero_padded(d.year as nat, 4);
    lemma_zero_padded(d.month as nat, 2);
    lemma_zero_padded(d.day as nat, 2);
    let y = zero_padded(d.year as nat, 4);
    let m = zero_padded(d.month as nat, 2);
    let dd = zero_padded(d.day as nat, 2);
    let t = ymd_text(d);
    assert(t.take(4) =~= y);
    assert(t.subrange(4, 6) =~= m);
    assert(t.subrange(6, 8) =~= dd);
    assert forall|i: int| 0 <= i < t.len() implies is_digit(#[trigger] t[i]) by {
        if i < 4 {
            assert(t[i] == y[i]);
        } else if i < 6 {
            assert(t[i] == m[i - 4]);
        } else {
            assert(t[i] == dd[i - 6]);
        }
    }
}

/// [`Date::parse_ymd`] reads back what [`Date::to_ymd_string`] writes, for
/// every date whose year has at most four digits (and month and day two).
pub proof fn law_ymd_text_round_trip(d: Date)
    requires
        d.year <= 9999,
        d.month <= 99,
        d.day <= 99,
    ensures
        date_from_text(ymd_text(d)) == Ok::<Option<Date>, ErrorKind>(Some(d)),
{
    lemma_ymd_text(d);
    let t = ymd_text(d);
    assert(!is_space(t[0]) && !is_space(t.last()));
    lemma_trim_no_space(t);
}

/// A date written as `YYYYMMDD` reads back as the same date.
pub proof fn lemma_date_text_round_trip(d: Date)
    requires
        d.year <= 9999,
        d.month <= 99,
        d.day <= 99,
    ensures
        date_from_text(utf8_text(encode_utf8(ymd_text(d)))) == Ok::<Option<Date>, ErrorKind>(Some(d)),
{
    lemma_ymd_text(d);
    lemma_utf8_text_encoded(ymd_text(d));
    let t = ymd_text(d);
    assert(!is_space(t[0]) && !is_space(t.last()));
    lemma_trim_no_space(t);
}

/// A block pointer written in a memo field reads back as the block.
pub proof fn lemma_pointer_round_trip(block: u32, width: nat)
    requires
        decimal(block as nat).len() <= width,
    ensures
        trim(utf8_text(pointer_text(block, width))) == decimal(block as nat),
        parse_unsigned(decimal(block as nat), u32::MAX as nat) == Some(block as nat),
        pointer_text(block, width).len() == width,
{
    let d = decimal(block as nat);
    lemma_decimal_digits(block as nat);
    assert(is_ascii_chars(d)) by {
        assert forall|i: int| 0 <= i < d.len() implies '\0' <= #[trigger] d[i] <= '\u{7f}' by {
            assert(is_digit(d[i]));
        }
    }
    lemma_ascii_encoding(d);
    assert(ascii_bytes(d) == encode_utf8(d));
    let pad = (width - d.len()) as nat;
    lemma_blanks_encode(pad);
    lemma_encode_utf8_concat(spaces(pad), d);
    if d.len() < width {
        assert(pointer_text(block, width) == blanks(pad) + ascii_bytes(d));
    } else {
        assert(spaces(pad) =~= Seq::<char>::empty());
        assert(blanks(pad) =~= Seq::<u8>::empty());
        assert(pointer_text(block, width) == ascii_bytes(d));
        assert(blanks(pad) + ascii_bytes(d) =~= ascii_bytes(d));
    }
    assert(pointer_text(block, width) == encode_utf8(spaces(pad) + d));
    lemma_utf8_text_encoded(spaces(pad) + d);
    assert(!is_space(d[0]) && !is_space(d.last())) by {
        assert(is_digit(d[0]));
        assert(is_digit(d.last()));
    }
    lemma_trim_start_prepend_spaces(spaces(pad), d);
    lemma_trim_no_space(d);
    assert(d[0] != '+') by {
        assert(is_digit(d[0]));
    }
}

// ---------------------------------------------------------------------------
// Values
// ---------------------------------------------------------------------------

/// Whether a memo-type field reads `content` back through the memo file
/// `mf`, given the memo file `memo` that the value was written into: empty
/// content needs nothing, other content must be found where the append
/// put it (at the next free block of `memo`).
pub open spec fn memo_found(
    content: Seq<u8>,
    memo: Option<MemoModel>,
    mf: Option<MemoModel>,
) -> bool {
    content.len() == 0 || match (memo, mf) {
        (Some(m), Some(f)) => memo_read(f, m.next_free_block) == Ok::<Seq<u8>, ErrorKind>(content),
        _ => false,
    }
}

/// The values that a field of `f` stores without loss (text also needs
/// its code page to keep it, see [`kept_in_code_page`]): text without trailing whitespace, number text without
/// surrounding whitespace that `f64` parsing accepts, dates with at most
/// four year digits and two month and day digits, date-times other than
/// the all-zero one, and values of the field's own type; null where the
/// field is nullable, or in a number field (blank).
pub open spec fn reads_back(f: FieldModel, v: ValueModel) -> bool {
    let t = f.field_type;
    match v {
        ValueModel::Null => flag_nullable(f.flags) || t == FieldType::Numeric || t == FieldType::Float,
        ValueModel::Character(s) => t == FieldType::Character && (s.len() > 0 ==> !is_space(
            s.last(),
        )),
        ValueModel::Numeric(s) => (t == FieldType::Numeric || t == FieldType::Float) && s.len() > 0
            && !is_space(s[0]) && !is_space(s.last()) && is_float_text(s),
        ValueModel::Logical(_) => t == FieldType::Logical,
        ValueModel::Date(None) => t == FieldType::Date,
        ValueModel::Date(Some(d)) => t == FieldType::Date && d.year <= 9999 && d.month <= 99 && d.day
            <= 99,
        ValueModel::Integer(_) => t == FieldType::Integer,
        ValueModel::Double(_) => t == FieldType::Double,
        ValueModel::DateTime(None) => t == FieldType::DateTime,
        ValueModel::DateTime(Some(dt)) => t == FieldType::DateTime && !(dt.julian_day == 0
            && dt.millis_since_midnight == 0),
        ValueModel::Currency(_) => t == FieldType::Currency,
        ValueModel::Memo(_) => t == FieldType::Memo,
        ValueModel::Binary(b) => t == FieldType::General || t == FieldType::Picture || (t
            == FieldType::NullFlags && b.len() == f.length),
        ValueModel::MemoRef(_) => false,
    }
}

/// Text that the code page `enc` (if any) reads back as written into a
/// field `f` wide.
pub open spec fn kept_in_code_page(f: FieldModel, v: ValueModel, enc: Option<TextEncoding>) -> bool {
    v matches ValueModel::Character(s) ==> enc matches Some(e) ==> code_page_keeps(e, s, f.length as nat)
}

/// Whether a value is read as null through the null flags when written to
/// `f`: a null in a nullable field.
pub open spec fn written_as_null(f: FieldModel, v: ValueModel) -> bool {
    v is Null && flag_nullable(f.flags)
}

/// A value that a field stores without loss reads back as itself from the
/// bytes it was written as (whatever length the field declares), text
/// through the code page `enc` where its encoding keeps it; memo content is found through a memo file that
/// holds it where it was appended.
#[verifier::spinoff_prover]
pub proof fn law_value_round_trip(
    f: FieldModel,
    v: ValueModel,
    enc: Option<TextEncoding>,
    memo: Option<MemoModel>,
    mf: Option<MemoModel>,
    b: Seq<u8>,
    memo2: Option<MemoModel>,
)
    requires
        reads_back(f, v),
        kept_in_code_page(f, v, enc),
        value_encode(f, v, memo, enc) == Outcome::<(Seq<u8>, Option<MemoModel>), ErrorKind>::Done(
            (b, memo2),
        ),
        match memo_content(f.field_type, v) {
            Some(c) => memo_found(c, memo, mf),
            None => true,
        },
    ensures
        value_decode(f, b, written_as_null(f, v), mf, enc) == Outcome::<ValueModel, ErrorKind>::Done(v),
{
    reveal(value_encode);
    let size = f.length as nat;
    let t = f.field_type;
    if written_as_null(f, v) {
    } else {
        match v {
            ValueModel::Null => {
                assert(b == blanks(size));
                lemma_blanks_encode(size);
                lemma_utf8_text_encoded(spaces(size));
                assert(trim_start(spaces(size)).len() == 0) by {
                    lemma_trim_start_prepend_spaces(spaces(size), Seq::<char>::empty());
                    assert(spaces(size) + Seq::<char>::empty() =~= spaces(size));
                }
            },
            ValueModel::Character(s) if enc is Some => {
                law_character_round_trip_in_code_page(f, s, enc->0, memo, mf, b, memo2);
            },
            ValueModel::Character(s) => {
                let bytes = encode_utf8(s);
                let pad = (size - bytes.len()) as nat;
                assert(b == bytes + blanks(pad));
                lemma_blanks_encode(pad);
                lemma_encode_utf8_concat(s, spaces(pad));
                lemma_utf8_text_encoded(s + spaces(pad));
                lemma_trim_end_append_spaces(s, spaces(pad));
            },
            ValueModel::Numeric(s) => {
                let rendered = encode_utf8(s);
                let pad = (size - rendered.len()) as nat;
                assert(b == blanks(pad) + rendered);
                lemma_blanks_encode(pad);
                lemma_encode_utf8_concat(spaces(pad), s);
                lemma_utf8_text_encoded(spaces(pad) + s);
                lemma_trim_start_prepend_spaces(spaces(pad), s);
                lemma_trim_no_space(s);
            },
            ValueModel::Logical(_) => {},
            ValueModel::Date(None) => {
                assert(b == blanks(size));
                lemma_blanks_encode(size);
                lemma_utf8_text_encoded(spaces(size));
                assert(trim_start(spaces(size)).len() == 0) by {
                    lemma_trim_start_prepend_spaces(spaces(size), Seq::<char>::empty());
                    assert(spaces(size) + Seq::<char>::empty() =~= spaces(size));
                }
            },
            ValueModel::Date(Some(d)) => {
                lemma_date_text_round_trip(d);
            },
            ValueModel::Integer(n) => {
                lemma_signed32(n as int);
                lemma_le32(bits32(n as int));
            },
            ValueModel::Double(x) => {
                lemma_le64(x as nat);
            },
            ValueModel::DateTime(None) => {
                assert(le32(b, 0) == 0 && le32(b, 4) == 0);
            },
            ValueModel::DateTime(Some(dt)) => {
                let lo = le32_bytes(bits32(dt.julian_day as int));
                let hi = le32_bytes(bits32(dt.millis_since_midnight as int));
                lemma_signed32(dt.julian_day as int);
                lemma_signed32(dt.millis_since_midnight as int);
                lemma_le32(bits32(dt.julian_day as int));
                lemma_le32(bits32(dt.millis_since_midnight as int));
                assert(b == lo + hi);
                assert(le32(b, 0) == le32(lo, 0)) by {
                    assert(b[0] == lo[0] && b[1] == lo[1] && b[2] == lo[2] && b[3] == lo[3]);
                }
                assert(le32(b, 4) == le32(hi, 0)) by {
                    assert(b[4] == hi[0] && b[5] == hi[1] && b[6] == hi[2] && b[7] == hi[3]);
                }
            },
            ValueModel::Currency(n) => {
                lemma_signed64(n as int);
                lemma_le64(bits64(n as int));
            },
            ValueModel::Memo(c) => {
                lemma_memo_field(f, c, memo, mf, b, memo2);
            },
            ValueModel::Binary(c) => {
                if t == FieldType::General || t == FieldType::Picture {
                    lemma_memo_field(f, c, memo, mf, b, memo2);
                }
            },
            ValueModel::MemoRef(_) => {},
        }
    }
}

/// The encoding labelled by `e` decodes what it encodes `s` to, followed
/// by the blanks that fill a field `width` bytes wide, back to `s` and
/// those blanks, meeting no malformed sequence.
pub open spec fn code_page_keeps(e: TextEncoding, s: Seq<char>, width: nat) -> bool {
    let (bytes, had_errors) = encoded_text(label_of(e), s);
    !had_errors && bytes.len() <= width ==> decoded_text(
        label_of(e),
        bytes + blanks((width - bytes.len()) as nat),
    ) == (s + spaces((width - bytes.len()) as nat), false)
}

/// Text written to a `C` field in a table's code page reads back as the
/// same text through that code page: the writer encodes with the table's
/// encoding and the reader decodes with it (for text without trailing
/// blanks, wherever the encoding decodes what it encodes).
#[verifier::spinoff_prover]
pub proof fn law_character_round_trip_in_code_page(
    f: FieldModel,
    s: Seq<char>,
    e: TextEncoding,
    memo: Option<MemoModel>,
    mf: Option<MemoModel>,
    b: Seq<u8>,
    memo2: Option<MemoModel>,
)
    requires
        f.field_type == FieldType::Character,
        s.len() > 0 ==> !is_space(s.last()),
        code_page_keeps(e, s, f.length as nat),
        value_encode(f, ValueModel::Character(s), memo, Some(e)) == Outcome::<
            (Seq<u8>, Option<MemoModel>),
            ErrorKind,
        >::Done((b, memo2)),
    ensures
        value_decode(f, b, false, mf, Some(e)) == Outcome::<ValueModel, ErrorKind>::Done(
            ValueModel::Character(s),
        ),
{
    reveal(value_encode);
    let size = f.length as nat;
    let (bytes, had_errors) = encoded_text(label_of(e), s);
    assert(!had_errors);
    assert(bytes.len() <= size);
    let pad = (size - bytes.len()) as nat;
    assert(b == bytes + blanks(pad));
    assert(decode_text(b, Some(e)) == s + spaces(pad));
    assert forall|k: int| 0 <= k < spaces(pad).len() implies is_space(#[trigger] spaces(pad)[k]) by {}
    lemma_trim_end_append_spaces(s, spaces(pad));
}

/// The memo-pointer part of [`law_value_round_trip`].
proof fn lemma_memo_field(
    f: FieldModel,
    c: Seq<u8>,
    memo: Option<MemoModel>,
    mf: Option<MemoModel>,
    b: Seq<u8>,
    memo2: Option<MemoModel>,
)
    requires
        f.field_type == FieldType::Memo || f.field_type == FieldType::General || f.field_type
            == FieldType::Picture,
        memo_found(c, memo, mf),
        c.len() == 0 ==> b == blanks(f.length as nat),
        c.len() > 0 ==> memo is Some && b == pointer_text(memo->0.next_free_block, f.length as nat),
    ensures
        memo_payload(b, mf) == Ok::<Seq<u8>, ErrorKind>(c),
{
    let size = f.length as nat;
    if c.len() == 0 {
        lemma_blanks_encode(size);
        lemma_utf8_text_encoded(spaces(size));
        assert(trim_start(spaces(size)).len() == 0) by {
            lemma_trim_start_prepend_spaces(spaces(size), Seq::<char>::empty());
            assert(spaces(size) + Seq::<char>::empty() =~= spaces(size));
        }
        assert(c =~= Seq::<u8>::empty());
    } else {
        let block = memo->0.next_free_block;
        lemma_decimal_digits(block as nat);
        if decimal(block as nat).len() <= size {
            lemma_pointer_round_trip(block, size);
        } else {
            let w = decimal(block as nat).len();
            lemma_pointer_round_trip(block, w);
            assert(pointer_text(block, size) == pointer_text(block, w));
        }
    }
}

// ---------------------------------------------------------------------------
// Memo files across writes
// ---------------------------------------------------------------------------

/// An optional memo file as this library keeps it: well formed.
pub open spec fn memo_ok(m: Option<MemoModel>) -> bool {
    m matches Some(x) ==> memo_well_formed(x)
}

/// Every memo that `a` holds, `b` holds too.
pub open spec fn memo_kept(a: Option<MemoModel>, b: Option<MemoModel>) -> bool {
    match (a, b) {
        (None, None) => true,
        (Some(x), Some(y)) => x.format == y.format && forall|p: u32, c: Seq<u8>|
            #[trigger] holds_memo(x, p, c) ==> holds_memo(y, p, c),
        _ => false,
    }
}

/// Writing a value keeps the memo file well formed and keeps every memo
/// it held; memo content it appends, it holds where the append started.
pub proof fn lemma_value_encode_memo(
    f: FieldModel,
    v: ValueModel,
    memo: Option<MemoModel>,
    enc: Option<crate::codepage::TextEncoding>,
    b: Seq<u8>,
    memo2: Option<MemoModel>,
)
    requires
        value_encode(f, v, memo, enc) == Outcome::<(Seq<u8>, Option<MemoModel>), ErrorKind>::Done(
            (b, memo2),
        ),
        memo_ok(memo),
        memo_content(f.field_type, v) matches Some(c) ==> memo matches Some(m) ==> storable(
            m.format,
            c,
        ),
    ensures
        memo_ok(memo2),
        memo_kept(memo, memo2),
        memo_content(f.field_type, v) matches Some(c) ==> c.len() > 0 ==> memo is Some && memo2 is Some
            && holds_memo(memo2->0, memo->0.next_free_block, c),
{
    reveal(value_encode);
    if !(v is Null && flag_nullable(f.flags)) {
        match memo_content(f.field_type, v) {
            Some(c) => {
                if c.len() > 0 {
                    let m = memo->0;
                    law_append_holds(m, c);
                    assert forall|p: u32, c2: Seq<u8>| #[trigger] holds_memo(m, p, c2) implies holds_memo(
                        memo_appended(m, c),
                        p,
                        c2,
                    ) by {
                        law_append_keeps_holds(m, c, p, c2);
                    }
                }
            },
            None => {},
        }
    }
}

/// `data` written over `raw` at `at`, inside it.
pub proof fn lemma_put(raw: Seq<u8>, at: nat, data: Seq<u8>)
    requires
        at + data.len() <= raw.len(),
    ensures
        put(raw, at, data).len() == raw.len(),
        put(raw, at, data).subrange(at as int, (at + data.len()) as int) == data,
        forall|x: int| 0 <= x < raw.len() && !(at <= x < at + data.len()) ==> #[trigger] put(raw, at, data)[x] == raw[x],
{
    assert(put(raw, at, data).subrange(at as int, (at + data.len()) as int) =~= data);
}

/// Reading null flags after [`set_null_bit`](crate::codec::set_null_bit):
/// bit `i` reads as set, every other bit reads as before, and the flag
/// bytes keep their length.
pub proof fn law_null_bit_after_set(bytes: Seq<u8>, i: nat, j: nat)
    requires
        i / 8 < bytes.len(),
    ensures
        with_null_bit(bytes, i).len() == bytes.len(),
        null_bit(with_null_bit(bytes, i), j) == (j == i || null_bit(bytes, j)),
{
    let bi = i / 8;
    let bj = j / 8;
    if bj == bi {
        let ki = (i % 8) as u8;
        let kj = (j % 8) as u8;
        if ki == kj {
            assert(j == i);
            lemma_null_bit_set(bytes[bi as int], ki);
        } else {
            assert(j != i);
            lemma_null_bit_other(bytes[bi as int], ki, kj);
        }
    }
}

/// No bit of zero bytes is set.
pub proof fn lemma_null_bits_zero(n: nat, j: nat)
    ensures
        !null_bit(zeros(n), j),
{
    if j / 8 < n {
        lemma_null_bit_zero((j % 8) as u8);
    }
}

// ---------------------------------------------------------------------------
// Records
// ---------------------------------------------------------------------------

/// Whether two byte ranges do not overlap.
pub open spec fn apart(o1: int, l1: int, o2: int, l2: int) -> bool {
    o1 + l1 <= o2 || o2 + l2 <= o1
}

/// A record layout that writing and reading agree on: every field lies
/// inside the record after the deletion flag, fields and null flags do not
/// overlap, exactly the fields flagged nullable are numbered, with distinct
/// bits that the null flags have room for.
pub open spec fn layout_sound(fields: Seq<FieldModel>, layout: Option<NullFlagLayout>, rl: nat) -> bool {
    &&& rl >= 1
    &&& forall|j: int|
        0 <= j < fields.len() ==> 1 <= #[trigger] fields[j].offset && fields[j].offset
            + fields[j].length <= rl
    &&& forall|j: int, k: int|
        0 <= j < fields.len() && 0 <= k < fields.len() && j != k ==> apart(
            #[trigger] fields[j].offset as int,
            fields[j].length as int,
            #[trigger] fields[k].offset as int,
            fields[k].length as int,
        )
    &&& match layout {
        Some(l) => 1 <= l.offset && l.offset + l.length <= rl && forall|j: int|
            0 <= j < fields.len() ==> apart(
                #[trigger] fields[j].offset as int,
                fields[j].length as int,
                l.offset as int,
                l.length as int,
            ),
        None => true,
    }
    &&& forall|j: int|
        0 <= j < fields.len() ==> ((#[trigger] fields[j].nullable_index is Some) <==> flag_nullable(
            fields[j].flags,
        ))
    &&& forall|j: int|
        0 <= j < fields.len() && #[trigger] fields[j].nullable_index is Some ==> (layout matches Some(
            l,
        ) && fields[j].nullable_index->0 < l.length as nat * 8)
    &&& forall|j: int, k: int|
        0 <= j < fields.len() && 0 <= k < fields.len() && j != k && #[trigger] fields[j].nullable_index
            is Some ==> #[trigger] fields[k].nullable_index != fields[j].nullable_index
}

/// The values of a record that its fields store without loss, with memo
/// content that the memo file stores.
pub open spec fn values_read_back(
    values: Seq<ValueModel>,
    fields: Seq<FieldModel>,
    memo: Option<MemoModel>,
    enc: Option<TextEncoding>,
) -> bool {
    &&& values.len() == fields.len()
    &&& forall|j: int| 0 <= j < values.len() ==> reads_back(fields[j], #[trigger] values[j])
    &&& forall|j: int|
        0 <= j < values.len() ==> kept_in_code_page(fields[j], #[trigger] values[j], enc)
    &&& forall|j: int|
        0 <= j < values.len() ==> (memo_content(fields[j].field_type, #[trigger] values[j]) matches Some(c)
            ==> memo matches Some(m) ==> storable(m.format, c))
}

/// The null-flag bytes of a record.
pub open spec fn flag_bytes(raw: Seq<u8>, l: NullFlagLayout) -> Seq<u8> {
    raw.subrange(l.offset as int, l.offset + l.length)
}

/// Whether field `k` writes a null that sets bit `i`.
pub open spec fn writes_bit(values: Seq<ValueModel>, fields: Seq<FieldModel>, k: int, i: nat) -> bool {
    &&& values[k] is Null
    &&& fields[k].nullable_index is Some
    &&& fields[k].nullable_index->0 as nat == i
}

/// Whether one of fields `j..` writes a null that sets bit `i`.
pub open spec fn sets_bit(values: Seq<ValueModel>, fields: Seq<FieldModel>, j: nat, i: nat) -> bool {
    exists|k: int| j <= k < fields.len() && #[trigger] writes_bit(values, fields, k, i)
}

/// The bytes of field `f` in a record.
pub open spec fn field_bytes(raw: Seq<u8>, f: FieldModel) -> Seq<u8> {
    raw.subrange(f.offset as int, f.offset + f.length)
}

/// Memo files only grow: writing fields keeps what the memo file held.
pub proof fn lemma_fields_encode_memo(
    values: Seq<ValueModel>,
    fields: Seq<FieldModel>,
    j: nat,
    layout: Option<NullFlagLayout>,
    raw: Seq<u8>,
    memo: Option<MemoModel>,
    enc: Option<crate::codepage::TextEncoding>,
    raw_f: Seq<u8>,
    memo_f: Option<MemoModel>,
)
    requires
        fields_encode(values, fields, j, layout, raw, memo, enc) == Outcome::<
            (Seq<u8>, Option<MemoModel>),
            ErrorKind,
        >::Done((raw_f, memo_f)),
        memo_ok(memo),
        forall|k: int|
            j <= k < values.len() && k < fields.len() ==> (memo_content(
                fields[k].field_type,
                #[trigger] values[k],
            ) matches Some(c) ==> memo matches Some(m) ==> storable(m.format, c)),
    ensures
        memo_ok(memo_f),
        memo_kept(memo, memo_f),
    decreases values.len() - j,
{
    if j < values.len() && j < fields.len() {
        let f = fields[j as int];
        let v = values[j as int];
        match value_encode(f, v, memo, enc) {
            Outcome::Done((b, m2)) => {
                lemma_value_encode_memo(f, v, memo, enc, b, m2);
                let raw1 = match (v, f.nullable_index, layout) {
                    (ValueModel::Null, Some(bit), Some(l)) => put(
                        raw,
                        l.offset as nat,
                        with_null_bit(raw.subrange(l.offset as int, l.offset + l.length), bit as nat),
                    ),
                    _ => raw,
                };
                let raw2 = put(raw1, f.offset as nat, b);
                lemma_fields_encode_memo(values, fields, j + 1, layout, raw2, m2, enc, raw_f, memo_f);
            },
            _ => {},
        }
    }
}

/// Bit `i` is set by one of fields `j..` exactly when field `j` sets it
/// or one of fields `j + 1..` does.
proof fn lemma_sets_bit_step(values: Seq<ValueModel>, fields: Seq<FieldModel>, j: nat, i: nat)
    requires
        j < fields.len(),
    ensures
        sets_bit(values, fields, j, i) == (writes_bit(values, fields, j as int, i) || sets_bit(
            values,
            fields,
            j + 1,
            i,
        )),
{
    if sets_bit(values, fields, j, i) && !writes_bit(values, fields, j as int, i) {
        let k = choose|k: int| j <= k < fields.len() && #[trigger] writes_bit(values, fields, k, i);
        assert(k != j);
        assert(j + 1 <= k < fields.len() && writes_bit(values, fields, k, i));
    }
    if writes_bit(values, fields, j as int, i) {
        assert(j <= j < fields.len() && writes_bit(values, fields, j as int, i));
    }
}

/// Writing fields `j..` in turn: each reads back as its value through any
/// memo file that keeps what the writes left; the deletion flag and the
/// fields before `j` keep their bytes; the null flags gain exactly the
/// bits of the nulls written.
#[verifier::spinoff_prover]
proof fn lemma_fields_round_trip(
    values: Seq<ValueModel>,
    fields: Seq<FieldModel>,
    j: nat,
    layout: Option<NullFlagLayout>,
    rl: nat,
    raw: Seq<u8>,
    memo: Option<MemoModel>,
    raw_f: Seq<u8>,
    memo_f: Option<MemoModel>,
    mf: Option<MemoModel>,
    enc: Option<TextEncoding>,
)
    requires
        fields_encode(values, fields, j, layout, raw, memo, enc) == Outcome::<
            (Seq<u8>, Option<MemoModel>),
            ErrorKind,
        >::Done((raw_f, memo_f)),
        layout_sound(fields, layout, rl),
        values_read_back(values, fields, memo, enc),
        raw.len() == rl,
        memo_ok(memo),
        memo_kept(memo_f, mf),
        j <= fields.len(),
    ensures
        raw_f.len() == rl,
        raw_f[0] == raw[0],
        forall|k: int|
            0 <= k < j ==> #[trigger] field_bytes(raw_f, fields[k]) == field_bytes(raw, fields[k]),
        forall|k: int|
            j <= k < fields.len() ==> value_decode(
                fields[k],
                #[trigger] field_bytes(raw_f, fields[k]),
                written_as_null(fields[k], values[k]),
                mf,
                enc,
            ) == Outcome::<ValueModel, ErrorKind>::Done(values[k]),
        layout matches Some(l) ==> forall|i: nat|
            #[trigger] null_bit(flag_bytes(raw_f, l), i) == (null_bit(flag_bytes(raw, l), i)
                || sets_bit(values, fields, j, i)),
    decreases fields.len() - j,
{
    if j >= fields.len() {
        assert(raw_f == raw);
        if let Some(l) = layout {
            assert forall|i: nat| #[trigger] null_bit(flag_bytes(raw_f, l), i) == (null_bit(
                flag_bytes(raw, l),
                i,
            ) || sets_bit(values, fields, j, i)) by {
                if sets_bit(values, fields, j, i) {
                    let k = choose|k: int| j <= k < fields.len() && #[trigger] writes_bit(values, fields, k, i);
                }
            }
        }
    } else {
        let f = fields[j as int];
        let v = values[j as int];
        assert(reads_back(f, v));
        let raw1 = match (v, f.nullable_index, layout) {
            (ValueModel::Null, Some(bit), Some(l)) => put(
                raw,
                l.offset as nat,
                with_null_bit(raw.subrange(l.offset as int, l.offset + l.length), bit as nat),
            ),
            _ => raw,
        };
        match value_encode(f, v, memo, enc) {
            Outcome::Done((b, m2)) => {
                assert(f.offset + f.length <= raw1.len() && b.len() == f.length) by {
                    if (v is Null && f.nullable_index is Some && layout is Some) {
                        let l = layout->0;
                        lemma_put(
                            raw,
                            l.offset as nat,
                            with_null_bit(raw.subrange(l.offset as int, l.offset + l.length), f.nullable_index->0 as nat),
                        );
                    }
                }
                let raw2 = put(raw1, f.offset as nat, b);
                assert(field_step(f, v, layout, raw, memo, enc) == Outcome::<
                    (Seq<u8>, Option<MemoModel>),
                    ErrorKind,
                >::Done((raw2, m2)));
                lemma_value_encode_memo(f, v, memo, enc, b, m2);
                lemma_fields_encode_memo(values, fields, j + 1, layout, raw2, m2, enc, raw_f, memo_f);
                // the null flags after the bit of this field
                let ghost bits_changed = v is Null && f.nullable_index is Some;
                if let Some(l) = layout {
                    if bits_changed {
                        let bit = f.nullable_index->0 as nat;
                        let data = with_null_bit(flag_bytes(raw, l), bit);
                        assert(bit / 8 < flag_bytes(raw, l).len());
                        law_null_bit_after_set(flag_bytes(raw, l), bit, 0);
                        lemma_put(raw, l.offset as nat, data);
                        assert(flag_bytes(raw1, l) == data);
                    } else {
                        assert(raw1 == raw);
                    }
                } else {
                    assert(raw1 == raw);
                }
                assert(raw1.len() == rl);
                lemma_put(raw1, f.offset as nat, b);
                assert(field_bytes(raw2, f) == b);
                assert(values_read_back(values, fields, m2, enc));
                lemma_fields_round_trip(values, fields, j + 1, layout, rl, raw2, m2, raw_f, memo_f, mf, enc);
                // this field
                assert(field_bytes(raw_f, f) == b);
                assert(match memo_content(f.field_type, v) {
                    Some(c) => memo_found(c, memo, mf),
                    None => true,
                }) by {
                    if let Some(c) = memo_content(f.field_type, v) {
                        if c.len() > 0 {
                            assert(holds_memo(m2->0, memo->0.next_free_block, c));
                            assert(holds_memo(memo_f->0, memo->0.next_free_block, c));
                            assert(holds_memo(mf->0, memo->0.next_free_block, c));
                        }
                    }
                }
                assert(kept_in_code_page(f, v, enc));
                law_value_round_trip(f, v, enc, memo, mf, b, m2);
                // earlier fields and the deletion flag
                assert forall|k: int| 0 <= k < j implies #[trigger] field_bytes(raw_f, fields[k])
                    == field_bytes(raw, fields[k]) by {
                    let g = fields[k];
                    assert(apart(g.offset as int, g.length as int, f.offset as int, f.length as int));
                    assert(field_bytes(raw_f, g) == field_bytes(raw2, g));
                    assert forall|x: int| 0 <= x < g.length implies field_bytes(raw2, g)[x] == field_bytes(raw, g)[x] by {
                        assert(raw2[g.offset + x] == raw1[g.offset + x]);
                        if let Some(l) = layout {
                            assert(apart(g.offset as int, g.length as int, l.offset as int, l.length as int));
                        }
                        assert(raw1[g.offset + x] == raw[g.offset + x]);
                    }
                    assert(field_bytes(raw2, g) =~= field_bytes(raw, g));
                }
                assert(raw2[0] == raw[0]) by {
                    assert(raw1[0] == raw[0]);
                }
                // the null flags
                if let Some(l) = layout {
                    assert(apart(f.offset as int, f.length as int, l.offset as int, l.length as int));
                    assert(flag_bytes(raw2, l) =~= flag_bytes(raw1, l));
                    assert forall|i: nat| #[trigger] null_bit(flag_bytes(raw_f, l), i) == (null_bit(
                        flag_bytes(raw, l),
                        i,
                    ) || sets_bit(values, fields, j, i)) by {
                        lemma_sets_bit_step(values, fields, j, i);
                        if bits_changed {
                            let bit = f.nullable_index->0 as nat;
                            law_null_bit_after_set(flag_bytes(raw, l), bit, i);
                        } else {
                            assert(!writes_bit(values, fields, j as int, i));
                        }
                    }
                }
            },
            _ => {
                assert(false);
            },
        }
    }
}

/// The values of fields `j..` read one after the other.
proof fn lemma_values_decode(
    raw: Seq<u8>,
    fields: Seq<FieldModel>,
    j: nat,
    bits: Option<Seq<u8>>,
    mf: Option<MemoModel>,
    values: Seq<ValueModel>,
    enc: Option<TextEncoding>,
)
    requires
        values.len() == fields.len(),
        j <= fields.len(),
        forall|k: int|
            j <= k < fields.len() ==> #[trigger] fields[k].offset + fields[k].length <= raw.len(),
        forall|k: int|
            j <= k < fields.len() ==> value_decode(
                fields[k],
                #[trigger] field_bytes(raw, fields[k]),
                is_null_for(fields[k], bits),
                mf,
                enc,
            ) == Outcome::<ValueModel, ErrorKind>::Done(values[k]),
    ensures
        values_decode(raw, fields, j, bits, mf, enc) == Outcome::<Seq<ValueModel>, ErrorKind>::Done(
            values.skip(j as int),
        ),
    decreases fields.len() - j,
{
    if j < fields.len() {
        let f = fields[j as int];
        assert(f.offset + f.length <= raw.len());
        assert(value_decode(f, field_bytes(raw, f), is_null_for(f, bits), mf, enc)
            == Outcome::<ValueModel, ErrorKind>::Done(values[j as int]));
        lemma_values_decode(raw, fields, j + 1, bits, mf, values, enc);
        assert(seq![values[j as int]] + values.skip((j + 1) as int) =~= values.skip(j as int));
    } else {
        assert(values.skip(j as int) =~= Seq::<ValueModel>::empty());
    }
}

/// Reading a record gives back the record that was written, when its
/// layout is sound and its values are stored without loss (text through
/// the code page `enc`), through any memo file that keeps the memos the
/// write left.
#[verifier::spinoff_prover]
pub proof fn law_record_round_trip(
    rec: RecordModel,
    fields: Seq<FieldModel>,
    layout: Option<NullFlagLayout>,
    rl: nat,
    memo: Option<MemoModel>,
    raw: Seq<u8>,
    memo2: Option<MemoModel>,
    mf: Option<MemoModel>,
    enc: Option<TextEncoding>,
)
    requires
        record_encode(rec, fields, layout, rl, memo, enc) == Outcome::<
            (Seq<u8>, Option<MemoModel>),
            ErrorKind,
        >::Done((raw, memo2)),
        layout_sound(fields, layout, rl),
        values_read_back(rec.values, fields, memo, enc),
        memo_ok(memo),
        memo_kept(memo2, mf),
    ensures
        record_decode(raw, fields, layout, mf, enc) == Outcome::<RecordModel, ErrorKind>::Done(rec),
        raw.len() == rl,
        memo_ok(memo2),
        memo_kept(memo, memo2),
{
    let raw0 = seq![if rec.deleted { 0x2Au8 } else { 0x20u8 }] + blanks((rl - 1) as nat);
    let raw1 = match layout {
        Some(l) => put(raw0, l.offset as nat, zeros(l.length as nat)),
        None => raw0,
    };
    if let Some(l) = layout {
        lemma_put(raw0, l.offset as nat, zeros(l.length as nat));
        assert(flag_bytes(raw1, l) == zeros(l.length as nat));
    }
    assert(raw1.len() == rl && raw1[0] == raw0[0]);
    lemma_fields_round_trip(rec.values, fields, 0, layout, rl, raw1, memo, raw, memo2, mf, enc);
    lemma_fields_encode_memo(rec.values, fields, 0, layout, raw1, memo, enc, raw, memo2);
    let bits = match layout {
        Some(l) => Some(flag_bytes(raw, l)),
        None => None,
    };
    assert forall|k: int| 0 <= k < fields.len() implies is_null_for(fields[k], bits) == written_as_null(
        fields[k],
        #[trigger] rec.values[k],
    ) by {
        let g = fields[k];
        if let Some(x) = g.nullable_index {
            let l = layout->0;
            lemma_null_bits_zero(l.length as nat, x as nat);
            if rec.values[k] is Null {
                assert(writes_bit(rec.values, fields, k, x as nat));
            }
            if sets_bit(rec.values, fields, 0, x as nat) {
                let k2 = choose|k2: int| 0 <= k2 < fields.len() && #[trigger] writes_bit(rec.values, fields, k2, x as nat);
                if k2 != k {
                    assert(fields[k2].nullable_index != fields[k].nullable_index);
                }
            }
        }
    }
    assert forall|k: int| 0 <= k < fields.len() implies #[trigger] fields[k].offset + fields[k].length <= raw.len() by {}
    assert forall|k: int| 0 <= k < fields.len() implies value_decode(
        fields[k],
        #[trigger] field_bytes(raw, fields[k]),
        is_null_for(fields[k], bits),
        mf,
        enc,
    ) == Outcome::<ValueModel, ErrorKind>::Done(rec.values[k]) by {
        assert(is_null_for(fields[k], bits) == written_as_null(fields[k], rec.values[k]));
    }
    lemma_values_decode(raw, fields, 0, bits, mf, rec.values, enc);
    assert(rec.values.skip(0) =~= rec.values);
}

// ---------------------------------------------------------------------------
// Headers and field descriptors
// ---------------------------------------------------------------------------

/// A header whose 32 bytes read back as itself: a header length that
/// leaves room for the terminator, and no last-update date or one that the
/// year byte holds (1901 to 2155, month and day not zero).
pub open spec fn header_stored(h: Header) -> bool {
    &&& h.header_length >= 33
    &&& h.last_update matches Some(d) ==> 1900 < d.year <= 2155 && d.month != 0 && d.day != 0
}

/// A header reads back as the header that was written, whatever follows it.
#[verifier::spinoff_prover]
pub proof fn law_header_round_trip(h: Header, rest: Seq<u8>)
    requires
        header_stored(h),
    ensures
        header_from_bytes(header_bytes(h) + rest) == Ok::<Header, ErrorKind>(h),
{
    let b = header_bytes(h) + rest;
    law_version_round_trip(h.kind);
    lemma_le32(h.record_count as nat);
    lemma_le16(h.header_length as nat);
    lemma_le16(h.record_length as nat);
    let c = le32_bytes(h.record_count as nat);
    let hl = le16_bytes(h.header_length as nat);
    let rl = le16_bytes(h.record_length as nat);
    assert(b.len() >= 32);
    assert(b[4] == c[0] && b[5] == c[1] && b[6] == c[2] && b[7] == c[3]);
    assert(le32(b, 4) == le32(c, 0));
    assert(b[8] == hl[0] && b[9] == hl[1]);
    assert(le16(b, 8) == le16(hl, 0));
    assert(b[10] == rl[0] && b[11] == rl[1]);
    assert(le16(b, 10) == le16(rl, 0));
    assert(b[29] == h.code_page.0);
    match h.last_update {
        Some(d) => {
            assert(b[1] == (d.year - 1900) as u8 && b[2] == d.month && b[3] == d.day);
        },
        None => {},
    }
}

/// A character that a name field stores and reads back unchanged: ASCII,
/// not NUL, and not a lower-case letter (names read back upper-cased).
pub open spec fn stored_name_char(c: char) -> bool {
    '\u{1}' <= c && c <= '\u{7f}' && !('a' <= c && c <= 'z')
}

/// A field name that a descriptor stores and reads back: at most eleven
/// characters, each a stored name character, with no whitespace at either
/// end (names read back trimmed).
pub open spec fn name_stored(name: Seq<char>) -> bool {
    &&& name.len() <= 11
    &&& forall|i: int| 0 <= i < name.len() ==> stored_name_char(#[trigger] name[i])
    &&& name.len() > 0 ==> !is_space(name[0]) && !is_space(name.last())
}

/// A stored name reads back from its 11-byte name field.
pub proof fn lemma_name_round_trip(name: Seq<char>, rest: Seq<u8>)
    requires
        name_stored(name),
    ensures
        descriptor_name(name_field(name) + rest) == name,
        name_field(name).len() == 11,
{
    assert forall|i: int| 0 <= i < name.len() implies '\0' <= #[trigger] name[i] <= '\u{7f}' by {
        assert(stored_name_char(name[i]));
    }
    assert(is_ascii_chars(name));
    lemma_ascii_encoding(name);
    let nb = encode_utf8(name);
    assert(nb.len() == name.len());
    let nf = name_field(name);
    assert(nb.take(nb.len() as int) =~= nb);
    assert(nf == nb + zeros((11 - nb.len()) as nat));
    let raw = nf + rest;
    assert(raw.take(11) =~= nf);
    assert forall|k: int| 0 <= k < nb.len() implies nf[k] != 0 by {
        assert(nf[k] == nb[k]);
        assert(nb[k] == name[k] as u8);
        assert(stored_name_char(name[k]));
        assert(name[k] as u8 != 0);
    }
    lemma_zero_position(nf, nb.len() as int);
    assert(nf.take(nb.len() as int) =~= nb);
    lemma_utf8_text_encoded(name);
    lemma_trim_no_space(name);
    assert(upper_all(name) =~= name) by {
        assert forall|i: int| 0 <= i < name.len() implies crate::text::upper(name[i]) == name[i] by {
            assert(stored_name_char(name[i]));
        }
    }
}

/// The null-flag number that the descriptors give the next nullable field
/// after `st`.
pub open spec fn numbered_after(st: DescriptorState, f: FieldModel) -> bool {
    f.nullable_index == if flag_nullable(f.flags) {
        Some(st.nullable_count as usize)
    } else {
        None
    }
}

/// A field descriptor reads back as the field that was written, numbered
/// among the nullable fields as the fields before it leave it.
#[verifier::spinoff_prover]
pub proof fn law_descriptor_round_trip(st: DescriptorState, f: FieldModel)
    requires
        f.field_type != FieldType::NullFlags,
        name_stored(f.name),
        numbered_after(st, f),
    ensures
        descriptor_bytes(f).len() == 32,
        descriptor_bytes(f)[0] != 0x0D,
        type_for_byte(descriptor_bytes(f)[11]) == Some(f.field_type),
        descriptor_step(st, descriptor_bytes(f), f.field_type).fields == st.fields.push(f),
        descriptor_step(st, descriptor_bytes(f), f.field_type).null_flags == st.null_flags,
{
    let raw = descriptor_bytes(f);
    let tail = seq![symbol_of(f.field_type)] + le32_bytes(f.offset as nat) + seq![
        f.length,
        f.decimals,
        f.flags,
    ] + zeros(13);
    lemma_name_round_trip(f.name, tail);
    assert(raw =~= name_field(f.name) + tail);
    law_symbol_round_trip(f.field_type);
    lemma_le32(f.offset as nat);
    let o = le32_bytes(f.offset as nat);
    assert(raw[12] == o[0] && raw[13] == o[1] && raw[14] == o[2] && raw[15] == o[3]);
    assert(le32(raw, 12) == le32(o, 0));
    assert(raw[16] == f.length && raw[17] == f.decimals && raw[18] == f.flags);
    assert(raw[0] != 0x0D) by {
        if f.name.len() > 0 {
            assert(stored_name_char(f.name[0]));
            assert(!is_space(f.name[0]));
            assert(name_field(f.name)[0] == f.name[0] as u8) by {
                lemma_ascii_encoding(f.name);
            }
        } else {
            assert(name_field(f.name)[0] == 0) by {
                assert(encode_utf8(f.name) =~= Seq::<u8>::empty());
            }
        }
    }
}

// ---------------------------------------------------------------------------
// Tables
// ---------------------------------------------------------------------------

/// Keeping memos is transitive.
pub proof fn lemma_memo_kept_trans(a: Option<MemoModel>, b: Option<MemoModel>, c: Option<MemoModel>)
    requires
        memo_kept(a, b),
        memo_kept(b, c),
    ensures
        memo_kept(a, c),
{
    if let (Some(x), Some(y), Some(z)) = (a, b, c) {
        assert forall|p: u32, m: Seq<u8>| #[trigger] holds_memo(x, p, m) implies holds_memo(z, p, m) by {
            assert(holds_memo(y, p, m));
        }
    }
}

/// Every memo file keeps its own memos.
pub proof fn lemma_memo_kept_refl(a: Option<MemoModel>)
    ensures
        memo_kept(a, a),
{
}

/// Number of nullable fields among the first `j`.
pub open spec fn nullable_before(fields: Seq<FieldModel>, j: int) -> nat
    decreases j,
{
    if j <= 0 {
        0
    } else {
        nullable_before(fields, j - 1) + if flag_nullable(fields[j - 1].flags) {
            1nat
        } else {
            0nat
        }
    }
}

/// The fields that their descriptors give back: no null-flag field among
/// them, stored names, and nullable fields numbered in order.
pub open spec fn fields_stored(fields: Seq<FieldModel>) -> bool {
    forall|j: int|
        0 <= j < fields.len() ==> {
            &&& (#[trigger] fields[j]).field_type != FieldType::NullFlags
            &&& name_stored(fields[j].name)
            &&& fields[j].nullable_index == if flag_nullable(fields[j].flags) {
                Some(nullable_before(fields, j) as usize)
            } else {
                None
            }
        }
}

/// Number of descriptors that a table is written with.
pub open spec fn descriptor_total(t: TableModel) -> nat {
    t.fields.len() + if t.null_flags is Some {
        1nat
    } else {
        0nat
    }
}

/// A date that a header stores: years 1901 to 2155, month and day not zero.
pub open spec fn date_stored(d: Date) -> bool {
    1900 < d.year <= 2155 && d.month != 0 && d.day != 0
}

/// A table that reads back as itself from the image it is written as
/// (whatever header length it was read with): the header length that its
/// layout needs fits 16 bits, its record count fits the header, its record
/// layout is sound, its fields are stored by their descriptors and its
/// records' values by their fields and through its code page.
pub open spec fn table_stored(t: TableModel) -> bool {
    &&& layout_header_length(t) <= 0xFFFF
    &&& t.records.len() <= u32::MAX
    &&& layout_sound(t.fields, t.null_flags, t.header.record_length as nat)
    &&& fields_stored(t.fields)
    &&& forall|i: int|
        0 <= i < t.records.len() ==> values_read_back(
            (#[trigger] t.records[i]).values,
            t.fields,
            fresh_memo(t),
            encoding_of_mark(t.header.code_page.0),
        )
}

/// The descriptors of `fields` one after the other, 32 bytes each.
pub proof fn lemma_descriptors_bytes(fields: Seq<FieldModel>)
    ensures
        descriptors_bytes(fields).len() == 32 * fields.len(),
        forall|k: int|
            0 <= k < fields.len() ==> descriptors_bytes(fields).subrange(32 * k, 32 * k + 32)
                == descriptor_bytes(#[trigger] fields[k]),
    decreases fields.len(),
{
    if fields.len() > 0 {
        let init = fields.drop_last();
        lemma_descriptors_bytes(init);
        let d = descriptors_bytes(fields);
        let last = descriptor_bytes(fields.last());
        assert(name_field(fields.last().name).len() == 11);
        assert(last.len() == 32);
        assert forall|k: int| 0 <= k < fields.len() implies d.subrange(32 * k, 32 * k + 32)
            == descriptor_bytes(#[trigger] fields[k]) by {
            if k < fields.len() - 1 {
                assert(init[k] == fields[k]);
                assert(d.subrange(32 * k, 32 * k + 32) =~= descriptors_bytes(init).subrange(
                    32 * k,
                    32 * k + 32,
                ));
            } else {
                assert(d.subrange(32 * k, 32 * k + 32) =~= last);
            }
        }
    }
}

/// The descriptor state after the first `k` fields.
pub open spec fn state_after(fields: Seq<FieldModel>, k: int) -> DescriptorState {
    DescriptorState { fields: fields.take(k), null_flags: None, nullable_count: nullable_before(fields, k) }
}

/// Reading the descriptor slots of an image that holds the descriptors
/// of `fields` and, after them, the null-flag descriptor of `layout`.
#[verifier::spinoff_prover]
proof fn lemma_descriptors_from(
    b: Seq<u8>,
    fields: Seq<FieldModel>,
    layout: Option<NullFlagLayout>,
    k: nat,
    count: nat,
)
    requires
        k <= fields.len(),
        count >= fields.len() + if layout is Some { 1nat } else { 0nat },
        count > fields.len() + (if layout is Some { 1nat } else { 0nat }) ==> b.len() >= 64 + 32 * (
        fields.len() + if layout is Some { 1nat } else { 0nat }) && b[32 + 32 * (fields.len() + if layout
            is Some { 1int } else { 0int })] == 0x0D,
        fields_stored(fields),
        b.len() >= 32 + 32 * (fields.len() + if layout is Some { 1nat } else { 0nat }),
        forall|j: int|
            0 <= j < fields.len() ==> b.subrange(32 + 32 * j, 64 + 32 * j) == descriptor_bytes(
                #[trigger] fields[j],
            ),
        layout matches Some(l) ==> b.subrange(
            32 + 32 * (fields.len() as int),
            64 + 32 * (fields.len() as int),
        ) == descriptor_bytes(null_flags_descriptor(l)),
    ensures
        descriptors_from(b, k, count, state_after(fields, k as int)) matches Ok(st) && st.fields
            == fields && st.null_flags == layout,
    decreases fields.len() - k,
{
    let total = fields.len() + if layout is Some { 1nat } else { 0nat };
    if k < fields.len() {
        let f = fields[k as int];
        let st = state_after(fields, k as int);
        assert(numbered_after(st, f));
        law_descriptor_round_trip(st, f);
        let raw = b.subrange(32 + 32 * (k as int), 32 + 32 * (k as int) + 32);
        assert(raw == descriptor_bytes(f));
        let next = descriptor_step(st, raw, f.field_type);
        assert(next.fields =~= fields.take(k + 1 as int));
        assert(next == state_after(fields, k + 1 as int));
        lemma_descriptors_from(b, fields, layout, k + 1, count);
    } else {
        assert(fields.take(k as int) =~= fields);
        if let Some(l) = layout {
            let nd = null_flags_descriptor(l);
            let raw = b.subrange(32 + 32 * (k as int), 32 + 32 * (k as int) + 32);
            assert(raw == descriptor_bytes(nd));
            reveal_strlit("_NullFlags");
            assert(name_field(nd.name)[0] == 0x5F) by {
                assert(is_ascii_chars(nd.name));
                lemma_ascii_encoding(nd.name);
            }
            assert(name_field(nd.name).len() == 11);
            assert(raw[0] == 0x5F);
            law_symbol_round_trip(FieldType::NullFlags);
            lemma_le32(l.offset as nat);
            let o = le32_bytes(l.offset as nat);
            assert(raw[12] == o[0] && raw[13] == o[1] && raw[14] == o[2] && raw[15] == o[3]);
            assert(le32(raw, 12) == le32(o, 0));
            assert(raw[16] == l.length);
            let st = state_after(fields, k as int);
            let next = descriptor_step(st, raw, FieldType::NullFlags);
            assert(next.null_flags == Some(l));
            if count > total {
                let traw = b.subrange(32 + 32 * (total as int), 64 + 32 * (total as int));
                assert(traw[0] == 0x0D);
            }
            assert(descriptors_from(b, k + 1, count, next) == Ok::<DescriptorState, ErrorKind>(next));
        } else {
            if count > total {
                let traw = b.subrange(32 + 32 * (total as int), 64 + 32 * (total as int));
                assert(traw[0] == 0x0D);
            }
        }
    }
}

/// The records of a written table read back, each from its slot, with the
/// memo file that the writes leave.
#[verifier::spinoff_prover]
proof fn lemma_records_round_trip(
    t: TableModel,
    i: nat,
    acc: Seq<u8>,
    memo: Option<MemoModel>,
    bf: Seq<u8>,
    mfinal: Option<MemoModel>,
    big: Seq<u8>,
)
    requires
        records_encode(t, i, acc, memo) == Outcome::<(Seq<u8>, Option<MemoModel>), ErrorKind>::Done(
            (bf, mfinal),
        ),
        table_stored(t),
        i <= t.records.len(),
        acc.len() == layout_header_length(t) + i * t.header.record_length,
        memo_ok(memo),
        memo_kept(fresh_memo(t), memo),
        big.len() >= bf.len(),
        forall|x: int| 0 <= x < bf.len() ==> big[x] == bf[x],
    ensures
        bf.len() == layout_header_length(t) + t.records.len() * t.header.record_length,
        forall|x: int| 0 <= x < acc.len() ==> bf[x] == acc[x],
        memo_ok(mfinal),
        memo_kept(memo, mfinal),
        records_decode(
            big,
            layout_header_length(t),
            t.header.record_length as nat,
            t.records.len(),
            i,
            t.fields,
            t.null_flags,
            mfinal,
            encoding_of_mark(t.header.code_page.0),
        ) == Outcome::<Seq<RecordModel>, ErrorKind>::Done(t.records.skip(i as int)),
    decreases t.records.len() - i,
{
    let start = layout_header_length(t);
    let rl = t.header.record_length as nat;
    let n = t.records.len();
    if i >= n {
        assert(t.records.skip(i as int) =~= Seq::<RecordModel>::empty());
        lemma_memo_kept_refl(memo);
    } else {
        let rec = t.records[i as int];
        let enc = encoding_of_mark(t.header.code_page.0);
        match record_encode(rec, t.fields, t.null_flags, rl, memo, enc) {
            Outcome::Done((r, m1)) => {
                assert(values_read_back(rec.values, t.fields, fresh_memo(t), enc));
                assert(values_read_back(rec.values, t.fields, memo, enc));
                assert(records_encode(t, i + 1, acc + r, m1) == Outcome::<
                    (Seq<u8>, Option<MemoModel>),
                    ErrorKind,
                >::Done((bf, mfinal)));
                // the record's memo and length, from the record law with the final memo
                lemma_fields_encode_memo_of_record(rec, t.fields, t.null_flags, rl, memo, r, m1, enc);
                lemma_memo_kept_trans(fresh_memo(t), memo, m1);
                assert(r.len() == rl) by {
                    lemma_record_len(rec, t.fields, t.null_flags, rl, memo, r, m1, enc);
                }
                assert((acc + r).len() == start + (i + 1) * rl) by (nonlinear_arith)
                    requires
                        acc.len() == start + i * rl,
                        r.len() == rl,
                ;
                lemma_records_round_trip(t, i + 1, acc + r, m1, bf, mfinal, big);
                lemma_memo_kept_trans(memo, m1, mfinal);
                law_record_round_trip(rec, t.fields, t.null_flags, rl, memo, r, m1, mfinal, enc);
                // the slot of record i
                let pos = start + i * rl;
                assert(pos + rl <= bf.len()) by (nonlinear_arith)
                    requires
                        pos == start + i * rl,
                        bf.len() == start + n * rl,
                        i < n,
                ;
                assert(rl >= 1);
                assert(record_slice(big, start, rl, i) == Some(r)) by {
                    assert forall|x: int| 0 <= x < rl implies big.subrange(pos as int, (pos + rl) as int)[x] == r[x] by {
                        assert(bf[pos + x] == (acc + r)[pos + x]);
                    }
                    assert(big.subrange(pos as int, (pos + rl) as int) =~= r);
                }
                assert(seq![rec] + t.records.skip(i + 1 as int) =~= t.records.skip(i as int));
                assert forall|x: int| 0 <= x < acc.len() implies bf[x] == acc[x] by {
                    assert(bf[x] == (acc + r)[x]);
                }
            },
            _ => {
                assert(false);
            },
        }
    }
}

/// The memo files of one record's write.
proof fn lemma_fields_encode_memo_of_record(
    rec: RecordModel,
    fields: Seq<FieldModel>,
    layout: Option<NullFlagLayout>,
    rl: nat,
    memo: Option<MemoModel>,
    raw: Seq<u8>,
    memo2: Option<MemoModel>,
    enc: Option<TextEncoding>,
)
    requires
        record_encode(rec, fields, layout, rl, memo, enc) == Outcome::<
            (Seq<u8>, Option<MemoModel>),
            ErrorKind,
        >::Done((raw, memo2)),
        values_read_back(rec.values, fields, memo, enc),
        memo_ok(memo),
    ensures
        memo_ok(memo2),
        memo_kept(memo, memo2),
{
    let raw0 = seq![if rec.deleted { 0x2Au8 } else { 0x20u8 }] + blanks((rl - 1) as nat);
    let raw1 = match layout {
        Some(l) => put(raw0, l.offset as nat, zeros(l.length as nat)),
        None => raw0,
    };
    lemma_fields_encode_memo(rec.values, fields, 0, layout, raw1, memo, enc, raw, memo2);
}

/// A written record fills the record length.
proof fn lemma_record_len(
    rec: RecordModel,
    fields: Seq<FieldModel>,
    layout: Option<NullFlagLayout>,
    rl: nat,
    memo: Option<MemoModel>,
    raw: Seq<u8>,
    memo2: Option<MemoModel>,
    enc: Option<TextEncoding>,
)
    requires
        record_encode(rec, fields, layout, rl, memo, enc) == Outcome::<
            (Seq<u8>, Option<MemoModel>),
            ErrorKind,
        >::Done((raw, memo2)),
        layout_sound(fields, layout, rl),
        values_read_back(rec.values, fields, memo, enc),
        memo_ok(memo),
    ensures
        raw.len() == rl,
{
    lemma_fields_encode_memo_of_record(rec, fields, layout, rl, memo, raw, memo2, enc);
    lemma_memo_kept_refl(memo2);
    law_record_round_trip(rec, fields, layout, rl, memo, raw, memo2, memo2, enc);
}

/// The prefix of a written table: its header, the descriptors of its
/// fields and of its null flags, and the terminator.
proof fn lemma_prefix_parts(t: TableModel, today: Date)
    ensures
        header_bytes(written_header(t, today)).len() == 32,
        descriptors_bytes(t.fields).len() == 32 * t.fields.len(),
        forall|k: int|
            0 <= k < t.fields.len() ==> descriptors_bytes(t.fields).subrange(32 * k, 32 * k + 32)
                == descriptor_bytes(#[trigger] t.fields[k]),
        table_prefix(t, today) == header_bytes(written_header(t, today)) + descriptors_bytes(t.fields) + (match t.null_flags {
            Some(l) => descriptor_bytes(null_flags_descriptor(l)),
            None => Seq::<u8>::empty(),
        }) + seq![0x0Du8] + zeros(backlink_of(t.header.kind)),
        t.null_flags matches Some(l) ==> descriptor_bytes(null_flags_descriptor(l)).len() == 32,
        table_prefix(t, today).len() == 32 + 32 * descriptor_total(t) + 1 + backlink_of(t.header.kind),
        table_prefix(t, today)[32 + 32 * descriptor_total(t) as int] == 0x0D,
{
    lemma_descriptors_bytes(t.fields);
    assert(name_field("_NullFlags"@).len() == 11);
    let p = header_bytes(written_header(t, today)) + descriptors_bytes(t.fields) + (match t.null_flags {
        Some(l) => descriptor_bytes(null_flags_descriptor(l)),
        None => Seq::<u8>::empty(),
    });
    assert(p.len() == 32 + 32 * descriptor_total(t));
    assert((p + seq![0x0Du8] + zeros(backlink_of(t.header.kind)))[p.len() as int] == 0x0D);
}

/// An image that starts with the prefix of a table reads back the
/// table's header.
#[verifier::spinoff_prover]
proof fn lemma_prefix_header(t: TableModel, today: Date, b: Seq<u8>)
    requires
        table_stored(t),
        date_stored(today),
        b.len() >= table_prefix(t, today).len(),
        forall|x: int| 0 <= x < table_prefix(t, today).len() ==> b[x] == table_prefix(t, today)[x],
    ensures
        table_prefix(t, today).len() == layout_header_length(t),
        header_from_bytes(b) == Ok::<Header, ErrorKind>(written_header(t, today)),
{
    let prefix = table_prefix(t, today);
    let wh = written_header(t, today);
    lemma_prefix_parts(t, today);
    let hb = header_bytes(wh);
    assert(header_stored(wh));
    assert(b =~= hb + b.skip(32)) by {
        assert forall|x: int| 0 <= x < 32 implies b[x] == hb[x] by {
            assert(b[x] == prefix[x]);
            assert(prefix[x] == hb[x]);
        }
    }
    law_header_round_trip(wh, b.skip(32));
}

/// An image that starts with the prefix of a table reads back the
/// table's descriptors.
#[verifier::spinoff_prover]
proof fn lemma_prefix_descriptors(t: TableModel, today: Date, b: Seq<u8>)
    requires
        table_stored(t),
        b.len() >= table_prefix(t, today).len(),
        forall|x: int| 0 <= x < table_prefix(t, today).len() ==> b[x] == table_prefix(t, today)[x],
    ensures
        crate::codec::descriptors_of(b, written_header(t, today)) matches Ok(st) && st.fields == t.fields
            && st.null_flags == t.null_flags,
{
    let prefix = table_prefix(t, today);
    let wh = written_header(t, today);
    lemma_prefix_parts(t, today);
    let hb = header_bytes(wh);
    let db = descriptors_bytes(t.fields);
    assert forall|j: int| 0 <= j < t.fields.len() implies b.subrange(32 + 32 * j, 64 + 32 * j)
        == descriptor_bytes(#[trigger] t.fields[j]) by {
        assert forall|x: int| 0 <= x < 32 implies #[trigger] b.subrange(32 + 32 * j, 64 + 32 * j)[x]
            == db.subrange(32 * j, 32 * j + 32)[x] by {
            assert(b[32 + 32 * j + x] == prefix[32 + 32 * j + x]);
            assert(prefix[32 + 32 * j + x] == db[32 * j + x]);
        }
        assert(b.subrange(32 + 32 * j, 64 + 32 * j) =~= db.subrange(32 * j, 32 * j + 32));
    }
    if let Some(l) = t.null_flags {
        let n = t.fields.len() as int;
        let nd = descriptor_bytes(null_flags_descriptor(l));
        assert forall|x: int| 0 <= x < 32 implies #[trigger] b.subrange(32 + 32 * n, 64 + 32 * n)[x]
            == nd[x] by {
            assert(b[32 + 32 * n + x] == prefix[32 + 32 * n + x]);
            assert(prefix[32 + 32 * n + x] == nd[x]);
        }
        assert(b.subrange(32 + 32 * n, 64 + 32 * n) =~= nd);
    }
    let total = descriptor_total(t);
    let count = crate::codec::descriptor_count(wh.header_length);
    if backlink_of(t.header.kind) > 0 {
        assert(count == total + 8) by (nonlinear_arith)
            requires
                count == ((wh.header_length - 33) / 32) as nat,
                wh.header_length == 33 + 32 * total + 263,
        ;
        assert(b[32 + 32 * total as int] == prefix[32 + 32 * total as int]);
    } else {
        assert(count == total) by (nonlinear_arith)
            requires
                count == ((wh.header_length - 33) / 32) as nat,
                wh.header_length == 33 + 32 * total,
        ;
    }
    lemma_descriptors_from(b, t.fields, t.null_flags, 0, count);
    assert(t.fields.take(0) =~= Seq::<FieldModel>::empty());
    assert(state_after(t.fields, 0) == DescriptorState {
        fields: Seq::empty(),
        null_flags: None,
        nullable_count: 0,
    });
}

/// Reading the image that a table is written as on the day `today` gives
/// back its header (with the record count brought up to date and `today`
/// as its last update), its fields, its null-flag layout and its records,
/// through the memo file that the write produced.
#[verifier::spinoff_prover]
pub proof fn law_table_round_trip(t: TableModel, today: Date, b: Seq<u8>, m: Option<MemoModel>)
    requires
        table_image(t, today) == Outcome::<(Seq<u8>, Option<MemoModel>), ErrorKind>::Done((b, m)),
        table_stored(t),
        date_stored(today),
    ensures
        table_decode(b, m) == Outcome::<DecodedTable, ErrorKind>::Done(
            DecodedTable {
                header: written_header(t, today),
                fields: t.fields,
                null_flags: t.null_flags,
                records: t.records,
            },
        ),
{
    let prefix = table_prefix(t, today);
    let fresh = fresh_memo(t);
    let wh = written_header(t, today);
    match records_encode(t, 0, prefix, fresh) {
        Outcome::Done((b0, m0)) => {
            assert(b == b0 + seq![0x1Au8] && m == m0);
            assert(memo_ok(fresh)) by {
                if let Some(x) = fresh {
                    assert(x.bytes.len() == 512);
                }
            }
            lemma_memo_kept_refl(fresh);
            assert(prefix.len() == layout_header_length(t) + 0 * t.header.record_length) by {
                lemma_prefix_parts(t, today);
            }
            lemma_records_round_trip(t, 0, prefix, fresh, b0, m0, b);
            lemma_prefix_header(t, today, b);
            lemma_prefix_descriptors(t, today, b);
            assert(t.records.skip(0) =~= t.records);
        },
        _ => {
            assert(false);
        },
    }
}

// ---------------------------------------------------------------------------
// Tables built from field specifications
// ---------------------------------------------------------------------------

/// Specifications whose fields a table stores: names that descriptors
/// store, and no null-flag field among them.
pub open spec fn specs_stored(v: Seq<FieldSpecModel>) -> bool {
    forall|j: int|
        0 <= j < v.len() ==> name_stored((#[trigger] v[j]).name) && v[j].field_type
            != FieldType::NullFlags
}

/// Lengths and nullable counts of prefixes grow with the prefix.
proof fn lemma_prefix_order(v: Seq<FieldSpecModel>, j: int, k: int)
    requires
        0 <= j <= k <= v.len(),
    ensures
        total_length(v.take(j)) <= total_length(v.take(k)),
        nullable_count(v.take(j)) <= nullable_count(v.take(k)),
{
    assert(v.take(k).take(j) =~= v.take(j));
    lemma_total_length_mono(v.take(k), j);
}

/// One more specification adds its length and, when nullable, one to the count.
proof fn lemma_prefix_next(v: Seq<FieldSpecModel>, j: int)
    requires
        0 <= j < v.len(),
    ensures
        total_length(v.take(j + 1)) == total_length(v.take(j)) + v[j].length,
        nullable_count(v.take(j + 1)) == nullable_count(v.take(j)) + if v[j].nullable {
            1nat
        } else {
            0nat
        },
{
    assert(v.take(j + 1).drop_last() =~= v.take(j));
}

/// The nullable fields before field `j` of a built table are those of the
/// specifications before `j`.
proof fn lemma_nullable_before(v: Seq<FieldSpecModel>, j: int)
    requires
        0 <= j <= v.len(),
    ensures
        nullable_before(spec_fields(v), j) == nullable_count(v.take(j)),
    decreases j,
{
    if j > 0 {
        lemma_nullable_before(v, j - 1);
        lemma_prefix_next(v, j - 1);
        let f = spec_fields(v)[j - 1];
        assert(f == spec_field(v, j - 1));
        crate::spec::lemma_spec_flags(v[j - 1].nullable, v[j - 1].binary);
    } else {
        assert(v.take(0) =~= Seq::<FieldSpecModel>::empty());
    }
}

/// A table built from field specifications has a layout that writing and
/// reading agree on, fields that its descriptors give back, a header
/// length that matches its descriptors and no code page (when it has
/// fewer than 65536 fields, so that the descriptor count is not cut).
#[verifier::spinoff_prover]
pub proof fn law_built_layout_stored(v: Seq<FieldSpecModel>, kind: Option<DbfKind>)
    requires
        from_specs_error(v, kind) is None,
        !from_specs_panics(v, kind),
        v.len() < 65536,
        specs_stored(v),
    ensures
        layout_sound(spec_fields(v), spec_layout(v), spec_header(v, kind).record_length as nat),
        fields_stored(spec_fields(v)),
        spec_header(v, kind).header_length == 33 + 32 * (v.len() + if spec_layout(v) is Some {
            1nat
        } else {
            0nat
        }) + backlink_of(spec_header(v, kind).kind),
        encoding_of_mark(spec_header(v, kind).code_page.0) is None,
{
    let fields = spec_fields(v);
    let layout = spec_layout(v);
    let h = spec_header(v, kind);
    let n = nullable_count(v);
    let rl = h.record_length as nat;
    lemma_total_length_mono(v, v.len() as int);
    assert(v.take(v.len() as int) =~= v);
    assert(rl == 1 + total_length(v) + spec_null_len(v));
    assert forall|j: int| 0 <= j < v.len() implies flag_nullable(
        #[trigger] crate::spec::spec_flags(v[j].nullable, v[j].binary),
    ) == v[j].nullable by {
        crate::spec::lemma_spec_flags(v[j].nullable, v[j].binary);
    }
    // every field inside the record, after the deletion flag
    assert forall|j: int| 0 <= j < fields.len() implies 1 <= #[trigger] fields[j].offset
        && fields[j].offset + fields[j].length <= rl && fields[j].offset + fields[j].length
        <= 1 + total_length(v) && fields[j].offset == 1 + total_length(v.take(j)) by {
        lemma_prefix_next(v, j);
        lemma_prefix_order(v, j + 1, v.len() as int);
    }
    // fields apart from each other
    assert forall|j: int, k: int|
        0 <= j < fields.len() && 0 <= k < fields.len() && j != k implies apart(
        #[trigger] fields[j].offset as int,
        fields[j].length as int,
        #[trigger] fields[k].offset as int,
        fields[k].length as int,
    ) by {
        if j < k {
            lemma_prefix_next(v, j);
            lemma_prefix_order(v, j + 1, k);
        } else {
            lemma_prefix_next(v, k);
            lemma_prefix_order(v, k + 1, j);
        }
    }
    // the null flags after the fields
    if let Some(l) = layout {
        assert(l.offset == 1 + total_length(v));
        assert(l.length as nat == null_flag_bytes(n));
        assert forall|j: int| 0 <= j < fields.len() implies apart(
            #[trigger] fields[j].offset as int,
            fields[j].length as int,
            l.offset as int,
            l.length as int,
        ) by {
            lemma_prefix_next(v, j);
            lemma_prefix_order(v, j + 1, v.len() as int);
        }
    }
    // numbering of the nullable fields
    assert forall|j: int| 0 <= j < fields.len() && #[trigger] fields[j].nullable_index is Some implies (
    layout matches Some(l) && fields[j].nullable_index->0 < l.length as nat * 8) by {
        lemma_prefix_next(v, j);
        lemma_prefix_order(v, j + 1, v.len() as int);
        lemma_total_length_mono(v.take(j), j);
        assert(v.take(j).take(j) =~= v.take(j));
        assert(n > 0);
        assert(nullable_count(v.take(j)) < n);
        assert(n <= null_flag_bytes(n) * 8);
    }
    assert forall|j: int, k: int|
        0 <= j < fields.len() && 0 <= k < fields.len() && j != k
            && #[trigger] fields[j].nullable_index is Some implies #[trigger] fields[k].nullable_index
        != fields[j].nullable_index by {
        lemma_total_length_mono(v.take(j), j);
        lemma_total_length_mono(v.take(k), k);
        assert(v.take(j).take(j) =~= v.take(j));
        assert(v.take(k).take(k) =~= v.take(k));
        lemma_total_length_mono(v, v.len() as int);
        if fields[k].nullable_index is Some {
            if j < k {
                lemma_prefix_next(v, j);
                lemma_prefix_order(v, j + 1, k);
            } else {
                lemma_prefix_next(v, k);
                lemma_prefix_order(v, k + 1, j);
            }
            lemma_prefix_order(v, j, v.len() as int);
            lemma_prefix_order(v, k, v.len() as int);
            crate::table::lemma_nullable_count_bound(v);
        }
    }
    // the fields as their descriptors give them back
    assert forall|j: int| 0 <= j < fields.len() implies {
        &&& (#[trigger] fields[j]).field_type != FieldType::NullFlags
        &&& name_stored(fields[j].name)
        &&& fields[j].nullable_index == if flag_nullable(fields[j].flags) {
            Some(nullable_before(fields, j) as usize)
        } else {
            None
        }
    } by {
        lemma_nullable_before(v, j);
        crate::spec::lemma_spec_flags(v[j].nullable, v[j].binary);
        assert(name_stored(v[j].name));
    }
    assert(crate::codepage::encoding_of_mark(0) is None);
}

/// The central law for tables made by this library: a table built from
/// field specifications (fewer than 65536, with stored names), holding at
/// most `u32::MAX` records whose values its fields store without loss,
/// reads back from the image it is written as with its header, fields,
/// null-flag layout and records.
pub proof fn law_built_table_round_trip(
    t: TableModel,
    v: Seq<FieldSpecModel>,
    kind: Option<DbfKind>,
    today: Date,
    b: Seq<u8>,
    m: Option<MemoModel>,
)
    requires
        from_specs_error(v, kind) is None,
        !from_specs_panics(v, kind),
        v.len() < 65536,
        specs_stored(v),
        t.fields == spec_fields(v),
        t.null_flags == spec_layout(v),
        t.header.kind == spec_header(v, kind).kind,
        t.header.header_length == spec_header(v, kind).header_length,
        t.header.record_length == spec_header(v, kind).record_length,
        t.header.code_page == spec_header(v, kind).code_page,
        t.records.len() <= u32::MAX,
        forall|i: int|
            0 <= i < t.records.len() ==> values_read_back(
                (#[trigger] t.records[i]).values,
                t.fields,
                fresh_memo(t),
                encoding_of_mark(t.header.code_page.0),
            ),
        table_image(t, today) == Outcome::<(Seq<u8>, Option<MemoModel>), ErrorKind>::Done((b, m)),
        date_stored(today),
    ensures
        table_decode(b, m) == Outcome::<DecodedTable, ErrorKind>::Done(
            DecodedTable {
                header: written_header(t, today),
                fields: t.fields,
                null_flags: t.null_flags,
                records: t.records,
            },
        ),
{
    law_built_layout_stored(v, kind);
    assert(t.fields.len() == v.len());
    assert(table_stored(t));
    law_table_round_trip(t, today, b, m);
}

} // verus!
