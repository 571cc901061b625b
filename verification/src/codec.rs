//! The `.dbf` file format: header, field descriptors, records and the
//! bytes of each field value, in both directions.
//!
//! Decoding functions report an [`Outcome`]: a value, an error, or that the
//! reader would panic on the input (a record layout that does not fit the
//! record length, a value that does not fill its field). The public table
//! functions refuse the inputs of the third kind in their `requires`.

use vstd::prelude::*;
use vstd::utf8::encode_utf8;
use crate::bytes::{
    bits32, bits64, le16, le16_bytes, le32, le32_bytes, le64, le64_bytes, push_all, push_le16,
    push_le32, push_le64, push_repeat, read_le16, read_le32, zeros, read_le64, read_le_i32,
    read_le_i64, signed32, signed64,
};
use crate::error::{Error, ErrorKind, Result, plain_message};
use crate::header::{
    CodePageMark, DbfKind, FieldDescriptor, FieldModel, FieldType, Header, kind_for_version,
    symbol_of, version_of, flag_nullable, type_for_byte,
};
use crate::value::{
    Date, decimal, decimal_chars, ymd_text, DateTime, Value, ValueModel, date_from_text,
    float_text_ok, is_float_text, copy_bytes,
};
use crate::codepage::{
    utf8_text, utf8_lossy, TextEncoding, decode_bytes, decode_text, encode_str, encode_text,
};
use crate::record::{fields_view, Record, RecordModel, values_view};
use crate::text::{
    chars_of, parse_unsigned, parse_unsigned_chars, string_from_chars, trim, trim_chars, trim_end,
    trim_end_chars, upper_all, upper_chars,
};
use crate::memo::{MemoFile, MemoModel, can_append, memo_appended, memo_read};

verus! {

/// The result of reading or writing where the format's reader and writer
/// can also panic: a value, an error, or a panic.
pub enum Outcome<T, E> {
    Done(T),
    Failed(E),
    Panics,
}

/// Where the Visual FoxPro null flags sit in a record.
#[derive(Debug, Clone, Copy, PartialEq, Eq, Structural)]
pub struct NullFlagLayout {
    pub offset: u16,
    pub length: u8,
}

// ---------------------------------------------------------------------------
// Null flags
// ---------------------------------------------------------------------------

/// Whether bit `bit_index` of the flag bytes is set (bits past the end read as clear).
pub open spec fn null_bit(bytes: Seq<u8>, bit_index: nat) -> bool {
    let byte_index = bit_index / 8;
    byte_index < bytes.len() && (bytes[byte_index as int] & (1u8 << ((bit_index % 8) as u8))) != 0
}

/// `bytes` with bit `bit_index` set (unchanged when it is past the end).
pub open spec fn with_null_bit(bytes: Seq<u8>, bit_index: nat) -> Seq<u8> {
    let byte_index = bit_index / 8;
    if byte_index < bytes.len() {
        bytes.update(
            byte_index as int,
            bytes[byte_index as int] | (1u8 << ((bit_index % 8) as u8)),
        )
    } else {
        bytes
    }
}

pub fn null_bit_is_set(bytes: &[u8], bit_index: usize) -> (b: bool)
    ensures
        b == null_bit(bytes@, bit_index as nat),
{
    let byte_index = bit_index / 8;
    let bit = (bit_index % 8) as u8;
    if byte_index < bytes.len() {
        bytes[byte_index] & (1u8 << bit) != 0
    } else {
        false
    }
}

pub fn set_null_bit(bytes: &mut Vec<u8>, bit_index: usize)
    ensures
        final(bytes)@ == with_null_bit(old(bytes)@, bit_index as nat),
{
    let byte_index = bit_index / 8;
    let bit = (bit_index % 8) as u8;
    if byte_index < bytes.len() {
        let b = bytes[byte_index] | (1u8 << bit);
        bytes.set(byte_index, b);
    }
}

/// Bytes of null flags that `nullable_count` nullable fields need.
pub open spec fn null_flag_bytes(nullable_count: nat) -> nat {
    (nullable_count + 7) / 8
}

/// The length of the null-flag field, or an error when more than 255
/// bytes would be needed.
pub fn nullable_len(nullable_count: usize) -> (r: Result<u8>)
    ensures
        match r {
            Ok(n) => null_flag_bytes(nullable_count as nat) <= 255 && n as nat == null_flag_bytes(
                nullable_count as nat,
            ),
            Err(e) => null_flag_bytes(nullable_count as nat) > 255 && e.kind()
                == ErrorKind::InvalidFieldSpec,
        },
{
    let length = nullable_count / 8 + if nullable_count % 8 != 0 { 1 } else { 0 };
    if length > 255 {
        Err(Error::InvalidFieldSpec(plain_message("too many nullable fields")))
    } else {
        Ok(length as u8)
    }
}

pub proof fn lemma_null_bit_set(b: u8, k: u8)
    requires
        k < 8,
    ensures
        (b | (1u8 << k)) & (1u8 << k) != 0,
{
    assert((b | (1u8 << k)) & (1u8 << k) != 0) by (bit_vector)
        requires
            k < 8,
    ;
}

pub proof fn lemma_null_bit_other(b: u8, k: u8, j: u8)
    requires
        k < 8,
        j < 8,
        k != j,
    ensures
        ((b | (1u8 << k)) & (1u8 << j)) == (b & (1u8 << j)),
{
    assert(((b | (1u8 << k)) & (1u8 << j)) == (b & (1u8 << j))) by (bit_vector)
        requires
            k < 8,
            j < 8,
            k != j,
    ;
}

pub proof fn lemma_null_bit_zero(j: u8)
    requires
        j < 8,
    ensures
        (0u8 & (1u8 << j)) == 0,
{
    assert((0u8 & (1u8 << j)) == 0) by (bit_vector);
}

// ---------------------------------------------------------------------------
// Header
// ---------------------------------------------------------------------------

/// The last-update date of a header, from its year (since 1900), month and day bytes.
pub open spec fn update_date(year: u8, month: u8, day: u8) -> Option<Date> {
    if year == 0 || month == 0 || day == 0 {
        None
    } else {
        Some(Date { year: (1900 + year) as u16, month, day })
    }
}

pub fn decode_update_date(year: u8, month: u8, day: u8) -> (d: Option<Date>)
    ensures
        d == update_date(year, month, day),
{
    if year == 0 || month == 0 || day == 0 {
        None
    } else {
        Some(Date { year: 1900 + year as u16, month, day })
    }
}

/// The header that the first 32 bytes of a file describe: an I/O error for
/// a shorter file, unsupported for an unknown version byte, invalid for a
/// header length under 33.
pub open spec fn header_from_bytes(b: Seq<u8>) -> core::result::Result<Header, ErrorKind> {
    if b.len() < 32 {
        Err(ErrorKind::Io)
    } else {
        match kind_for_version(b[0]) {
            None => Err(ErrorKind::Unsupported),
            Some(kind) => if le16(b, 8) < 33 {
                Err(ErrorKind::InvalidFormat)
            } else {
                Ok(
                    Header {
                        kind,
                        last_update: update_date(b[1], b[2], b[3]),
                        record_count: le32(b, 4) as u32,
                        header_length: le16(b, 8) as u16,
                        record_length: le16(b, 10) as u16,
                        code_page: CodePageMark(b[29]),
                    },
                )
            },
        }
    }
}

/// Decodes the 32-byte header at the start of a file image.
pub fn decode_header(b: &[u8]) -> (r: Result<Header>)
    ensures
        match r {
            Ok(h) => header_from_bytes(b@) == Ok::<_, ErrorKind>(h),
            Err(e) => header_from_bytes(b@) == Err::<Header, _>(e.kind()),
        },
{
    if b.len() < 32 {
        return Err(Error::Io(plain_message("failed to fill whole buffer")));
    }
    let kind = DbfKind::from_version(b[0])?;
    let update = decode_update_date(b[1], b[2], b[3]);
    let record_count = read_le32(b, 4);
    let header_length = read_le16(b, 8);
    let record_length = read_le16(b, 10);
    if header_length < 33 {
        return Err(Error::InvalidFormat(plain_message("DBF header too short")));
    }
    Ok(Header {
        kind,
        last_update: update,
        record_count,
        header_length,
        record_length,
        code_page: CodePageMark(b[29]),
    })
}

/// The year byte written for a last-update date (years before 1900 as 0,
/// later ones truncated to a byte).
pub open spec fn year_byte(d: Date) -> u8 {
    (if d.year >= 1900 { d.year - 1900 } else { 0 }) as u8
}

/// The 32 bytes of a header.
pub open spec fn header_bytes(h: Header) -> Seq<u8> {
    let date = match h.last_update {
        Some(d) => seq![year_byte(d), d.month, d.day],
        None => seq![0u8, 0u8, 0u8],
    };
    seq![version_of(h.kind)] + date + le32_bytes(h.record_count as nat) + le16_bytes(
        h.header_length as nat,
    ) + le16_bytes(h.record_length as nat) + zeros(17) + seq![h.code_page.0] + zeros(2)
}

pub fn encode_header(header: &Header) -> (raw: Vec<u8>)
    ensures
        raw@ == header_bytes(*header),
        raw@.len() == 32,
{
    let mut raw: Vec<u8> = Vec::new();
    raw.push(header.kind.version_byte());
    match header.last_update {
        Some(date) => {
            let y: u16 = date.year.saturating_sub(1900);
            #[verifier::truncate]
            let yb = y as u8;
            raw.push(yb);
            raw.push(date.month);
            raw.push(date.day);
        },
        None => {
            raw.push(0);
            raw.push(0);
            raw.push(0);
        },
    }
    push_le32(&mut raw, header.record_count);
    push_le16(&mut raw, header.header_length);
    push_le16(&mut raw, header.record_length);
    push_repeat(&mut raw, 0, 17);
    raw.push(header.code_page.0);
    push_repeat(&mut raw, 0, 2);
    proof {
        assert(raw@ =~= header_bytes(*header));
    }
    raw
}

// ---------------------------------------------------------------------------
// Field descriptors
// ---------------------------------------------------------------------------

/// The 11-byte name field of a descriptor: the UTF-8 bytes of the name,
/// cut at 11 and zero-filled.
pub open spec fn name_field(name: Seq<char>) -> Seq<u8> {
    let nb = encode_utf8(name);
    let count = if nb.len() < 11 { nb.len() } else { 11 };
    nb.take(count as int) + zeros((11 - count) as nat)
}

/// The 32 bytes of a field descriptor.
pub open spec fn descriptor_bytes(f: FieldModel) -> Seq<u8> {
    name_field(f.name) + seq![symbol_of(f.field_type)] + le32_bytes(f.offset as nat) + seq![
        f.length,
        f.decimals,
        f.flags,
    ] + zeros(13)
}

pub fn encode_field_descriptor(field: &FieldDescriptor) -> (raw: Vec<u8>)
    ensures
        raw@ == descriptor_bytes(field@),
        raw@.len() == 32,
{
    let mut raw: Vec<u8> = Vec::new();
    let name = field.name.as_str().as_bytes();
    let count = if name.len() < 11 { name.len() } else { 11 };
    let mut i: usize = 0;
    while i < count
        invariant
            i <= count <= name@.len(),
            count <= 11,
            raw@ == name@.take(i as int),
        decreases count - i,
    {
        raw.push(name[i]);
        i += 1;
        proof {
            assert(raw@ =~= name@.take(i as int));
        }
    }
    push_repeat(&mut raw, 0, 11 - count);
    raw.push(field.field_type.symbol());
    push_le32(&mut raw, field.offset as u32);
    raw.push(field.length);
    raw.push(field.decimals);
    raw.push(field.flags);
    push_repeat(&mut raw, 0, 13);
    proof {
        assert(raw@ =~= descriptor_bytes(field@));
    }
    raw
}

/// Position of the first zero byte of `s`, or its length.
pub open spec fn zero_position(s: Seq<u8>) -> nat
    decreases s.len(),
{
    if s.len() == 0 || s[0] == 0 {
        0
    } else {
        1 + zero_position(s.drop_first())
    }
}

pub proof fn lemma_zero_position(s: Seq<u8>, i: int)
    requires
        0 <= i <= s.len(),
        forall|k: int| 0 <= k < i ==> s[k] != 0,
        i < s.len() ==> s[i] == 0,
    ensures
        zero_position(s) == i,
    decreases i,
{
    if i > 0 {
        assert forall|k: int| 0 <= k < i - 1 implies s.drop_first()[k] != 0 by {
            assert(s.drop_first()[k] == s[k + 1]);
        }
        lemma_zero_position(s.drop_first(), i - 1);
    }
}

/// The field name that a raw descriptor holds: its bytes up to the first
/// zero (at most 11), read as lossy UTF-8, trimmed and upper-cased.
pub open spec fn descriptor_name(raw: Seq<u8>) -> Seq<char> {
    let name_bytes = raw.take(11);
    upper_all(trim(utf8_text(name_bytes.take(zero_position(name_bytes) as int))))
}

/// What reading the descriptors has gathered so far.
pub struct DescriptorState {
    pub fields: Seq<FieldModel>,
    pub null_flags: Option<NullFlagLayout>,
    pub nullable_count: nat,
}

/// Taking in one raw descriptor of type `t`: the null-flag field sets the
/// layout, every other field is appended, numbered among the nullable ones
/// when its flags say so.
pub open spec fn descriptor_step(st: DescriptorState, raw: Seq<u8>, t: FieldType) -> DescriptorState {
    let offset = le32(raw, 12) as u16;
    if t == FieldType::NullFlags {
        DescriptorState {
            fields: st.fields,
            null_flags: Some(NullFlagLayout { offset, length: raw[16] }),
            nullable_count: st.nullable_count,
        }
    } else {
        let nullable = flag_nullable(raw[18]);
        DescriptorState {
            fields: st.fields.push(
                FieldModel {
                    name: descriptor_name(raw),
                    field_type: t,
                    offset,
                    length: raw[16],
                    decimals: raw[17],
                    flags: raw[18],
                    nullable_index: if nullable {
                        Some(st.nullable_count as usize)
                    } else {
                        None
                    },
                },
            ),
            null_flags: st.null_flags,
            nullable_count: if nullable {
                st.nullable_count + 1
            } else {
                st.nullable_count
            },
        }
    }
}

/// Reading descriptors `k..count`, each 32 bytes from offset 32: stop at a
/// `0x0D` terminator, fail at the end of the file or at an unknown type.
pub open spec fn descriptors_from(b: Seq<u8>, k: nat, count: nat, st: DescriptorState) -> core::result::Result<
    DescriptorState,
    ErrorKind,
>
    decreases count - k,
{
    if k >= count {
        Ok(st)
    } else {
        let pos = 32 + 32 * k;
        if pos + 32 > b.len() {
            Err(ErrorKind::Io)
        } else {
            let raw = b.subrange(pos as int, pos + 32 as int);
            if raw[0] == 0x0D {
                Ok(st)
            } else {
                match type_for_byte(raw[11]) {
                    None => Err(ErrorKind::Unsupported),
                    Some(t) => descriptors_from(b, k + 1, count, descriptor_step(st, raw, t)),
                }
            }
        }
    }
}

/// Number of descriptor slots that a header length leaves room for.
pub open spec fn descriptor_count(header_length: u16) -> nat {
    ((header_length - 33) / 32) as nat
}

/// The fields and the null-flag layout that the descriptors of a file give.
pub open spec fn descriptors_of(b: Seq<u8>, h: Header) -> core::result::Result<
    DescriptorState,
    ErrorKind,
> {
    descriptors_from(
        b,
        0,
        descriptor_count(h.header_length),
        DescriptorState { fields: Seq::empty(), null_flags: None, nullable_count: 0 },
    )
}

/// The name in a raw descriptor.
fn decode_descriptor_name(raw: &[u8]) -> (name: String)
    requires
        raw@.len() == 32,
    ensures
        name@ == descriptor_name(raw@),
{
    let mut end: usize = 0;
    while end < 11 && raw[end] != 0
        invariant
            end <= 11,
            raw@.len() == 32,
            forall|k: int| 0 <= k < end ==> raw@[k] != 0,
        decreases 11 - end,
    {
        end += 1;
    }
    let ghost nb = raw@.take(11);
    proof {
        assert forall|k: int| 0 <= k < end implies nb[k] != 0 by {}
        if end < 11 {
            assert(nb[end as int] == raw@[end as int]);
        }
        lemma_zero_position(nb, end as int);
    }
    let mut bytes: Vec<u8> = Vec::new();
    let mut i: usize = 0;
    while i < end
        invariant
            i <= end <= 11,
            raw@.len() == 32,
            bytes@ == raw@.take(i as int),
        decreases end - i,
    {
        bytes.push(raw[i]);
        i += 1;
        proof {
            assert(bytes@ =~= raw@.take(i as int));
        }
    }
    proof {
        assert(bytes@ =~= nb.take(end as int));
    }
    let text = utf8_lossy(bytes.as_slice());
    let chars = chars_of(text.as_str());
    let t = trim_chars(chars.as_slice());
    let u = upper_chars(t.as_slice());
    string_from_chars(u.as_slice())
}

/// Reads the field descriptors that follow the header.
pub fn read_field_descriptors(b: &[u8], header: &Header) -> (r: Result<(Vec<FieldDescriptor>, Option<NullFlagLayout>)>)
    requires
        header.header_length >= 33,
    ensures
        match r {
            Ok((fields, layout)) => descriptors_of(b@, *header) matches Ok(st) && fields_view(
                fields@,
            ) == st.fields && layout == st.null_flags,
            Err(e) => descriptors_of(b@, *header) == Err::<DescriptorState, _>(e.kind()),
        },
{
    let count: usize = ((header.header_length - 33) / 32) as usize;
    let mut fields: Vec<FieldDescriptor> = Vec::new();
    let mut null_flags: Option<NullFlagLayout> = None;
    let mut nullable_index: usize = 0;
    let mut k: usize = 0;
    let ghost init = DescriptorState { fields: Seq::empty(), null_flags: None, nullable_count: 0 };
    proof {
        assert(fields_view(fields@) =~= Seq::<FieldModel>::empty());
    }
    while k < count
        invariant
            k <= count,
            count as nat == descriptor_count(header.header_length),
            nullable_index <= k,
            descriptors_of(b@, *header) == descriptors_from(
                b@,
                k as nat,
                count as nat,
                DescriptorState {
                    fields: fields_view(fields@),
                    null_flags,
                    nullable_count: nullable_index as nat,
                },
            ),
        ensures
            descriptors_of(b@, *header) == Ok::<_, ErrorKind>(
                DescriptorState {
                    fields: fields_view(fields@),
                    null_flags,
                    nullable_count: nullable_index as nat,
                },
            ),
        decreases count - k,
    {
        let ghost st = DescriptorState {
            fields: fields_view(fields@),
            null_flags,
            nullable_count: nullable_index as nat,
        };
        if b.len() < 32 || (b.len() - 32) / 32 < k + 1 {
            return Err(Error::Io(plain_message("failed to fill whole buffer")));
        }
        let pos = 32 + 32 * k;
        let n = b.len();
        let mut raw: Vec<u8> = Vec::new();
        let mut i: usize = 0;
        while i < 32
            invariant
                i <= 32,
                n == b@.len(),
                pos + 32 <= b@.len(),
                raw@ == b@.subrange(pos as int, pos + i),
            decreases 32 - i,
        {
            raw.push(b[pos + i]);
            i += 1;
            proof {
                assert(raw@ =~= b@.subrange(pos as int, pos + i));
            }
        }
        if raw[0] == 0x0D {
            break;
        }
        let field_type = FieldType::from_byte(raw[11])?;
        let offset = #[verifier::truncate] (read_le32(raw.as_slice(), 12) as u16);
        let length = raw[16];
        let decimals = raw[17];
        let flags = raw[18];
        if field_type == FieldType::NullFlags {
            null_flags = Some(NullFlagLayout { offset, length });
        } else {
            let nullable = flags & 0x02 != 0;
            let nullable_index_for_field = if nullable {
                let current = nullable_index;
                nullable_index += 1;
                Some(current)
            } else {
                None
            };
            let name = decode_descriptor_name(raw.as_slice());
            let ghost old_fields = fields@;
            let d = FieldDescriptor {
                name,
                field_type,
                offset,
                length,
                decimals,
                flags,
                nullable_index: nullable_index_for_field,
            };
            fields.push(d);
            proof {
                assert(fields_view(fields@) =~= fields_view(old_fields).push(d@));
            }
        }
        proof {
            assert(DescriptorState {
                fields: fields_view(fields@),
                null_flags,
                nullable_count: nullable_index as nat,
            } == descriptor_step(st, raw@, field_type));
        }
        k += 1;
    }
    Ok((fields, null_flags))
}

// ---------------------------------------------------------------------------
// Values
// ---------------------------------------------------------------------------

/// The model of an optional memo file.
pub open spec fn memo_view(memo: Option<&MemoFile>) -> Option<MemoModel> {
    match memo {
        Some(m) => Some(m@),
        None => None,
    }
}

/// The model of an optional owned memo file.
pub open spec fn memo_opt_view(memo: Option<MemoFile>) -> Option<MemoModel> {
    match memo {
        Some(m) => Some(m@),
        None => None,
    }
}

/// What a logical field's first byte (a blank when there is none) means.
pub open spec fn logical_from_byte(c: u8) -> Option<Option<bool>> {
    if c == 0x59 || c == 0x79 || c == 0x54 || c == 0x74 {
        Some(Some(true))
    } else if c == 0x4E || c == 0x6E || c == 0x46 || c == 0x66 {
        Some(Some(false))
    } else if c == 0x3F || c == 0x20 {
        Some(None)
    } else {
        None
    }
}

/// Width that a value of this type needs to be read, where it has one.
pub open spec fn binary_width(t: FieldType) -> nat {
    match t {
        FieldType::Integer => 4,
        FieldType::Double | FieldType::DateTime | FieldType::Currency => 8,
        _ => 0,
    }
}

/// The memo that a memo-pointer field refers to: the blank field is no
/// memo, otherwise the trimmed text must be a `u32` block pointer; without
/// a memo file every pointer gives no memo.
pub open spec fn memo_payload(raw: Seq<u8>, memo: Option<MemoModel>) -> core::result::Result<Seq<u8>, ErrorKind> {
    let t = trim(utf8_text(raw));
    if t.len() == 0 {
        Ok(Seq::empty())
    } else {
        match parse_unsigned(t, u32::MAX as nat) {
            None => Err(ErrorKind::InvalidFormat),
            Some(p) => match memo {
                Some(m) => memo_read(m, p as u32),
                None => Ok(Seq::empty()),
            },
        }
    }
}

/// What the bytes of one field mean.
pub open spec fn value_decode(
    f: FieldModel,
    raw: Seq<u8>,
    is_null: bool,
    memo: Option<MemoModel>,
    enc: Option<TextEncoding>,
) -> Outcome<ValueModel, ErrorKind> {
    if is_null {
        Outcome::Done(ValueModel::Null)
    } else if raw.len() < binary_width(f.field_type) {
        Outcome::Panics
    } else {
        match f.field_type {
            FieldType::Character => Outcome::Done(ValueModel::Character(trim_end(decode_text(raw, enc)))),
            FieldType::Date => match date_from_text(utf8_text(raw)) {
                Ok(d) => Outcome::Done(ValueModel::Date(d)),
                Err(k) => Outcome::Failed(k),
            },
            FieldType::Logical => match logical_from_byte(if raw.len() > 0 { raw[0] } else { 0x20 }) {
                Some(b) => Outcome::Done(ValueModel::Logical(b)),
                None => Outcome::Failed(ErrorKind::InvalidFormat),
            },
            FieldType::Numeric | FieldType::Float => {
                let t = trim(utf8_text(raw));
                if t.len() == 0 {
                    Outcome::Done(ValueModel::Null)
                } else if is_float_text(t) {
                    Outcome::Done(ValueModel::Numeric(t))
                } else {
                    Outcome::Failed(ErrorKind::InvalidFormat)
                }
            },
            FieldType::Integer => Outcome::Done(ValueModel::Integer(signed32(le32(raw, 0)) as i32)),
            FieldType::Double => Outcome::Done(ValueModel::Double(le64(raw, 0) as u64)),
            FieldType::DateTime => {
                let jd = signed32(le32(raw, 0));
                let ms = signed32(le32(raw, 4));
                if jd == 0 && ms == 0 {
                    Outcome::Done(ValueModel::DateTime(None))
                } else {
                    Outcome::Done(
                        ValueModel::DateTime(
                            Some(DateTime { julian_day: jd as i32, millis_since_midnight: ms as i32 }),
                        ),
                    )
                }
            },
            FieldType::Currency => Outcome::Done(ValueModel::Currency(signed64(le64(raw, 0)) as i64)),
            FieldType::Memo => match memo_payload(raw, memo) {
                Ok(b) => Outcome::Done(ValueModel::Memo(b)),
                Err(k) => Outcome::Failed(k),
            },
            FieldType::General | FieldType::Picture => match memo_payload(raw, memo) {
                Ok(b) => Outcome::Done(ValueModel::Binary(b)),
                Err(k) => Outcome::Failed(k),
            },
            FieldType::NullFlags => Outcome::Done(ValueModel::Binary(raw)),
        }
    }
}

/// Reads the memo that a memo-pointer field refers to.
fn read_memo_payload(raw: &[u8], memo: Option<&MemoFile>) -> (r: Result<Vec<u8>>)
    ensures
        match r {
            Ok(b) => memo_payload(raw@, memo_view(memo)) == Ok::<_, ErrorKind>(b@),
            Err(e) => memo_payload(raw@, memo_view(memo)) == Err::<Seq<u8>, _>(e.kind()),
        },
{
    let text = utf8_lossy(raw);
    let chars = chars_of(text.as_str());
    let t = trim_chars(chars.as_slice());
    if t.len() == 0 {
        return Ok(Vec::new());
    }
    match parse_unsigned_chars(t.as_slice(), 0xFFFF_FFFF) {
        None => Err(Error::InvalidFormat(plain_message("invalid memo pointer payload"))),
        Some(p) => match memo {
            Some(m) => m.read(p as u32),
            None => Ok(Vec::new()),
        },
    }
}

/// Decodes the bytes of one field.
pub fn parse_value(
    field: &FieldDescriptor,
    raw: &[u8],
    is_null: bool,
    memo: Option<&MemoFile>,
    encoding: Option<TextEncoding>,
) -> (r: Outcome<Value, Error>)
    ensures
        match r {
            Outcome::Done(v) => value_decode(field@, raw@, is_null, memo_view(memo), encoding)
                == Outcome::<ValueModel, ErrorKind>::Done(v@),
            Outcome::Failed(e) => value_decode(field@, raw@, is_null, memo_view(memo), encoding)
                == Outcome::<ValueModel, ErrorKind>::Failed(e.kind()),
            Outcome::Panics => value_decode(field@, raw@, is_null, memo_view(memo), encoding)
                is Panics,
        },
{
    if is_null {
        return Outcome::Done(Value::Null);
    }
    let width: usize = match field.field_type {
        FieldType::Integer => 4,
        FieldType::Double | FieldType::DateTime | FieldType::Currency => 8,
        _ => 0,
    };
    if raw.len() < width {
        return Outcome::Panics;
    }
    match field.field_type {
        FieldType::Character => {
            let text = decode_bytes(raw, encoding);
            let chars = chars_of(text.as_str());
            let t = trim_end_chars(chars.as_slice());
            Outcome::Done(Value::Character(string_from_chars(t.as_slice())))
        },
        FieldType::Date => {
            let text = utf8_lossy(raw);
            let chars = chars_of(text.as_str());
            match Date::parse_ymd_chars(chars.as_slice()) {
                Ok(d) => Outcome::Done(Value::Date(d)),
                Err(e) => Outcome::Failed(e),
            }
        },
        FieldType::Logical => {
            let c: u8 = if raw.len() > 0 { raw[0] } else { 0x20 };
            if c == 0x59 || c == 0x79 || c == 0x54 || c == 0x74 {
                Outcome::Done(Value::Logical(Some(true)))
            } else if c == 0x4E || c == 0x6E || c == 0x46 || c == 0x66 {
                Outcome::Done(Value::Logical(Some(false)))
            } else if c == 0x3F || c == 0x20 {
                Outcome::Done(Value::Logical(None))
            } else {
                Outcome::Failed(Error::InvalidFormat(plain_message("invalid logical value byte")))
            }
        },
        FieldType::Numeric | FieldType::Float => {
            let text = utf8_lossy(raw);
            let chars = chars_of(text.as_str());
            let t = trim_chars(chars.as_slice());
            if t.len() == 0 {
                Outcome::Done(Value::Null)
            } else if float_text_ok(t.as_slice()) {
                Outcome::Done(Value::Numeric(string_from_chars(t.as_slice())))
            } else {
                Outcome::Failed(Error::InvalidFormat(plain_message("invalid numeric payload")))
            }
        },
        FieldType::Integer => Outcome::Done(Value::Integer(read_le_i32(raw, 0))),
        FieldType::Double => Outcome::Done(Value::Double(read_le64(raw, 0))),
        FieldType::DateTime => {
            let julian_day = read_le_i32(raw, 0);
            let millis = read_le_i32(raw, 4);
            if julian_day == 0 && millis == 0 {
                Outcome::Done(Value::DateTime(None))
            } else {
                Outcome::Done(Value::DateTime(Some(DateTime::new(julian_day, millis))))
            }
        },
        FieldType::Currency => Outcome::Done(Value::Currency(read_le_i64(raw, 0))),
        FieldType::Memo => match read_memo_payload(raw, memo) {
            Ok(b) => Outcome::Done(Value::Memo(b)),
            Err(e) => Outcome::Failed(e),
        },
        FieldType::General | FieldType::Picture => match read_memo_payload(raw, memo) {
            Ok(b) => Outcome::Done(Value::Binary(b)),
            Err(e) => Outcome::Failed(e),
        },
        FieldType::NullFlags => Outcome::Done(Value::Binary(copy_bytes(raw))),
    }
}

// ---------------------------------------------------------------------------
// Records
// ---------------------------------------------------------------------------

/// Whether a field reads as null: it is numbered among the nullable fields
/// and its bit is set in the record's null flags.
pub open spec fn is_null_for(f: FieldModel, bits: Option<Seq<u8>>) -> bool {
    match (f.nullable_index, bits) {
        (Some(i), Some(b)) => null_bit(b, i as nat),
        _ => false,
    }
}

/// `prefix` put before a list that an outcome holds.
pub open spec fn prepend<T>(prefix: Seq<T>, o: Outcome<Seq<T>, ErrorKind>) -> Outcome<Seq<T>, ErrorKind> {
    match o {
        Outcome::Done(s) => Outcome::Done(prefix + s),
        Outcome::Failed(k) => Outcome::Failed(k),
        Outcome::Panics => Outcome::Panics,
    }
}

/// The values of fields `j..` of a record, in order; the first field that
/// fails or does not fit decides the outcome.
pub open spec fn values_decode(
    raw: Seq<u8>,
    fields: Seq<FieldModel>,
    j: nat,
    bits: Option<Seq<u8>>,
    memo: Option<MemoModel>,
    enc: Option<TextEncoding>,
) -> Outcome<Seq<ValueModel>, ErrorKind>
    decreases fields.len() - j,
{
    if j >= fields.len() {
        Outcome::Done(Seq::empty())
    } else {
        let f = fields[j as int];
        if f.offset + f.length > raw.len() {
            Outcome::Panics
        } else {
            match value_decode(
                f,
                raw.subrange(f.offset as int, f.offset + f.length),
                is_null_for(f, bits),
                memo,
                enc,
            ) {
                Outcome::Done(v) => prepend(seq![v], values_decode(raw, fields, j + 1, bits, memo, enc)),
                Outcome::Failed(k) => Outcome::Failed(k),
                Outcome::Panics => Outcome::Panics,
            }
        }
    }
}

/// The record that `raw` (one record's bytes) holds.
pub open spec fn record_decode(
    raw: Seq<u8>,
    fields: Seq<FieldModel>,
    layout: Option<NullFlagLayout>,
    memo: Option<MemoModel>,
    enc: Option<TextEncoding>,
) -> Outcome<RecordModel, ErrorKind> {
    if raw.len() == 0 {
        Outcome::Panics
    } else {
        match layout {
            Some(l) if l.offset + l.length > raw.len() => Outcome::Panics,
            _ => {
                let bits = match layout {
                    Some(l) => Some(raw.subrange(l.offset as int, l.offset + l.length)),
                    None => None,
                };
                match values_decode(raw, fields, 0, bits, memo, enc) {
                    Outcome::Done(vs) => Outcome::Done(RecordModel { deleted: raw[0] == 0x2A, values: vs }),
                    Outcome::Failed(k) => Outcome::Failed(k),
                    Outcome::Panics => Outcome::Panics,
                }
            },
        }
    }
}

/// Reads one record.
pub fn read_record(
    raw: &[u8],
    fields: &[FieldDescriptor],
    layout: Option<NullFlagLayout>,
    memo: Option<&MemoFile>,
    encoding: Option<TextEncoding>,
) -> (r: Outcome<Record, Error>)
    ensures
        match r {
            Outcome::Done(rec) => record_decode(raw@, fields_view(fields@), layout, memo_view(memo), encoding)
                == Outcome::<RecordModel, ErrorKind>::Done(rec@),
            Outcome::Failed(e) => record_decode(raw@, fields_view(fields@), layout, memo_view(memo), encoding)
                == Outcome::<RecordModel, ErrorKind>::Failed(e.kind()),
            Outcome::Panics => record_decode(raw@, fields_view(fields@), layout, memo_view(memo), encoding)
                is Panics,
        },
{
    if raw.len() == 0 {
        return Outcome::Panics;
    }
    let deleted = raw[0] == 0x2A;
    let mut bits: Option<Vec<u8>> = None;
    match layout {
        Some(l) => {
            if l.offset as usize + l.length as usize > raw.len() {
                return Outcome::Panics;
            }
            bits = Some(copy_slice(raw, l.offset as usize, l.offset as usize + l.length as usize));
        },
        None => {},
    }
    let ghost gbits = match layout {
        Some(l) => Some(raw@.subrange(l.offset as int, l.offset + l.length)),
        None => None::<Seq<u8>>,
    };
    let ghost fv = fields_view(fields@);
    let mut values: Vec<Value> = Vec::new();
    let mut j: usize = 0;
    proof {
        assert(values_view(values@) =~= Seq::<ValueModel>::empty());
        match values_decode(raw@, fv, 0, gbits, memo_view(memo), encoding) {
            Outcome::Done(vs) => {
                assert(Seq::<ValueModel>::empty() + vs =~= vs);
            },
            _ => {},
        }
    }
    while j < fields.len()
        invariant
            j <= fields@.len(),
            fv == fields_view(fields@),
            raw@.len() > 0,
            deleted == (raw@[0] == 0x2A),
            match layout {
                Some(l) => l.offset + l.length <= raw@.len(),
                None => true,
            },
            gbits == match layout {
                Some(l) => Some(raw@.subrange(l.offset as int, l.offset + l.length)),
                None => None::<Seq<u8>>,
            },
            match bits {
                Some(b) => gbits == Some(b@),
                None => gbits is None,
            },
            values_decode(raw@, fv, 0, gbits, memo_view(memo), encoding) == prepend(
                values_view(values@),
                values_decode(raw@, fv, j as nat, gbits, memo_view(memo), encoding),
            ),
        decreases fields.len() - j,
    {
        let f = &fields[j];
        proof {
            assert(fv[j as int] == f@);
        }
        let start = f.offset as usize;
        let end = start + f.length as usize;
        if end > raw.len() {
            return Outcome::Panics;
        }
        let is_null = match (f.nullable_index, &bits) {
            (Some(index), Some(b)) => null_bit_is_set(b.as_slice(), index),
            _ => false,
        };
        let slice = copy_slice(raw, start, end);
        let ghost before = values_view(values@);
        match parse_value(f, slice.as_slice(), is_null, memo, encoding) {
            Outcome::Done(v) => {
                values.push(v);
                proof {
                    assert(values_view(values@) =~= before + seq![v@]);
                    match values_decode(raw@, fv, (j + 1) as nat, gbits, memo_view(memo), encoding) {
                        Outcome::Done(vs) => {
                            assert(before + (seq![v@] + vs) =~= values_view(values@) + vs);
                        },
                        _ => {},
                    }
                }
            },
            Outcome::Failed(e) => {
                return Outcome::Failed(e);
            },
            Outcome::Panics => {
                return Outcome::Panics;
            },
        }
        j += 1;
    }
    proof {
        assert(values_view(values@) + Seq::<ValueModel>::empty() =~= values_view(values@));
    }
    Outcome::Done(Record::from_values(deleted, values))
}

/// The bytes of record `i`, or `None` where the file ends before it (a
/// zero-length record never ends the file).
pub open spec fn record_slice(b: Seq<u8>, start: nat, rl: nat, i: nat) -> Option<Seq<u8>> {
    let pos = start + i * rl;
    if rl == 0 {
        Some(Seq::empty())
    } else if pos + rl > b.len() {
        None
    } else {
        Some(b.subrange(pos as int, (pos + rl) as int))
    }
}

/// Records `i..count` of a file whose records start at `start`: reading
/// stops quietly at the end of the file, or at the first failure.
pub open spec fn records_decode(
    b: Seq<u8>,
    start: nat,
    rl: nat,
    count: nat,
    i: nat,
    fields: Seq<FieldModel>,
    layout: Option<NullFlagLayout>,
    memo: Option<MemoModel>,
    enc: Option<TextEncoding>,
) -> Outcome<Seq<RecordModel>, ErrorKind>
    decreases count - i,
{
    if i >= count {
        Outcome::Done(Seq::empty())
    } else {
        match record_slice(b, start, rl, i) {
            None => Outcome::Done(Seq::empty()),
            Some(raw) => match record_decode(raw, fields, layout, memo, enc) {
                Outcome::Done(r) => prepend(
                    seq![r],
                    records_decode(b, start, rl, count, i + 1, fields, layout, memo, enc),
                ),
                Outcome::Failed(k) => Outcome::Failed(k),
                Outcome::Panics => Outcome::Panics,
            },
        }
    }
}

/// The models of a list of records.
pub open spec fn records_view(v: Seq<Record>) -> Seq<RecordModel> {
    v.map_values(|r: Record| r@)
}

/// Reads the records of a file image.
pub fn read_records(
    b: &[u8],
    header: &Header,
    fields: &[FieldDescriptor],
    layout: Option<NullFlagLayout>,
    memo: Option<&MemoFile>,
    encoding: Option<TextEncoding>,
) -> (r: Outcome<Vec<Record>, Error>)
    ensures
        ({
            let spec_r = records_decode(
                b@,
                header.header_length as nat,
                header.record_length as nat,
                header.record_count as nat,
                0,
                fields_view(fields@),
                layout,
                memo_view(memo),
                encoding,
            );
            match r {
                Outcome::Done(v) => spec_r == Outcome::<Seq<RecordModel>, ErrorKind>::Done(records_view(v@)),
                Outcome::Failed(e) => spec_r == Outcome::<Seq<RecordModel>, ErrorKind>::Failed(e.kind()),
                Outcome::Panics => spec_r is Panics,
            }
        }),
{
    let start = header.header_length as u64;
    let rl = header.record_length as u64;
    let count = header.record_count;
    let blen = b.len();
    let n = blen as u64;
    assert(n <= usize::MAX);
    let ghost fv = fields_view(fields@);
    let ghost whole = records_decode(b@, start as nat, rl as nat, count as nat, 0, fv, layout, memo_view(memo), encoding);
    let mut records: Vec<Record> = Vec::new();
    let mut i: u32 = 0;
    proof {
        assert(records_view(records@) =~= Seq::<RecordModel>::empty());
        match whole {
            Outcome::Done(vs) => {
                assert(Seq::<RecordModel>::empty() + vs =~= vs);
            },
            _ => {},
        }
    }
    while i < count
        invariant
            i <= count,
            fv == fields_view(fields@),
            start == header.header_length,
            rl == header.record_length,
            count == header.record_count,
            n == b@.len(),
            n <= usize::MAX,
            whole == records_decode(b@, start as nat, rl as nat, count as nat, 0, fv, layout, memo_view(memo), encoding),
            whole == prepend(
                records_view(records@),
                records_decode(b@, start as nat, rl as nat, count as nat, i as nat, fv, layout, memo_view(memo), encoding),
            ),
            start <= 0xFFFF,
            rl <= 0xFFFF,
        ensures
            whole == Outcome::<Seq<RecordModel>, ErrorKind>::Done(records_view(records@)),
        decreases count - i,
    {
        proof {
            assert((i as u64) * rl <= 0xFFFF_FFFFu64 * 0xFFFFu64) by (nonlinear_arith)
                requires
                    i <= 0xFFFF_FFFFu32,
                    rl <= 0xFFFF,
            ;
        }
        let pos: u64 = start + (i as u64) * rl;
        let raw: Vec<u8> = if rl == 0 {
            Vec::new()
        } else if pos + rl > n {
            proof {
                assert(records_decode(b@, start as nat, rl as nat, count as nat, i as nat, fv, layout, memo_view(memo), encoding)
                    == Outcome::<Seq<RecordModel>, ErrorKind>::Done(Seq::empty()));
                assert(records_view(records@) + Seq::<RecordModel>::empty() =~= records_view(records@));
            }
            break;
        } else {
            copy_slice(b, pos as usize, (pos + rl) as usize)
        };
        proof {
            assert(record_slice(b@, start as nat, rl as nat, i as nat) == Some(raw@));
        }
        let ghost before = records_view(records@);
        match read_record(raw.as_slice(), fields, layout, memo, encoding) {
            Outcome::Done(rec) => {
                records.push(rec);
                proof {
                    assert(records_view(records@) =~= before + seq![rec@]);
                    match records_decode(b@, start as nat, rl as nat, count as nat, (i + 1) as nat, fv, layout, memo_view(memo), encoding) {
                        Outcome::Done(vs) => {
                            assert(before + (seq![rec@] + vs) =~= records_view(records@) + vs);
                        },
                        _ => {},
                    }
                }
            },
            Outcome::Failed(e) => {
                return Outcome::Failed(e);
            },
            Outcome::Panics => {
                return Outcome::Panics;
            },
        }
        i += 1;
        proof {
            if i >= count {
                assert(records_view(records@) + Seq::<RecordModel>::empty() =~= records_view(records@));
            }
        }
    }
    Outcome::Done(records)
}

// ---------------------------------------------------------------------------
// Writing values and records
// ---------------------------------------------------------------------------

/// `n` blanks.
pub open spec fn blanks(n: nat) -> Seq<u8> {
    Seq::new(n, |i: int| 0x20u8)
}

/// What a null value is written as in a nullable field.
pub open spec fn null_bytes(f: FieldModel) -> Seq<u8> {
    match f.field_type {
        FieldType::Logical => seq![0x3Fu8],
        FieldType::Integer | FieldType::Double | FieldType::DateTime | FieldType::Currency
        | FieldType::NullFlags => zeros(f.length as nat),
        _ => blanks(f.length as nat),
    }
}

pub fn blank_bytes_for_null(field: &FieldDescriptor) -> (b: Vec<u8>)
    ensures
        b@ == null_bytes(field@),
{
    let mut b: Vec<u8> = Vec::new();
    match field.field_type {
        FieldType::Logical => {
            b.push(0x3F);
            proof {
                assert(b@ =~= seq![0x3Fu8]);
            }
        },
        FieldType::Integer | FieldType::Double | FieldType::DateTime | FieldType::Currency
        | FieldType::NullFlags => {
            push_repeat(&mut b, 0, field.length as usize);
            proof {
                assert(b@ =~= zeros(field.length as nat));
            }
        },
        _ => {
            push_repeat(&mut b, 0x20, field.length as usize);
            proof {
                assert(b@ =~= blanks(field.length as nat));
            }
        },
    }
    b
}

/// `text`, right-aligned in a field of `width` with blanks.
pub open spec fn right_aligned(text: Seq<u8>, width: nat) -> Seq<u8> {
    if text.len() < width {
        blanks((width - text.len()) as nat) + text
    } else {
        text
    }
}

/// The ASCII bytes of decimal digits.
pub open spec fn ascii_bytes(s: Seq<char>) -> Seq<u8> {
    s.map_values(|c: char| c as u8)
}

/// A memo-pointer field's content: block pointer right-aligned in the field.
pub open spec fn pointer_text(block: u32, width: nat) -> Seq<u8> {
    right_aligned(ascii_bytes(decimal(block as nat)), width)
}

/// The memo content a memo-type field writes, if the value is one.
pub open spec fn memo_content(t: FieldType, v: ValueModel) -> Option<Seq<u8>> {
    match (t, v) {
        (FieldType::Memo, ValueModel::Memo(b)) => Some(b),
        (FieldType::General, ValueModel::Binary(b)) => Some(b),
        (FieldType::Picture, ValueModel::Binary(b)) => Some(b),
        _ => None,
    }
}

/// The bytes that a value takes in its field (with the memo file after any
/// memo append), or why it cannot be written.
#[verifier::opaque]
pub open spec fn value_encode(
    f: FieldModel,
    v: ValueModel,
    memo: Option<MemoModel>,
    enc: Option<TextEncoding>,
) -> Outcome<(Seq<u8>, Option<MemoModel>), ErrorKind> {
    let size = f.length as nat;
    let t = f.field_type;
    if v is Null && flag_nullable(f.flags) {
        Outcome::Done((null_bytes(f), memo))
    } else {
        match v {
            ValueModel::Character(text) if t == FieldType::Character => match encode_text(text, enc) {
                None => Outcome::Failed(ErrorKind::InvalidFormat),
                Some(bytes) => if bytes.len() > size {
                    Outcome::Failed(ErrorKind::Overflow)
                } else {
                    Outcome::Done((bytes + blanks((size - bytes.len()) as nat), memo))
                },
            },
            ValueModel::Date(Some(d)) if t == FieldType::Date => Outcome::Done(
                (encode_utf8(ymd_text(d)), memo),
            ),
            ValueModel::Date(None) if t == FieldType::Date => Outcome::Done((blanks(size), memo)),
            ValueModel::Logical(Some(true)) if t == FieldType::Logical => Outcome::Done((seq![0x54u8], memo)),
            ValueModel::Logical(Some(false)) if t == FieldType::Logical => Outcome::Done((seq![0x46u8], memo)),
            ValueModel::Logical(None) if t == FieldType::Logical => Outcome::Done((seq![0x3Fu8], memo)),
            ValueModel::Numeric(text) if t == FieldType::Numeric || t == FieldType::Float => {
                let rendered = encode_utf8(text);
                if rendered.len() > size {
                    Outcome::Failed(ErrorKind::Overflow)
                } else {
                    Outcome::Done((blanks((size - rendered.len()) as nat) + rendered, memo))
                }
            },
            ValueModel::Integer(n) if t == FieldType::Integer => Outcome::Done((le32_bytes(bits32(n as int)), memo)),
            ValueModel::Double(bits) if t == FieldType::Double => Outcome::Done((le64_bytes(bits as nat), memo)),
            ValueModel::DateTime(Some(dt)) if t == FieldType::DateTime => Outcome::Done(
                (le32_bytes(bits32(dt.julian_day as int)) + le32_bytes(bits32(dt.millis_since_midnight as int)), memo),
            ),
            ValueModel::DateTime(None) if t == FieldType::DateTime => Outcome::Done((zeros(8), memo)),
            ValueModel::Currency(n) if t == FieldType::Currency => Outcome::Done((le64_bytes(bits64(n as int)), memo)),
            ValueModel::Null if t == FieldType::Character || t == FieldType::Date || t == FieldType::Numeric
                || t == FieldType::Float || t == FieldType::Memo || t == FieldType::General || t == FieldType::Picture =>
                Outcome::Done((blanks(size), memo)),
            ValueModel::Null if t == FieldType::Logical => Outcome::Done((seq![0x3Fu8], memo)),
            ValueModel::Null if t == FieldType::DateTime => Outcome::Done((zeros(8), memo)),
            _ => match memo_content(t, v) {
                Some(bytes) => if bytes.len() == 0 {
                    Outcome::Done((blanks(size), memo))
                } else {
                    match memo {
                        None => Outcome::Failed(ErrorKind::Io),
                        Some(m) => if !can_append(m, bytes.len()) {
                            Outcome::Panics
                        } else {
                            Outcome::Done((pointer_text(m.next_free_block, size), Some(memo_appended(m, bytes))))
                        },
                    }
                },
                None => match v {
                    ValueModel::Binary(bytes) if bytes.len() == size => Outcome::Done((bytes, memo)),
                    _ => Outcome::Failed(ErrorKind::InvalidFormat),
                },
            },
        }
    }
}

/// A memo-pointer field's content for `block`.
fn render_pointer(block: u32, width: usize) -> (b: Vec<u8>)
    ensures
        b@ == pointer_text(block, width as nat),
{
    let digits = decimal_chars(block as u64);
    let mut text: Vec<u8> = Vec::new();
    let mut i: usize = 0;
    proof {
        crate::value::lemma_decimal_digits(block as nat);
    }
    while i < digits.len()
        invariant
            i <= digits@.len(),
            digits@ == decimal(block as nat),
            crate::text::all_digits(digits@),
            text@ == ascii_bytes(digits@.take(i as int)),
        decreases digits.len() - i,
    {
        let c = digits[i];
        proof {
            assert(crate::text::is_digit(digits@[i as int]));
        }
        text.push(c as u8);
        i += 1;
        proof {
            assert(text@ =~= ascii_bytes(digits@.take(i as int)));
        }
    }
    proof {
        assert(digits@.take(digits@.len() as int) =~= digits@);
    }
    if text.len() < width {
        let mut out: Vec<u8> = Vec::new();
        push_repeat(&mut out, 0x20, width - text.len());
        push_all(&mut out, text.as_slice());
        proof {
            assert(out@ =~= pointer_text(block, width as nat));
        }
        out
    } else {
        text
    }
}

/// Encodes one value for its field, appending memo content to `memo`.
/// Numeric text is written as it stands, right-aligned in the field.
pub fn encode_value(
    field: &FieldDescriptor,
    value: &Value,
    memo: &mut Option<MemoFile>,
    encoding: Option<TextEncoding>,
) -> (r: Outcome<Vec<u8>, Error>)
    ensures
        match r {
            Outcome::Done(b) => value_encode(field@, value@, memo_opt_view(*old(memo)), encoding)
                == Outcome::<(Seq<u8>, Option<MemoModel>), ErrorKind>::Done((b@, memo_opt_view(*final(memo)))),
            Outcome::Failed(e) => value_encode(field@, value@, memo_opt_view(*old(memo)), encoding)
                == Outcome::<(Seq<u8>, Option<MemoModel>), ErrorKind>::Failed(e.kind()),
            Outcome::Panics => value_encode(field@, value@, memo_opt_view(*old(memo)), encoding) is Panics,
        },
{
    reveal(value_encode);
    let size = field.length as usize;
    let t = field.field_type;
    if matches!(value, Value::Null) && field.is_nullable() {
        return Outcome::Done(blank_bytes_for_null(field));
    }
    let mut out: Vec<u8> = Vec::new();
    match value {
        Value::Character(text) if t == FieldType::Character => {
            match encode_str(text.as_str(), encoding) {
                None => Outcome::Failed(Error::InvalidFormat(plain_message("cannot encode string to field code page"))),
                Some(bytes) => {
                    if bytes.len() > size {
                        Outcome::Failed(Error::Overflow(plain_message("value exceeds field width")))
                    } else {
                        push_all(&mut out, bytes.as_slice());
                        push_repeat(&mut out, 0x20, size - bytes.len());
                        proof {
                            assert(out@ =~= bytes@ + blanks((size - bytes@.len()) as nat));
                        }
                        Outcome::Done(out)
                    }
                },
            }
        },
        Value::Date(Some(date)) if t == FieldType::Date => {
            let s = date.to_ymd_string();
            let b = s.as_str().as_bytes();
            push_all(&mut out, b);
            Outcome::Done(out)
        },
        Value::Date(None) if t == FieldType::Date => {
            push_repeat(&mut out, 0x20, size);
            proof { assert(out@ =~= blanks(size as nat)); }
            Outcome::Done(out)
        },
        Value::Logical(Some(true)) if t == FieldType::Logical => {
            out.push(0x54);
            proof { assert(out@ =~= seq![0x54u8]); }
            Outcome::Done(out)
        },
        Value::Logical(Some(false)) if t == FieldType::Logical => {
            out.push(0x46);
            proof { assert(out@ =~= seq![0x46u8]); }
            Outcome::Done(out)
        },
        Value::Logical(None) if t == FieldType::Logical => {
            out.push(0x3F);
            proof { assert(out@ =~= seq![0x3Fu8]); }
            Outcome::Done(out)
        },
        Value::Numeric(text) if t == FieldType::Numeric || t == FieldType::Float => {
            let rendered = text.as_str().as_bytes();
            if rendered.len() > size {
                Outcome::Failed(Error::Overflow(plain_message("numeric value exceeds field width")))
            } else {
                push_repeat(&mut out, 0x20, size - rendered.len());
                push_all(&mut out, rendered);
                proof {
                    assert(out@ =~= blanks((size - rendered@.len()) as nat) + rendered@);
                }
                Outcome::Done(out)
            }
        },
        Value::Integer(n) if t == FieldType::Integer => {
            push_le32(&mut out, crate::bytes::i32_bits(*n));
            proof { assert(out@ =~= le32_bytes(bits32(*n as int))); }
            Outcome::Done(out)
        },
        Value::Double(bits) if t == FieldType::Double => {
            push_le64(&mut out, *bits);
            proof { assert(out@ =~= le64_bytes(*bits as nat)); }
            Outcome::Done(out)
        },
        Value::DateTime(Some(dt)) if t == FieldType::DateTime => {
            push_le32(&mut out, crate::bytes::i32_bits(dt.julian_day));
            push_le32(&mut out, crate::bytes::i32_bits(dt.millis_since_midnight));
            proof {
                assert(out@ =~= le32_bytes(bits32(dt.julian_day as int)) + le32_bytes(bits32(dt.millis_since_midnight as int)));
            }
            Outcome::Done(out)
        },
        Value::DateTime(None) if t == FieldType::DateTime => {
            push_repeat(&mut out, 0, 8);
            proof { assert(out@ =~= zeros(8)); }
            Outcome::Done(out)
        },
        Value::Currency(n) if t == FieldType::Currency => {
            push_le64(&mut out, crate::bytes::i64_bits(*n));
            proof { assert(out@ =~= le64_bytes(bits64(*n as int))); }
            Outcome::Done(out)
        },
        Value::Null if t == FieldType::Character || t == FieldType::Date || t == FieldType::Numeric
            || t == FieldType::Float || t == FieldType::Memo || t == FieldType::General || t == FieldType::Picture => {
            push_repeat(&mut out, 0x20, size);
            proof { assert(out@ =~= blanks(size as nat)); }
            Outcome::Done(out)
        },
        Value::Null if t == FieldType::Logical => {
            out.push(0x3F);
            proof { assert(out@ =~= seq![0x3Fu8]); }
            Outcome::Done(out)
        },
        Value::Null if t == FieldType::DateTime => {
            push_repeat(&mut out, 0, 8);
            proof { assert(out@ =~= zeros(8)); }
            Outcome::Done(out)
        },
        _ => {
            let content: Option<&Vec<u8>> = match (t, value) {
                (FieldType::Memo, Value::Memo(b)) => Some(b),
                (FieldType::General, Value::Binary(b)) => Some(b),
                (FieldType::Picture, Value::Binary(b)) => Some(b),
                _ => None,
            };
            match content {
                Some(bytes) => {
                    if bytes.len() == 0 {
                        push_repeat(&mut out, 0x20, size);
                        proof { assert(out@ =~= blanks(size as nat)); }
                        Outcome::Done(out)
                    } else {
                        match memo {
                            None => Outcome::Failed(Error::Io(plain_message("missing memo file for writing"))),
                            Some(m) => {
                                let next = m.next_free_block() as u64;
                                let used = crate::memo::blocks_needed(m.format(), bytes.len());
                                if next + used > 0xFFFF_FFFF || (next + used) > (usize::MAX as u64) / 512 {
                                    return Outcome::Panics;
                                }
                                let pointer = match m.append(bytes.as_slice()) {
                                    Ok(p) => p,
                                    Err(e) => {
                                        return Outcome::Failed(e);
                                    },
                                };
                                Outcome::Done(render_pointer(pointer, size))
                            },
                        }
                    }
                },
                None => match value {
                    Value::Binary(bytes) if bytes.len() == size => Outcome::Done(copy_bytes(bytes.as_slice())),
                    _ => Outcome::Failed(Error::InvalidFormat(plain_message("value is incompatible with field"))),
                },
            }
        },
    }
}

/// `raw` with `data` written over it at `at`.
pub open spec fn put(raw: Seq<u8>, at: nat, data: Seq<u8>) -> Seq<u8> {
    raw.take(at as int) + data + raw.skip((at + data.len()) as int)
}

/// Writing one field's value into the record bytes: a null value first
/// sets its field's null bit; a value whose bytes do not exactly fill its
/// field, or a field outside the record, is where the writer panics.
pub open spec fn field_step(
    f: FieldModel,
    v: ValueModel,
    layout: Option<NullFlagLayout>,
    raw: Seq<u8>,
    memo: Option<MemoModel>,
    enc: Option<TextEncoding>,
) -> Outcome<(Seq<u8>, Option<MemoModel>), ErrorKind> {
    let raw1 = match (v, f.nullable_index, layout) {
        (ValueModel::Null, Some(bit), Some(l)) => put(
            raw,
            l.offset as nat,
            with_null_bit(raw.subrange(l.offset as int, l.offset + l.length), bit as nat),
        ),
        _ => raw,
    };
    match value_encode(f, v, memo, enc) {
        Outcome::Failed(k) => Outcome::Failed(k),
        Outcome::Panics => Outcome::Panics,
        Outcome::Done((b, memo2)) => if f.offset + f.length > raw1.len() || b.len() != f.length {
            Outcome::Panics
        } else {
            Outcome::Done((put(raw1, f.offset as nat, b), memo2))
        },
    }
}

/// The record bytes after the values of fields `j..` are written in turn
/// (with the memo file after their memo appends); values and fields are
/// paired up to the shorter list.
pub open spec fn fields_encode(
    values: Seq<ValueModel>,
    fields: Seq<FieldModel>,
    j: nat,
    layout: Option<NullFlagLayout>,
    raw: Seq<u8>,
    memo: Option<MemoModel>,
    enc: Option<TextEncoding>,
) -> Outcome<(Seq<u8>, Option<MemoModel>), ErrorKind>
    decreases values.len() - j,
{
    if j >= values.len() || j >= fields.len() {
        Outcome::Done((raw, memo))
    } else {
        match field_step(fields[j as int], values[j as int], layout, raw, memo, enc) {
            Outcome::Done((raw2, memo2)) => fields_encode(values, fields, j + 1, layout, raw2, memo2, enc),
            Outcome::Failed(k) => Outcome::Failed(k),
            Outcome::Panics => Outcome::Panics,
        }
    }
}

/// Writes one field's value into the record bytes.
fn encode_field(
    f: &FieldDescriptor,
    v: &Value,
    layout: Option<NullFlagLayout>,
    raw: &mut Vec<u8>,
    memo: &mut Option<MemoFile>,
    encoding: Option<TextEncoding>,
) -> (r: Outcome<(), Error>)
    requires
        match layout {
            Some(l) => l.offset + l.length <= old(raw)@.len(),
            None => true,
        },
    ensures
        final(raw)@.len() == old(raw)@.len(),
        match r {
            Outcome::Done(_) => field_step(f@, v@, layout, old(raw)@, memo_opt_view(*old(memo)), encoding)
                == Outcome::<(Seq<u8>, Option<MemoModel>), ErrorKind>::Done((final(raw)@, memo_opt_view(*final(memo)))),
            Outcome::Failed(e) => field_step(f@, v@, layout, old(raw)@, memo_opt_view(*old(memo)), encoding)
                == Outcome::<(Seq<u8>, Option<MemoModel>), ErrorKind>::Failed(e.kind()),
            Outcome::Panics => field_step(f@, v@, layout, old(raw)@, memo_opt_view(*old(memo)), encoding) is Panics,
        },
{
    match (v, f.nullable_index, layout) {
        (Value::Null, Some(bit), Some(l)) => {
            let start = l.offset as usize;
            let end = start + l.length as usize;
            let mut bits = copy_slice(raw.as_slice(), start, end);
            set_null_bit(&mut bits, bit);
            put_bytes(raw, start, bits.as_slice());
        },
        _ => {},
    }
    match encode_value(f, v, memo, encoding) {
        Outcome::Done(b) => {
            let start = f.offset as usize;
            if start + f.length as usize > raw.len() || b.len() != f.length as usize {
                return Outcome::Panics;
            }
            put_bytes(raw, start, b.as_slice());
            Outcome::Done(())
        },
        Outcome::Failed(e) => Outcome::Failed(e),
        Outcome::Panics => Outcome::Panics,
    }
}

/// The bytes of one record of `rl` bytes: the deletion flag, blanks, zeroed
/// null flags, then the fields.
pub open spec fn record_encode(
    rec: RecordModel,
    fields: Seq<FieldModel>,
    layout: Option<NullFlagLayout>,
    rl: nat,
    memo: Option<MemoModel>,
    enc: Option<TextEncoding>,
) -> Outcome<(Seq<u8>, Option<MemoModel>), ErrorKind> {
    if rl == 0 {
        Outcome::Panics
    } else {
        let raw0 = seq![if rec.deleted { 0x2Au8 } else { 0x20u8 }] + blanks((rl - 1) as nat);
        match layout {
            Some(l) if l.offset + l.length > rl => Outcome::Panics,
            _ => {
                let raw1 = match layout {
                    Some(l) => put(raw0, l.offset as nat, zeros(l.length as nat)),
                    None => raw0,
                };
                fields_encode(rec.values, fields, 0, layout, raw1, memo, enc)
            },
        }
    }
}

/// Writes `data` over `raw` at `at`.
fn put_bytes(raw: &mut Vec<u8>, at: usize, data: &[u8])
    requires
        at + data@.len() <= old(raw)@.len(),
    ensures
        final(raw)@ == put(old(raw)@, at as nat, data@),
{
    let n = raw.len();
    let mut i: usize = 0;
    while i < data.len()
        invariant
            i <= data@.len(),
            n == raw@.len(),
            raw@.len() == old(raw)@.len(),
            at + data@.len() <= raw@.len(),
            raw@ == old(raw)@.take(at as int) + data@.take(i as int) + old(raw)@.skip(at + i),
        decreases data.len() - i,
    {
        let ghost prev = raw@;
        raw.set(at + i, data[i]);
        i += 1;
        proof {
            let target = old(raw)@.take(at as int) + data@.take(i as int) + old(raw)@.skip(at + i);
            assert(target.len() == raw@.len());
            assert forall|k: int| 0 <= k < raw@.len() implies raw@[k] == target[k] by {
                if k < at {
                    assert(raw@[k] == prev[k]);
                } else if k < at + i - 1 {
                    assert(raw@[k] == prev[k]);
                } else if k == at + i - 1 {
                } else {
                    assert(raw@[k] == prev[k]);
                }
            }
            assert(raw@ =~= target);
        }
    }
    proof {
        assert(data@.take(data@.len() as int) =~= data@);
    }
}

/// Encodes one record, appending memo content to `memo`.
pub fn encode_record(
    record: &Record,
    fields: &[FieldDescriptor],
    layout: Option<NullFlagLayout>,
    record_length: usize,
    memo: &mut Option<MemoFile>,
    encoding: Option<TextEncoding>,
) -> (r: Outcome<Vec<u8>, Error>)
    ensures
        match r {
            Outcome::Done(b) => record_encode(record@, fields_view(fields@), layout, record_length as nat, memo_opt_view(*old(memo)), encoding)
                == Outcome::<(Seq<u8>, Option<MemoModel>), ErrorKind>::Done((b@, memo_opt_view(*final(memo)))),
            Outcome::Failed(e) => record_encode(record@, fields_view(fields@), layout, record_length as nat, memo_opt_view(*old(memo)), encoding)
                == Outcome::<(Seq<u8>, Option<MemoModel>), ErrorKind>::Failed(e.kind()),
            Outcome::Panics => record_encode(record@, fields_view(fields@), layout, record_length as nat, memo_opt_view(*old(memo)), encoding) is Panics,
        },
{
    if record_length == 0 {
        return Outcome::Panics;
    }
    let mut raw: Vec<u8> = Vec::new();
    raw.push(if record.is_deleted() { 0x2A } else { 0x20 });
    push_repeat(&mut raw, 0x20, record_length - 1);
    proof {
        assert(raw@ =~= seq![if record@.deleted { 0x2Au8 } else { 0x20u8 }] + blanks((record_length - 1) as nat));
    }
    match layout {
        Some(l) => {
            if l.offset as usize + l.length as usize > record_length {
                return Outcome::Panics;
            }
            let mut z: Vec<u8> = Vec::new();
            push_repeat(&mut z, 0, l.length as usize);
            proof {
                assert(z@ =~= zeros(l.length as nat));
            }
            put_bytes(&mut raw, l.offset as usize, z.as_slice());
        },
        None => {},
    }
    let values = record.values();
    let ghost vv = values_view(values@);
    let ghost fv = fields_view(fields@);
    let ghost m0 = memo_opt_view(*old(memo));
    let ghost whole = record_encode(record@, fv, layout, record_length as nat, m0, encoding);
    let mut j: usize = 0;
    proof {
        assert(vv == record@.values);
    }
    while j < values.len() && j < fields.len()
        invariant
            j <= values@.len(),
            vv == values_view(values@),
            fv == fields_view(fields@),
            raw@.len() == record_length,
            match layout {
                Some(l) => l.offset + l.length <= record_length,
                None => true,
            },
            whole == fields_encode(vv, fv, j as nat, layout, raw@, memo_opt_view(*memo), encoding),
            whole == record_encode(record@, fv, layout, record_length as nat, m0, encoding),
            m0 == memo_opt_view(*old(memo)),
            vv == record@.values,
        decreases values.len() - j,
    {
        let f = &fields[j];
        let v = &values[j];
        proof {
            assert(fv[j as int] == f@);
            assert(vv[j as int] == v@);
        }
        match encode_field(f, v, layout, &mut raw, memo, encoding) {
            Outcome::Done(_) => {},
            Outcome::Failed(e) => {
                return Outcome::Failed(e);
            },
            Outcome::Panics => {
                return Outcome::Panics;
            },
        }
        j += 1;
    }
    Outcome::Done(raw)
}

/// A copy of `b[from..to]`.
pub fn copy_slice(b: &[u8], from: usize, to: usize) -> (r: Vec<u8>)
    requires
        from <= to <= b@.len(),
    ensures
        r@ == b@.subrange(from as int, to as int),
{
    let mut r: Vec<u8> = Vec::new();
    let mut i = from;
    while i < to
        invariant
            from <= i <= to <= b@.len(),
            r@ == b@.subrange(from as int, i as int),
        decreases to - i,
    {
        r.push(b[i]);
        i += 1;
        proof {
            assert(r@ =~= b@.subrange(from as int, i as int));
        }
    }
    r
}

} // verus!
