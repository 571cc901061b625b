//! Field specifications such as `"name C(25); age N(3,0) null"`.

use vstd::prelude::*;
use crate::error::{Error, ErrorKind, Result, plain_message, quoted_message};
use crate::header::{
    FieldDescriptor, FieldModel, FieldType, FIELD_FLAG_BINARY, FIELD_FLAG_NULLABLE, fixed_length_of,
    flag_binary, flag_nullable, type_for_byte,
};
use crate::text::{
    chars_are, chars_of, lower_all, lower_chars, parse_unsigned,
    parse_unsigned_chars, split_chars, split_on, split_words, string_from_chars, sub_chars, trim,
    trim_chars, upper, upper_all, upper_chars, utf8_len, char_utf8_len, words,
};

verus! {

/// The name of a field.
pub type FieldName = String;

/// One field as a specification string describes it.
#[derive(Debug, Clone, PartialEq, Eq)]
pub struct FieldSpec {
    pub name: FieldName,
    pub field_type: FieldType,
    pub length: u8,
    pub decimals: u8,
    pub nullable: bool,
    pub binary: bool,
}

/// The model of a [`FieldSpec`].
pub struct FieldSpecModel {
    pub name: Seq<char>,
    pub field_type: FieldType,
    pub length: u8,
    pub decimals: u8,
    pub nullable: bool,
    pub binary: bool,
}

impl View for FieldSpec {
    type V = FieldSpecModel;

    open spec fn view(&self) -> FieldSpecModel {
        FieldSpecModel {
            name: self.name@,
            field_type: self.field_type,
            length: self.length,
            decimals: self.decimals,
            nullable: self.nullable,
            binary: self.binary,
        }
    }
}

/// The descriptor flags of a field that is nullable and/or binary.
pub open spec fn spec_flags(nullable: bool, binary: bool) -> u8 {
    ((if nullable { FIELD_FLAG_NULLABLE } else { 0u8 }) + (if binary { FIELD_FLAG_BINARY } else { 0u8 })) as u8
}

/// The flags of a specification read back as its nullability and binariness.
pub proof fn lemma_spec_flags(nullable: bool, binary: bool)
    ensures
        flag_nullable(spec_flags(nullable, binary)) == nullable,
        flag_binary(spec_flags(nullable, binary)) == binary,
{
    assert(flag_nullable(0u8) == false && flag_binary(0u8) == false) by (bit_vector);
    assert(flag_nullable(2u8) == true && flag_binary(2u8) == false) by (bit_vector);
    assert(flag_nullable(4u8) == false && flag_binary(4u8) == true) by (bit_vector);
    assert(flag_nullable(6u8) == true && flag_binary(6u8) == true) by (bit_vector);
}

/// The models of a list of specifications.
pub open spec fn specs_view(v: Seq<FieldSpec>) -> Seq<FieldSpecModel> {
    v.map_values(|f: FieldSpec| f@)
}

/// A character allowed in field names: ASCII letter, digit or underscore.
pub open spec fn name_char(c: char) -> bool {
    ('a' <= c && c <= 'z') || ('A' <= c && c <= 'Z') || ('0' <= c && c <= '9') || c == '_'
}

/// What [`normalize_name`] makes of a field name: trimmed, at most 11
/// bytes, only name characters, upper-cased.
pub open spec fn name_from_text(name: Seq<char>) -> core::result::Result<Seq<char>, ErrorKind> {
    let t = trim(name);
    if t.len() == 0 {
        Err(ErrorKind::InvalidFieldSpec)
    } else if utf8_len(t) > 11 {
        Err(ErrorKind::InvalidFieldSpec)
    } else if !(forall|i: int| 0 <= i < t.len() ==> name_char(#[trigger] t[i])) {
        Err(ErrorKind::InvalidFieldSpec)
    } else {
        Ok(upper_all(t))
    }
}

/// Width and decimal count a type gets when its specification gives none.
pub open spec fn default_dimensions(t: FieldType) -> u8 {
    match fixed_length_of(t) {
        Some(n) => n,
        None => if t == FieldType::Character {
            1
        } else if t == FieldType::Numeric || t == FieldType::Float {
            18
        } else {
            0
        },
    }
}

/// The field type that the first character of a type part names: its
/// ASCII upper case as a type byte (a non-ASCII character names none).
pub open spec fn type_of_code(c: char) -> Option<FieldType> {
    if (c as u32) < 128 {
        type_for_byte(upper(c) as u8)
    } else {
        None
    }
}

/// What the `(length[,decimals])` part of a type gives, over the default
/// length: the two numbers, or the kind of error.
pub open spec fn dimensions_from_text(dims: Seq<char>, default_length: u8) -> core::result::Result<
    (u8, u8),
    ErrorKind,
> {
    if dims.len() == 0 {
        Ok((default_length, 0u8))
    } else if !(dims[0] == '(' && dims.last() == ')' && dims.len() >= 2) {
        Err(ErrorKind::InvalidFieldSpec)
    } else {
        let items = split_on(dims.subrange(1, dims.len() - 1), ',');
        match parse_unsigned(trim(items[0]), 255) {
            None => Err(ErrorKind::InvalidFieldSpec),
            Some(length) => {
                let dec = if items.len() >= 2 && trim(items[1]).len() > 0 {
                    parse_unsigned(trim(items[1]), 255)
                } else {
                    Some(0nat)
                };
                match dec {
                    None => Err(ErrorKind::InvalidFieldSpec),
                    Some(decimals) => if items.len() >= 3 {
                        Err(ErrorKind::InvalidFieldSpec)
                    } else {
                        Ok((length as u8, decimals as u8))
                    },
                }
            },
        }
    }
}

/// What [`parse_type_part`] makes of a type part such as `N(10,2)`.
pub open spec fn type_from_text(raw: Seq<char>) -> core::result::Result<
    (FieldType, u8, u8),
    ErrorKind,
> {
    let r = trim(raw);
    if r.len() == 0 {
        Err(ErrorKind::InvalidFieldSpec)
    } else {
        match type_of_code(r[0]) {
            None => Err(ErrorKind::Unsupported),
            Some(t) => match dimensions_from_text(trim(r.drop_first()), default_dimensions(t)) {
                Err(e) => Err(e),
                Ok((length, decimals)) => if length == 0 {
                    Err(ErrorKind::InvalidFieldSpec)
                } else {
                    Ok((t, length, decimals))
                },
            },
        }
    }
}

/// A modifier that marks a field nullable.
pub open spec fn nullable_word(w: Seq<char>) -> bool {
    lower_all(w) == "null"@ || lower_all(w) == "nullable"@
}

/// A modifier that marks a field binary.
pub open spec fn binary_word(w: Seq<char>) -> bool {
    lower_all(w) == "binary"@
}

/// A modifier that a specification accepts after its type.
pub open spec fn modifier_word(w: Seq<char>) -> bool {
    nullable_word(w) || binary_word(w)
}

/// What [`FieldSpec::parse_one`] makes of one specification.
pub open spec fn spec_from_text(raw: Seq<char>) -> core::result::Result<FieldSpecModel, ErrorKind> {
    let ws = words(raw);
    if ws.len() == 0 {
        Err(ErrorKind::InvalidFieldSpec)
    } else if ws.len() == 1 {
        Err(ErrorKind::InvalidFieldSpec)
    } else if !(forall|i: int| 2 <= i < ws.len() ==> modifier_word(#[trigger] ws[i])) {
        Err(ErrorKind::InvalidFieldSpec)
    } else {
        match name_from_text(ws[0]) {
            Err(e) => Err(e),
            Ok(name) => match type_from_text(ws[1]) {
                Err(e) => Err(e),
                Ok((t, length, decimals)) => Ok(
                    FieldSpecModel {
                        name,
                        field_type: t,
                        length,
                        decimals,
                        nullable: exists|i: int| 2 <= i < ws.len() && nullable_word(#[trigger] ws[i]),
                        binary: exists|i: int| 2 <= i < ws.len() && binary_word(#[trigger] ws[i]),
                    },
                ),
            },
        }
    }
}

/// What [`FieldSpec::parse_many`] makes of the pieces of a specification
/// list: blank pieces are skipped, the first invalid one decides the error.
pub open spec fn specs_from_pieces(pieces: Seq<Seq<char>>) -> core::result::Result<
    Seq<FieldSpecModel>,
    ErrorKind,
>
    decreases pieces.len(),
{
    if pieces.len() == 0 {
        Ok(Seq::empty())
    } else {
        let t = trim(pieces[0]);
        if t.len() == 0 {
            specs_from_pieces(pieces.drop_first())
        } else {
            match spec_from_text(t) {
                Err(e) => Err(e),
                Ok(f) => match specs_from_pieces(pieces.drop_first()) {
                    Err(e) => Err(e),
                    Ok(rest) => Ok(seq![f] + rest),
                },
            }
        }
    }
}

/// What [`FieldSpec::parse_many`] makes of a `;`-separated list.
pub open spec fn specs_from_text(s: Seq<char>) -> core::result::Result<
    Seq<FieldSpecModel>,
    ErrorKind,
> {
    specs_from_pieces(split_on(s, ';'))
}

/// The descriptor that a specification gives at `offset`.
pub open spec fn descriptor_of(s: FieldSpecModel, offset: u16) -> FieldModel {
    FieldModel {
        name: s.name,
        field_type: s.field_type,
        offset,
        length: s.length,
        decimals: s.decimals,
        flags: spec_flags(s.nullable, s.binary),
        nullable_index: None,
    }
}

impl FieldSpec {
    /// Parses a `;`-separated list of field specifications.
    pub fn parse_many(specs: &str) -> (r: Result<Vec<FieldSpec>>)
        ensures
            match r {
                Ok(v) => specs_from_text(specs@) == Ok::<_, ErrorKind>(specs_view(v@)),
                Err(e) => specs_from_text(specs@) == Err::<Seq<FieldSpecModel>, _>(e.kind()),
            },
    {
        let chars = chars_of(specs);
        let pieces = split_chars(chars.as_slice(), ';');
        let ghost all = pieces.deep_view();
        let mut out: Vec<FieldSpec> = Vec::new();
        let mut i: usize = 0;
        proof {
            assert(all.skip(0) =~= all);
            assert(specs_view(out@) =~= Seq::<FieldSpecModel>::empty());
            match specs_from_pieces(all) {
                Err(e) => {},
                Ok(r2) => {
                    assert(specs_view(out@) + r2 =~= r2);
                },
            }
        }
        while i < pieces.len()
            invariant
                i <= pieces@.len(),
                all == pieces.deep_view(),
                all == split_on(chars@, ';'),
                chars@ == specs@,
                specs_from_pieces(all) == match specs_from_pieces(all.skip(i as int)) {
                    Err(e) => Err(e),
                    Ok(rest) => Ok(specs_view(out@) + rest),
                },
            decreases pieces.len() - i,
        {
            let ghost rest = all.skip(i as int);
            proof {
                assert(rest[0] == all[i as int]);
                assert(rest.drop_first() =~= all.skip(i + 1));
                assert(pieces@[i as int]@ == all[i as int]);
            }
            let t = trim_chars(pieces[i].as_slice());
            if t.len() > 0 {
                let s = string_from_chars(t.as_slice());
                match FieldSpec::parse_one(s.as_str()) {
                    Err(e) => {
                        return Err(e);
                    },
                    Ok(f) => {
                        let ghost before = specs_view(out@);
                        out.push(f);
                        proof {
                            assert(specs_view(out@) =~= before + seq![f@]);
                            match specs_from_pieces(all.skip(i + 1)) {
                                Err(e) => {},
                                Ok(r2) => {
                                    assert(before + (seq![f@] + r2) =~= specs_view(out@) + r2);
                                },
                            }
                        }
                    },
                }
            }
            i += 1;
        }
        proof {
            assert(all.skip(i as int).len() == 0);
            assert(specs_view(out@) + Seq::<FieldSpecModel>::empty() =~= specs_view(out@));
        }
        Ok(out)
    }

    /// Parses one field specification: a name, a type part and optional
    /// `null`/`nullable` and `binary` modifiers (in any case).
    pub fn parse_one(raw: &str) -> (r: Result<FieldSpec>)
        ensures
            match r {
                Ok(f) => spec_from_text(raw@) == Ok::<_, ErrorKind>(f@),
                Err(e) => spec_from_text(raw@) == Err::<FieldSpecModel, _>(e.kind()),
            },
    {
        let chars = chars_of(raw);
        let ws = split_words(chars.as_slice());
        let ghost wv = ws.deep_view();
        proof {
            if ws@.len() > 0 {
                assert(ws@[0]@ == wv[0]);
            }
            if ws@.len() > 1 {
                assert(ws@[1]@ == wv[1]);
            }
        }
        if ws.len() == 0 {
            return Err(Error::InvalidFieldSpec(quoted_message("missing field name in ", chars.as_slice(), "")));
        }
        if ws.len() == 1 {
            return Err(Error::InvalidFieldSpec(quoted_message("missing field type in ", chars.as_slice(), "")));
        }
        let mut k: usize = 2;
        let mut nullable = false;
        let mut binary = false;
        while k < ws.len()
            invariant
                2 <= k <= ws@.len(),
                wv == ws.deep_view(),
                wv == words(raw@),
                forall|q: int| 2 <= q < k ==> modifier_word(#[trigger] wv[q]),
                nullable == exists|q: int| 2 <= q < k && nullable_word(#[trigger] wv[q]),
                binary == exists|q: int| 2 <= q < k && binary_word(#[trigger] wv[q]),
            decreases ws.len() - k,
        {
            proof {
                assert(ws@[k as int]@ == wv[k as int]);
            }
            let l = lower_chars(ws[k].as_slice());
            let is_null = chars_are(l.as_slice(), "null") || chars_are(l.as_slice(), "nullable");
            let is_binary = chars_are(l.as_slice(), "binary");
            if !(is_null || is_binary) {
                proof {
                    assert(!modifier_word(wv[k as int]));
                    assert(!(forall|q: int| 2 <= q < wv.len() ==> modifier_word(#[trigger] wv[q])));
                }
                return Err(Error::InvalidFieldSpec(quoted_message("unsupported field modifier ", ws[k].as_slice(), "")));
            }
            proof {
                assert(is_null == nullable_word(wv[k as int]));
                assert(is_binary == binary_word(wv[k as int]));
            }
            nullable = nullable || is_null;
            binary = binary || is_binary;
            k += 1;
        }
        let name = normalize_name(ws[0].as_slice())?;
        let (field_type, length, decimals) = parse_type_part(ws[1].as_slice())?;
        Ok(FieldSpec { name, field_type, length, decimals, nullable, binary })
    }

    /// The descriptor for this field at `offset` within the record.
    pub fn to_descriptor(&self, offset: u16) -> (d: FieldDescriptor)
        ensures
            d@ == descriptor_of(self@, offset),
    {
        FieldDescriptor {
            name: self.name.clone(),
            field_type: self.field_type,
            offset,
            length: self.length,
            decimals: self.decimals,
            flags: flags_for(self.nullable, self.binary),
            nullable_index: None,
        }
    }

    /// A copy of this specification.
    pub fn duplicate(&self) -> (s: FieldSpec)
        ensures
            s@ == self@,
    {
        FieldSpec {
            name: self.name.clone(),
            field_type: self.field_type,
            length: self.length,
            decimals: self.decimals,
            nullable: self.nullable,
            binary: self.binary,
        }
    }
}

/// The descriptor flags of a field that is nullable and/or binary.
pub fn flags_for(nullable: bool, binary: bool) -> (f: u8)
    ensures
        f == spec_flags(nullable, binary),
{
    (if nullable { FIELD_FLAG_NULLABLE } else { 0u8 }) + (if binary { FIELD_FLAG_BINARY } else { 0u8 })
}

/// Checks and upper-cases a field name.
fn normalize_name(name: &[char]) -> (r: Result<String>)
    ensures
        match r {
            Ok(s) => name_from_text(name@) == Ok::<_, ErrorKind>(s@),
            Err(e) => name_from_text(name@) == Err::<Seq<char>, _>(e.kind()),
        },
{
    let t = trim_chars(name);
    if t.len() == 0 {
        return Err(Error::InvalidFieldSpec(plain_message("field name cannot be empty")));
    }
    let mut bytes: usize = 0;
    let mut i: usize = 0;
    while i < t.len()
        invariant
            i <= t@.len(),
            t@ == trim(name@),
            t@.len() > 0,
            bytes as nat == utf8_len(t@.take(i as int)),
            bytes <= 11,
        decreases t.len() - i,
    {
        let u = t[i] as u32;
        let w: usize = if u < 0x80 {
            1
        } else if u < 0x800 {
            2
        } else if u < 0x10000 {
            3
        } else {
            4
        };
        proof {
            assert(t@.take(i + 1).drop_last() =~= t@.take(i as int));
        }
        proof {
            assert(w as nat == char_utf8_len(t@[i as int]));
            assert(utf8_len(t@.take(i + 1)) == utf8_len(t@.take(i as int)) + char_utf8_len(t@[i as int]));
        }
        if bytes + w > 11 {
            proof {
                lemma_utf8_len_prefix(t@, i + 1);
            }
            return Err(Error::InvalidFieldSpec(quoted_message("field name ", t.as_slice(), " exceeds DBF 11-byte limit")));
        }
        bytes = bytes + w;
        i += 1;
    }
    proof {
        assert(t@.take(t@.len() as int) =~= t@);
    }
    let mut j: usize = 0;
    while j < t.len()
        invariant
            j <= t@.len(),
            t@ == trim(name@),
            t@.len() > 0,
            utf8_len(t@) <= 11,
            forall|q: int| 0 <= q < j ==> name_char(#[trigger] t@[q]),
        decreases t.len() - j,
    {
        let c = t[j];
        if !(('a' <= c && c <= 'z') || ('A' <= c && c <= 'Z') || ('0' <= c && c <= '9') || c == '_') {
            proof {
                assert(!name_char(t@[j as int]));
            }
            return Err(Error::InvalidFieldSpec(quoted_message("field name ", t.as_slice(), " contains unsupported characters")));
        }
        j += 1;
    }
    let u = upper_chars(t.as_slice());
    Ok(string_from_chars(u.as_slice()))
}

pub proof fn lemma_utf8_len_prefix(s: Seq<char>, i: int)
    requires
        0 <= i <= s.len(),
    ensures
        utf8_len(s.take(i)) <= utf8_len(s),
    decreases s.len(),
{
    if i < s.len() {
        assert(s.drop_last().take(i) =~= s.take(i));
        lemma_utf8_len_prefix(s.drop_last(), i);
    } else {
        assert(s.take(i) =~= s);
    }
}

/// Parses a type part such as `C(25)`, `N(10,2)` or `D`.
fn parse_type_part(raw: &[char]) -> (r: Result<(FieldType, u8, u8)>)
    ensures
        match r {
            Ok(x) => type_from_text(raw@) == Ok::<_, ErrorKind>(x),
            Err(e) => type_from_text(raw@) == Err::<(FieldType, u8, u8), _>(e.kind()),
        },
{
    let r = trim_chars(raw);
    if r.len() == 0 {
        return Err(Error::InvalidFieldSpec(plain_message("field type cannot be empty")));
    }
    let c = r[0];
    let code = c as u32;
    if code >= 128 {
        return Err(Error::Unsupported(plain_message("unsupported field type byte")));
    }
    let b = c as u8;
    proof {
        assert(b as u32 == code);
    }
    let ub: u8 = if 0x61 <= b && b <= 0x7A { b - 32 } else { b };
    proof {
        assert(ub == upper(c) as u8);
    }
    let field_type = FieldType::from_byte(ub)?;
    let rest = sub_chars(r.as_slice(), 1, r.len());
    proof {
        assert(rest@ =~= r@.drop_first());
    }
    let dims = trim_chars(rest.as_slice());
    let default_length: u8 = match field_type.fixed_length() {
        Some(n) => n,
        None => match field_type {
            FieldType::Character => 1,
            FieldType::Numeric | FieldType::Float => 18,
            _ => 0,
        },
    };
    let (length, decimals) = parse_dimensions(dims.as_slice(), default_length, r.as_slice())?;
    if length == 0 {
        return Err(Error::InvalidFieldSpec(quoted_message("field length must be greater than zero in ", r.as_slice(), "")));
    }
    Ok((field_type, length, decimals))
}

/// Parses the `(length[,decimals])` part of a type.
fn parse_dimensions(dims: &[char], default_length: u8, raw: &[char]) -> (r: Result<(u8, u8)>)
    ensures
        match r {
            Ok(x) => dimensions_from_text(dims@, default_length) == Ok::<_, ErrorKind>(x),
            Err(e) => dimensions_from_text(dims@, default_length) == Err::<(u8, u8), _>(e.kind()),
        },
{
    if dims.len() == 0 {
        return Ok((default_length, 0));
    }
    if !(dims[0] == '(' && dims[dims.len() - 1] == ')' && dims.len() >= 2) {
        return Err(Error::InvalidFieldSpec(quoted_message("invalid field size syntax in ", raw, "")));
    }
    let inner = sub_chars(dims, 1, dims.len() - 1);
    let items = split_chars(inner.as_slice(), ',');
    let ghost iv = items.deep_view();
    proof {
        assert(iv.len() >= 1) by {
            crate::text::lemma_split_nonempty(inner@, ',');
        }
        assert(items@[0]@ == iv[0]);
        if iv.len() >= 2 {
            assert(items@[1]@ == iv[1]);
        }
    }
    let first = trim_chars(items[0].as_slice());
    let length = match parse_unsigned_chars(first.as_slice(), 255) {
        Some(n) => n as u8,
        None => {
            return Err(Error::InvalidFieldSpec(quoted_message("invalid field length in ", raw, "")));
        },
    };
    let mut decimals: u8 = 0;
    if items.len() >= 2 {
        let second = trim_chars(items[1].as_slice());
        if second.len() > 0 {
            decimals = match parse_unsigned_chars(second.as_slice(), 255) {
                Some(n) => n as u8,
                None => {
                    return Err(Error::InvalidFieldSpec(quoted_message("invalid decimal count in ", raw, "")));
                },
            };
        }
    }
    if items.len() >= 3 {
        return Err(Error::InvalidFieldSpec(quoted_message("too many numeric modifiers in ", raw, "")));
    }
    Ok((length, decimals))
}

} // verus!
