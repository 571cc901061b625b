//! Table kinds, field types, field descriptors and the table header.

use vstd::prelude::*;
use crate::error::{Error, ErrorKind, Result, plain_message};
use crate::value::{Date, Value, ValueModel};
use crate::text::string_from_chars;

verus! {

/// Flag bit of a field descriptor: the field may hold null (Visual FoxPro).
pub const FIELD_FLAG_NULLABLE: u8 = 0x02;

/// Flag bit of a field descriptor: the field holds binary data.
pub const FIELD_FLAG_BINARY: u8 = 0x04;

/// Visual FoxPro tables reserve 263 zero bytes after the header terminator
/// for the DBC (database container) backlink path, counted in the header
/// length. Other tables have none.
pub const VFP_BACKLINK_SIZE: u16 = 263;

/// The table flavour, from the version byte at offset 0 of the header.
#[derive(Debug, Clone, Copy, PartialEq, Eq, Structural)]
pub enum DbfKind {
    DBase3,
    DBase3WithMemo,
    FoxPro2WithMemo,
    VisualFoxPro,
    VisualFoxProAutoIncrement,
    VisualFoxProVar,
    DBase4WithMemo,
}

/// The version byte that identifies each kind.
pub open spec fn version_of(kind: DbfKind) -> u8 {
    match kind {
        DbfKind::DBase3 => 0x03,
        DbfKind::DBase3WithMemo => 0x83,
        DbfKind::FoxPro2WithMemo => 0xF5,
        DbfKind::VisualFoxPro => 0x30,
        DbfKind::VisualFoxProAutoIncrement => 0x31,
        DbfKind::VisualFoxProVar => 0x32,
        DbfKind::DBase4WithMemo => 0x8B,
    }
}

/// The kind that a version byte identifies, if any.
pub open spec fn kind_for_version(version: u8) -> Option<DbfKind> {
    if version == 0x03 {
        Some(DbfKind::DBase3)
    } else if version == 0x83 {
        Some(DbfKind::DBase3WithMemo)
    } else if version == 0xF5 {
        Some(DbfKind::FoxPro2WithMemo)
    } else if version == 0x30 {
        Some(DbfKind::VisualFoxPro)
    } else if version == 0x31 {
        Some(DbfKind::VisualFoxProAutoIncrement)
    } else if version == 0x32 {
        Some(DbfKind::VisualFoxProVar)
    } else if version == 0x8B {
        Some(DbfKind::DBase4WithMemo)
    } else {
        None
    }
}

/// Each kind's version byte reads back as that kind.
pub proof fn law_version_round_trip(kind: DbfKind)
    ensures
        kind_for_version(version_of(kind)) == Some(kind),
{
}

/// The bytes of the backlink area that a table of `kind` reserves after
/// its header terminator.
pub open spec fn backlink_of(kind: DbfKind) -> nat {
    if kind_is_vfp(kind) {
        263
    } else {
        0
    }
}

/// The Visual FoxPro variants.
pub open spec fn kind_is_vfp(kind: DbfKind) -> bool {
    kind == DbfKind::VisualFoxPro || kind == DbfKind::VisualFoxProAutoIncrement || kind
        == DbfKind::VisualFoxProVar
}

impl DbfKind {
    /// The kind for a header's version byte; unknown bytes are unsupported.
    pub fn from_version(version: u8) -> (r: Result<DbfKind>)
        ensures
            match r {
                Ok(k) => kind_for_version(version) == Some(k),
                Err(e) => kind_for_version(version) is None && e.kind() == ErrorKind::Unsupported,
            },
    {
        match version {
            0x03 => Ok(DbfKind::DBase3),
            0x83 => Ok(DbfKind::DBase3WithMemo),
            0xF5 => Ok(DbfKind::FoxPro2WithMemo),
            0x30 => Ok(DbfKind::VisualFoxPro),
            0x31 => Ok(DbfKind::VisualFoxProAutoIncrement),
            0x32 => Ok(DbfKind::VisualFoxProVar),
            0x8B => Ok(DbfKind::DBase4WithMemo),
            _ => Err(Error::Unsupported(plain_message("unsupported DBF version byte"))),
        }
    }

    pub fn version_byte(self) -> (b: u8)
        ensures
            b == version_of(self),
    {
        match self {
            DbfKind::DBase3 => 0x03,
            DbfKind::DBase3WithMemo => 0x83,
            DbfKind::FoxPro2WithMemo => 0xF5,
            DbfKind::VisualFoxPro => 0x30,
            DbfKind::VisualFoxProAutoIncrement => 0x31,
            DbfKind::VisualFoxProVar => 0x32,
            DbfKind::DBase4WithMemo => 0x8B,
        }
    }

    /// Returns `true` for Visual FoxPro table variants.
    pub fn is_vfp(self) -> (b: bool)
        ensures
            b == kind_is_vfp(self),
    {
        match self {
            DbfKind::VisualFoxPro | DbfKind::VisualFoxProAutoIncrement
            | DbfKind::VisualFoxProVar => true,
            _ => false,
        }
    }

    /// Extra bytes written between the header terminator and the first record.
    pub fn backlink_size(self) -> (n: u16)
        ensures
            n == if kind_is_vfp(self) { VFP_BACKLINK_SIZE } else { 0 },
            n == backlink_of(self),
    {
        if self.is_vfp() {
            VFP_BACKLINK_SIZE
        } else {
            0
        }
    }
}

/// The code-page mark byte at header offset 29.
#[derive(Debug, Clone, Copy, PartialEq, Eq, Structural)]
pub struct CodePageMark(pub u8);

/// The type of a field, from the type byte of its descriptor.
#[derive(Debug, Clone, Copy, PartialEq, Eq, Structural)]
pub enum FieldType {
    NullFlags,
    Character,
    Date,
    Logical,
    Memo,
    Numeric,
    Float,
    Integer,
    Double,
    DateTime,
    Currency,
    General,
    Picture,
}

/// The type byte written for each field type.
pub open spec fn symbol_of(t: FieldType) -> u8 {
    match t {
        FieldType::NullFlags => 0x30,  // '0'
        FieldType::Character => 0x43,  // 'C'
        FieldType::Date => 0x44,  // 'D'
        FieldType::Logical => 0x4C,  // 'L'
        FieldType::Memo => 0x4D,  // 'M'
        FieldType::Numeric => 0x4E,  // 'N'
        FieldType::Float => 0x46,  // 'F'
        FieldType::Integer => 0x49,  // 'I'
        FieldType::Double => 0x42,  // 'B'
        FieldType::DateTime => 0x54,  // 'T'
        FieldType::Currency => 0x59,  // 'Y'
        FieldType::General => 0x47,  // 'G'
        FieldType::Picture => 0x50,  // 'P'
    }
}

/// The field type that a type byte names: each type's own symbol, and
/// also `@` for date-time.
pub open spec fn type_for_byte(b: u8) -> Option<FieldType> {
    if b == 0x30 {
        Some(FieldType::NullFlags)
    } else if b == 0x43 {
        Some(FieldType::Character)
    } else if b == 0x44 {
        Some(FieldType::Date)
    } else if b == 0x4C {
        Some(FieldType::Logical)
    } else if b == 0x4D {
        Some(FieldType::Memo)
    } else if b == 0x4E {
        Some(FieldType::Numeric)
    } else if b == 0x46 {
        Some(FieldType::Float)
    } else if b == 0x49 {
        Some(FieldType::Integer)
    } else if b == 0x42 {
        Some(FieldType::Double)
    } else if b == 0x54 || b == 0x40 {
        Some(FieldType::DateTime)
    } else if b == 0x59 {
        Some(FieldType::Currency)
    } else if b == 0x47 {
        Some(FieldType::General)
    } else if b == 0x50 {
        Some(FieldType::Picture)
    } else {
        None
    }
}

/// Each type's type byte reads back as that type.
pub proof fn law_symbol_round_trip(t: FieldType)
    ensures
        type_for_byte(symbol_of(t)) == Some(t),
{
}

/// The width that a field type always has, where it has one.
pub open spec fn fixed_length_of(t: FieldType) -> Option<u8> {
    match t {
        FieldType::Date => Some(8u8),
        FieldType::Logical => Some(1u8),
        FieldType::Integer => Some(4u8),
        FieldType::Double => Some(8u8),
        FieldType::DateTime => Some(8u8),
        FieldType::Currency => Some(8u8),
        FieldType::Memo | FieldType::General | FieldType::Picture => Some(10u8),
        _ => None,
    }
}

/// Field types that only Visual FoxPro tables can hold.
pub open spec fn needs_vfp(t: FieldType) -> bool {
    t == FieldType::Integer || t == FieldType::Double || t == FieldType::DateTime || t
        == FieldType::Currency || t == FieldType::NullFlags
}

/// The value that a fresh record holds in a field of type `t`.
pub open spec fn default_value_of(t: FieldType) -> ValueModel {
    match t {
        FieldType::NullFlags => ValueModel::Binary(Seq::empty()),
        FieldType::Character => ValueModel::Character(Seq::empty()),
        FieldType::Date => ValueModel::Date(None),
        FieldType::Logical => ValueModel::Logical(None),
        FieldType::Memo | FieldType::General | FieldType::Picture => ValueModel::Memo(Seq::empty()),
        FieldType::Numeric | FieldType::Float => ValueModel::Numeric(seq!['0']),
        FieldType::Integer => ValueModel::Integer(0),
        FieldType::Double => ValueModel::Double(0),
        FieldType::DateTime => ValueModel::DateTime(None),
        FieldType::Currency => ValueModel::Currency(0),
    }
}

impl FieldType {
    /// The type that a descriptor's type byte names; others are unsupported.
    pub fn from_byte(byte: u8) -> (r: Result<FieldType>)
        ensures
            match r {
                Ok(t) => type_for_byte(byte) == Some(t),
                Err(e) => type_for_byte(byte) is None && e.kind() == ErrorKind::Unsupported,
            },
    {
        match byte {
            0x30 => Ok(FieldType::NullFlags),
            0x43 => Ok(FieldType::Character),
            0x44 => Ok(FieldType::Date),
            0x4C => Ok(FieldType::Logical),
            0x4D => Ok(FieldType::Memo),
            0x4E => Ok(FieldType::Numeric),
            0x46 => Ok(FieldType::Float),
            0x49 => Ok(FieldType::Integer),
            0x42 => Ok(FieldType::Double),
            0x54 | 0x40 => Ok(FieldType::DateTime),
            0x59 => Ok(FieldType::Currency),
            0x47 => Ok(FieldType::General),
            0x50 => Ok(FieldType::Picture),
            _ => Err(Error::Unsupported(plain_message("unsupported field type byte"))),
        }
    }

    pub fn symbol(self) -> (b: u8)
        ensures
            b == symbol_of(self),
    {
        match self {
            FieldType::NullFlags => 0x30,
            FieldType::Character => 0x43,
            FieldType::Date => 0x44,
            FieldType::Logical => 0x4C,
            FieldType::Memo => 0x4D,
            FieldType::Numeric => 0x4E,
            FieldType::Float => 0x46,
            FieldType::Integer => 0x49,
            FieldType::Double => 0x42,
            FieldType::DateTime => 0x54,
            FieldType::Currency => 0x59,
            FieldType::General => 0x47,
            FieldType::Picture => 0x50,
        }
    }

    /// The value a fresh record holds in a field of this type. Numbers are
    /// zero, written `0` (see [`FieldDescriptor::empty_value`] for the form
    /// that follows a field's decimal count).
    pub fn default_value(self) -> (v: Value)
        ensures
            v@ == default_value_of(self),
    {
        match self {
            FieldType::NullFlags => Value::Binary(Vec::new()),
            FieldType::Character => Value::Character(String::new()),
            FieldType::Date => Value::Date(None),
            FieldType::Logical => Value::Logical(None),
            FieldType::Memo | FieldType::General | FieldType::Picture => Value::Memo(Vec::new()),
            FieldType::Numeric | FieldType::Float => {
                let mut v: Vec<char> = Vec::new();
                v.push('0');
                proof {
                    assert(v@ =~= seq!['0']);
                }
                Value::Numeric(string_from_chars(v.as_slice()))
            },
            FieldType::Integer => Value::Integer(0),
            FieldType::Double => Value::Double(0),
            FieldType::DateTime => Value::DateTime(None),
            FieldType::Currency => Value::Currency(0),
        }
    }

    pub fn fixed_length(self) -> (r: Option<u8>)
        ensures
            r == fixed_length_of(self),
    {
        match self {
            FieldType::Date => Some(8),
            FieldType::Logical => Some(1),
            FieldType::Integer => Some(4),
            FieldType::Double => Some(8),
            FieldType::DateTime => Some(8),
            FieldType::Currency => Some(8),
            FieldType::Memo | FieldType::General | FieldType::Picture => Some(10),
            _ => None,
        }
    }

    pub fn requires_vfp(self) -> (b: bool)
        ensures
            b == needs_vfp(self),
    {
        match self {
            FieldType::Integer | FieldType::Double | FieldType::DateTime | FieldType::Currency
            | FieldType::NullFlags => true,
            _ => false,
        }
    }
}

/// One field of a table, as its descriptor describes it.
#[derive(Debug, Clone, PartialEq, Eq)]
pub struct FieldDescriptor {
    pub name: String,
    pub field_type: FieldType,
    pub offset: u16,
    pub length: u8,
    pub decimals: u8,
    pub flags: u8,
    pub nullable_index: Option<usize>,
}

/// The model of a [`FieldDescriptor`].
pub struct FieldModel {
    pub name: Seq<char>,
    pub field_type: FieldType,
    pub offset: u16,
    pub length: u8,
    pub decimals: u8,
    pub flags: u8,
    pub nullable_index: Option<usize>,
}

impl View for FieldDescriptor {
    type V = FieldModel;

    open spec fn view(&self) -> FieldModel {
        FieldModel {
            name: self.name@,
            field_type: self.field_type,
            offset: self.offset,
            length: self.length,
            decimals: self.decimals,
            flags: self.flags,
            nullable_index: self.nullable_index,
        }
    }
}

/// Zero written with `decimals` digits after the point (`format!("{:.d$}", 0.0)`).
pub open spec fn zero_text(decimals: nat) -> Seq<char> {
    if decimals == 0 {
        seq!['0']
    } else {
        seq!['0', '.'] + Seq::new(decimals, |i: int| '0')
    }
}

/// The value a fresh record holds in a field: the type's default, with a
/// number written with the field's decimal count.
pub open spec fn empty_value_of(f: FieldModel) -> ValueModel {
    if f.field_type == FieldType::Numeric || f.field_type == FieldType::Float {
        ValueModel::Numeric(zero_text(f.decimals as nat))
    } else {
        default_value_of(f.field_type)
    }
}

pub open spec fn flag_nullable(flags: u8) -> bool {
    flags & FIELD_FLAG_NULLABLE != 0
}

pub open spec fn flag_binary(flags: u8) -> bool {
    flags & FIELD_FLAG_BINARY != 0
}

impl FieldDescriptor {
    /// The value a fresh record holds in this field.
    pub fn empty_value(&self) -> (v: Value)
        ensures
            v@ == empty_value_of(self@),
    {
        if self.field_type == FieldType::Numeric || self.field_type == FieldType::Float {
            let mut v: Vec<char> = Vec::new();
            v.push('0');
            if self.decimals > 0 {
                v.push('.');
                let mut i: u8 = 0;
                while i < self.decimals
                    invariant
                        i <= self.decimals,
                        v@ == seq!['0', '.'] + Seq::new(i as nat, |k: int| '0'),
                    decreases self.decimals - i,
                {
                    v.push('0');
                    i += 1;
                    proof {
                        assert(v@ =~= seq!['0', '.'] + Seq::new(i as nat, |k: int| '0'));
                    }
                }
            }
            proof {
                if self.decimals == 0 {
                    assert(v@ =~= seq!['0']);
                }
            }
            Value::Numeric(string_from_chars(v.as_slice()))
        } else {
            self.field_type.default_value()
        }
    }

    pub fn is_nullable(&self) -> (b: bool)
        ensures
            b == flag_nullable(self.flags),
    {
        self.flags & FIELD_FLAG_NULLABLE != 0
    }

    pub fn is_binary(&self) -> (b: bool)
        ensures
            b == flag_binary(self.flags),
    {
        self.flags & FIELD_FLAG_BINARY != 0
    }

    /// A copy of this descriptor.
    pub fn duplicate(&self) -> (d: FieldDescriptor)
        ensures
            d@ == self@,
    {
        FieldDescriptor {
            name: self.name.clone(),
            field_type: self.field_type,
            offset: self.offset,
            length: self.length,
            decimals: self.decimals,
            flags: self.flags,
            nullable_index: self.nullable_index,
        }
    }
}

/// The 32-byte table header.
#[derive(Debug, Clone, Copy, PartialEq, Eq, Structural)]
pub struct Header {
    pub kind: DbfKind,
    pub last_update: Option<Date>,
    pub record_count: u32,
    pub header_length: u16,
    pub record_length: u16,
    pub code_page: CodePageMark,
}

} // verus!
