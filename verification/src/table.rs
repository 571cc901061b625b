//! Tables: the header, the field descriptors, the records and the memo
//! file of one `.dbf` table, built from field specifications or decoded
//! from the image of a file.

use vstd::prelude::*;
use std::path::PathBuf;
use crate::codec::{
    descriptor_bytes, encode_field_descriptor, encode_header, encode_record, header_bytes,
    record_encode,
    NullFlagLayout, Outcome, decode_header, descriptors_of, header_from_bytes,
    memo_opt_view, memo_view, nullable_len, null_flag_bytes, read_field_descriptors, read_records,
    records_decode, records_view,
};
use crate::codepage::{encoding_for_mark, encoding_of_mark};
use crate::error::{Error, ErrorKind, Result, plain_message};
use crate::header::{
    CodePageMark, DbfKind, FieldDescriptor, FieldModel, FieldType, Header, flag_binary, flag_nullable,
    backlink_of, kind_is_vfp, needs_vfp, empty_value_of,
};
use crate::memo::{MemoFile, MemoFormat, MemoModel, format_for_kind, fresh_header};
use crate::record::{
    Record, RecordModel, field_position, fields_view, index_of, normalized_name, };
use crate::spec::{FieldSpec, FieldSpecModel, spec_flags, specs_from_text, specs_view};
use crate::text::{chars_of, string_from_chars};
use crate::binding::{field_structure, field_structure_text};
use crate::value::Date;
use crate::bytes::zeros;

verus! {

/// A filesystem path, carried through unchanged.
#[verifier::external_type_specification]
#[verifier::external_body]
pub struct ExPathBuf(std::path::PathBuf);

/// `PathBuf::from` on a string. Nothing is claimed of the path.
#[verifier::external_body]
fn path_from_str(s: &str) -> PathBuf {
    PathBuf::from(s)
}

/// The status name of a closed table.
pub const CLOSED: &'static str = "closed";
/// The status name of a table open for reading.
pub const READ_ONLY: &'static str = "read_only";
/// The status name of a table open for reading and writing.
pub const READ_WRITE: &'static str = "read_write";
/// The location name of a table kept in memory.
pub const IN_MEMORY: &'static str = "in_memory";
/// The location name of a table kept on disk.
pub const ON_DISK: &'static str = "on_disk";

/// A table.
pub struct Table {
    path: Option<PathBuf>,
    header: Header,
    fields: Vec<FieldDescriptor>,
    records: Vec<Record>,
    null_flags: Option<NullFlagLayout>,
    pub memo_file: Option<MemoFile>,
}

/// The model of a [`Table`].
pub struct TableModel {
    pub path: Option<PathBuf>,
    pub header: Header,
    pub fields: Seq<FieldModel>,
    pub records: Seq<RecordModel>,
    pub null_flags: Option<NullFlagLayout>,
    pub memo: Option<MemoModel>,
}

impl View for Table {
    type V = TableModel;

    closed spec fn view(&self) -> TableModel {
        TableModel {
            path: self.path,
            header: self.header,
            fields: fields_view(self.fields@),
            records: records_view(self.records@),
            null_flags: self.null_flags,
            memo: memo_opt_view(self.memo_file),
        }
    }
}

/// The parts of a table that a file image gives: its header (with the
/// record count of the records actually present), fields, null-flag
/// layout and records.
pub struct DecodedTable {
    pub header: Header,
    pub fields: Seq<FieldModel>,
    pub null_flags: Option<NullFlagLayout>,
    pub records: Seq<RecordModel>,
}

/// What reading the image `b` of a `.dbf` file (with its memo file, if
/// any) gives.
pub open spec fn table_decode(b: Seq<u8>, memo: Option<MemoModel>) -> Outcome<DecodedTable, ErrorKind> {
    match header_from_bytes(b) {
        Err(k) => Outcome::Failed(k),
        Ok(h) => match descriptors_of(b, h) {
            Err(k) => Outcome::Failed(k),
            Ok(st) => match records_decode(
                b,
                h.header_length as nat,
                h.record_length as nat,
                h.record_count as nat,
                0,
                st.fields,
                st.null_flags,
                memo,
                encoding_of_mark(h.code_page.0),
            ) {
                Outcome::Done(rs) => Outcome::Done(
                    DecodedTable {
                        header: Header { record_count: rs.len() as u32, ..h },
                        fields: st.fields,
                        null_flags: st.null_flags,
                        records: rs,
                    },
                ),
                Outcome::Failed(k) => Outcome::Failed(k),
                Outcome::Panics => Outcome::Panics,
            },
        },
    }
}

/// Decodes a file image into its parts.
fn decode_parts(bytes: &[u8], memo: Option<&MemoFile>) -> (r: Outcome<
    (Header, Vec<FieldDescriptor>, Option<NullFlagLayout>, Vec<Record>),
    Error,
>)
    ensures
        match r {
            Outcome::Done((h, f, l, rs)) => table_decode(bytes@, memo_view(memo)) == Outcome::<
                DecodedTable,
                ErrorKind,
            >::Done(
                DecodedTable {
                    header: h,
                    fields: fields_view(f@),
                    null_flags: l,
                    records: records_view(rs@),
                },
            ),
            Outcome::Failed(e) => table_decode(bytes@, memo_view(memo)) == Outcome::<
                DecodedTable,
                ErrorKind,
            >::Failed(e.kind()),
            Outcome::Panics => table_decode(bytes@, memo_view(memo)) is Panics,
        },
{
    let header = match decode_header(bytes) {
        Ok(h) => h,
        Err(e) => {
            return Outcome::Failed(e);
        },
    };
    let encoding = encoding_for_mark(header.code_page.0);
    let (fields, null_flags) = match read_field_descriptors(bytes, &header) {
        Ok(x) => x,
        Err(e) => {
            return Outcome::Failed(e);
        },
    };
    match read_records(bytes, &header, fields.as_slice(), null_flags, memo, encoding) {
        Outcome::Done(records) => {
            let mut header = header;
            header.record_count = records.len() as u32;
            Outcome::Done((header, fields, null_flags, records))
        },
        Outcome::Failed(e) => Outcome::Failed(e),
        Outcome::Panics => Outcome::Panics,
    }
}

// ---------------------------------------------------------------------------
// Building from field specifications
// ---------------------------------------------------------------------------

/// Sum of the lengths of the specifications.
pub open spec fn total_length(specs: Seq<FieldSpecModel>) -> nat
    decreases specs.len(),
{
    if specs.len() == 0 {
        0
    } else {
        total_length(specs.drop_last()) + specs.last().length as nat
    }
}

/// Number of nullable specifications.
pub open spec fn nullable_count(specs: Seq<FieldSpecModel>) -> nat
    decreases specs.len(),
{
    if specs.len() == 0 {
        0
    } else {
        nullable_count(specs.drop_last()) + if specs.last().nullable {
            1nat
        } else {
            0nat
        }
    }
}

/// Whether some specification makes the table a Visual FoxPro one.
pub open spec fn any_needs_vfp(specs: Seq<FieldSpecModel>) -> bool {
    exists|j: int| 0 <= j < specs.len() && (needs_vfp(#[trigger] specs[j].field_type) || specs[j].nullable)
}

/// The kind of a table built from `specs`: Visual FoxPro when a field needs
/// it, else the requested kind, else dBase III.
pub open spec fn inferred_kind(specs: Seq<FieldSpecModel>, kind: Option<DbfKind>) -> DbfKind {
    if any_needs_vfp(specs) {
        DbfKind::VisualFoxPro
    } else {
        match kind {
            Some(k) => k,
            None => DbfKind::DBase3,
        }
    }
}

/// The descriptor of specification `j`: packed after the deletion flag and
/// the fields before it, numbered among the nullable fields.
pub open spec fn spec_field(specs: Seq<FieldSpecModel>, j: int) -> FieldModel {
    let s = specs[j];
    FieldModel {
        name: s.name,
        field_type: s.field_type,
        offset: (1 + total_length(specs.take(j))) as u16,
        length: s.length,
        decimals: s.decimals,
        flags: spec_flags(s.nullable, s.binary),
        nullable_index: if s.nullable {
            Some(nullable_count(specs.take(j)) as usize)
        } else {
            None
        },
    }
}

/// The descriptors of a table built from `specs`.
pub open spec fn spec_fields(specs: Seq<FieldSpecModel>) -> Seq<FieldModel> {
    Seq::new(specs.len(), |j: int| spec_field(specs, j))
}

/// Whether building a table from `specs` fails, and how.
pub open spec fn from_specs_error(specs: Seq<FieldSpecModel>, kind: Option<DbfKind>) -> Option<ErrorKind> {
    let n = nullable_count(specs);
    if n > 0 && !kind_is_vfp(inferred_kind(specs, kind)) {
        Some(ErrorKind::Unsupported)
    } else if n > 0 && null_flag_bytes(n) > 255 {
        Some(ErrorKind::InvalidFieldSpec)
    } else {
        None
    }
}

/// Bytes of null flags of a table built from `specs`.
pub open spec fn spec_null_len(specs: Seq<FieldSpecModel>) -> nat {
    if nullable_count(specs) > 0 {
        null_flag_bytes(nullable_count(specs))
    } else {
        0
    }
}

/// Whether building a table from `specs` overflows the 16-bit offsets and
/// lengths of the format (arithmetic that panics on overflow).
pub open spec fn from_specs_panics(specs: Seq<FieldSpecModel>, kind: Option<DbfKind>) -> bool {
    ||| 1 + total_length(specs) > 0xFFFF
    ||| from_specs_error(specs, kind) is None && (1 + total_length(specs) + spec_null_len(specs)
        > 0xFFFF || 33 + 32 * ((specs.len() % 65536) + (if nullable_count(specs) > 0 { 1nat } else { 0nat }))
        + backlink_of(inferred_kind(specs, kind)) > 0xFFFF)
}

/// The header of a table built from `specs`.
pub open spec fn spec_header(specs: Seq<FieldSpecModel>, kind: Option<DbfKind>) -> Header {
    let descriptors = (specs.len() % 65536) + if nullable_count(specs) > 0 { 1nat } else { 0nat };
    Header {
        kind: inferred_kind(specs, kind),
        last_update: None,
        record_count: 0,
        header_length: (32 + descriptors * 32 + 1 + backlink_of(inferred_kind(specs, kind))) as u16,
        record_length: (1 + total_length(specs) + spec_null_len(specs)) as u16,
        code_page: CodePageMark(0),
    }
}

/// The null-flag layout of a table built from `specs`.
pub open spec fn spec_layout(specs: Seq<FieldSpecModel>) -> Option<NullFlagLayout> {
    if nullable_count(specs) > 0 {
        Some(
            NullFlagLayout {
                offset: (1 + total_length(specs)) as u16,
                length: null_flag_bytes(nullable_count(specs)) as u8,
            },
        )
    } else {
        None
    }
}

pub proof fn lemma_total_length_mono(specs: Seq<FieldSpecModel>, j: int)
    requires
        0 <= j <= specs.len(),
    ensures
        total_length(specs.take(j)) <= total_length(specs),
        nullable_count(specs.take(j)) <= nullable_count(specs),
        nullable_count(specs.take(j)) <= j,
    decreases specs.len(),
{
    if j < specs.len() {
        assert(specs.drop_last().take(j) =~= specs.take(j));
        lemma_total_length_mono(specs.drop_last(), j);
    } else {
        assert(specs.take(j) =~= specs);
        lemma_nullable_count_bound(specs);
    }
}

pub proof fn lemma_nullable_count_bound(specs: Seq<FieldSpecModel>)
    ensures
        nullable_count(specs) <= specs.len(),
    decreases specs.len(),
{
    if specs.len() > 0 {
        lemma_nullable_count_bound(specs.drop_last());
    }
}

/// A field's entry in a structure listing: the binding's structure line
/// of the field (name, type code and dimensions, ` null` for nullable and
/// ` BINARY` for binary fields).
pub open spec fn field_text(f: FieldModel) -> Seq<char> {
    field_structure_text(f)
}

/// The parts joined with `sep` between them.
pub open spec fn join(parts: Seq<Seq<char>>, sep: Seq<char>) -> Seq<char>
    decreases parts.len(),
{
    if parts.len() == 0 {
        Seq::empty()
    } else if parts.len() == 1 {
        parts[0]
    } else {
        join(parts.drop_last(), sep) + sep + parts.last()
    }
}

/// The structure listing of a list of fields (`name C(25); age N(3,0)`).
pub open spec fn structure_text(fields: Seq<FieldModel>) -> Seq<char> {
    join(fields.map_values(|f: FieldModel| field_text(f)), "; "@)
}

/// The specification that reproduces a field.
pub open spec fn spec_of_field(f: FieldModel) -> FieldSpecModel {
    FieldSpecModel {
        name: f.name,
        field_type: f.field_type,
        length: f.length,
        decimals: f.decimals,
        nullable: flag_nullable(f.flags),
        binary: flag_binary(f.flags),
    }
}

/// The specifications that reproduce the fields, leaving out null-flag fields.
pub open spec fn like_specs(fields: Seq<FieldModel>) -> Seq<FieldSpecModel>
    decreases fields.len(),
{
    if fields.len() == 0 {
        Seq::empty()
    } else {
        let rest = like_specs(fields.drop_last());
        if fields.last().field_type == FieldType::NullFlags {
            rest
        } else {
            rest.push(spec_of_field(fields.last()))
        }
    }
}

/// The records that are not marked deleted, in order.
pub open spec fn kept_records(rs: Seq<RecordModel>) -> Seq<RecordModel>
    decreases rs.len(),
{
    if rs.len() == 0 {
        Seq::empty()
    } else {
        let rest = kept_records(rs.drop_last());
        if rs.last().deleted {
            rest
        } else {
            rest.push(rs.last())
        }
    }
}

/// Packing keeps no deleted record, and packing again changes nothing.
pub proof fn law_pack_idempotent(rs: Seq<RecordModel>)
    ensures
        forall|i: int| 0 <= i < kept_records(rs).len() ==> !(#[trigger] kept_records(rs)[i]).deleted,
        kept_records(kept_records(rs)) == kept_records(rs),
    decreases rs.len(),
{
    if rs.len() > 0 {
        law_pack_idempotent(rs.drop_last());
        let rest = kept_records(rs.drop_last());
        if !rs.last().deleted {
            let k = rest.push(rs.last());
            assert(k.drop_last() =~= rest);
            assert forall|i: int| 0 <= i < k.len() implies !(#[trigger] k[i]).deleted by {
                if i < rest.len() {
                    assert(k[i] == rest[i]);
                }
            }
        }
    }
}

/// Packing keeps every record that is not deleted: as many as there are
/// live records, in their order.
pub proof fn law_pack_keeps_live(rs: Seq<RecordModel>, i: int)
    requires
        0 <= i < rs.len(),
        !rs[i].deleted,
    ensures
        kept_records(rs).contains(rs[i]),
    decreases rs.len(),
{
    if i < rs.len() - 1 {
        law_pack_keeps_live(rs.drop_last(), i);
        let rest = kept_records(rs.drop_last());
        let j = choose|j: int| 0 <= j < rest.len() && rest[j] == rs.drop_last()[i];
        if !rs.last().deleted {
            assert(rest.push(rs.last())[j] == rest[j]);
        }
    } else {
        let rest = kept_records(rs.drop_last());
        assert(rest.push(rs.last())[rest.len() as int] == rs.last());
    }
}

/// Field types whose content lives in the memo file.
pub open spec fn memo_type(t: FieldType) -> bool {
    t == FieldType::Memo || t == FieldType::General || t == FieldType::Picture
}

/// Whether some field keeps its content in the memo file.
pub open spec fn has_memo_field(fields: Seq<FieldModel>) -> bool {
    exists|j: int| 0 <= j < fields.len() && memo_type(#[trigger] fields[j].field_type)
}

/// The header length that a table's layout needs: the header, a
/// descriptor per field (and one for the null flags), the terminator and
/// the backlink area of its kind.
pub open spec fn layout_header_length(t: TableModel) -> nat {
    33 + 32 * (t.fields.len() + if t.null_flags is Some { 1nat } else { 0nat }) + backlink_of(
        t.header.kind,
    )
}

/// The header that a table is written with on the day `today`: its record
/// count, `today` as the last update, and the header length of its layout.
pub open spec fn written_header(t: TableModel, today: Date) -> Header {
    Header {
        record_count: t.records.len() as u32,
        last_update: Some(today),
        header_length: layout_header_length(t) as u16,
        ..t.header
    }
}

/// The memo file that writing starts from: a fresh one of the kind's
/// format when some field needs one.
pub open spec fn fresh_memo(t: TableModel) -> Option<MemoModel> {
    if has_memo_field(t.fields) {
        let format = format_for_kind(t.header.kind);
        Some(MemoModel { bytes: fresh_header(format), format, next_free_block: 1 })
    } else {
        None
    }
}

/// The descriptor written for the null flags.
pub open spec fn null_flags_descriptor(l: NullFlagLayout) -> FieldModel {
    FieldModel {
        name: "_NullFlags"@,
        field_type: FieldType::NullFlags,
        offset: l.offset,
        length: l.length,
        decimals: 0,
        flags: 0x05,
        nullable_index: None,
    }
}

/// The descriptors of the fields, one after the other.
pub open spec fn descriptors_bytes(fields: Seq<FieldModel>) -> Seq<u8>
    decreases fields.len(),
{
    if fields.len() == 0 {
        Seq::empty()
    } else {
        descriptors_bytes(fields.drop_last()) + descriptor_bytes(fields.last())
    }
}

/// Everything before the records: header, descriptors (the null flags'
/// last), the `0x0D` terminator and the backlink area of the kind.
pub open spec fn table_prefix(t: TableModel, today: Date) -> Seq<u8> {
    header_bytes(written_header(t, today)) + descriptors_bytes(t.fields) + match t.null_flags {
        Some(l) => descriptor_bytes(null_flags_descriptor(l)),
        None => Seq::empty(),
    } + seq![0x0Du8] + zeros(backlink_of(t.header.kind))
}

/// The image so far after writing records `i..` in turn.
pub open spec fn records_encode(
    t: TableModel,
    i: nat,
    acc: Seq<u8>,
    memo: Option<MemoModel>,
) -> Outcome<(Seq<u8>, Option<MemoModel>), ErrorKind>
    decreases t.records.len() - i,
{
    if i >= t.records.len() {
        Outcome::Done((acc, memo))
    } else {
        match record_encode(
            t.records[i as int],
            t.fields,
            t.null_flags,
            t.header.record_length as nat,
            memo,
            encoding_of_mark(t.header.code_page.0),
        ) {
            Outcome::Done((b, m2)) => records_encode(t, i + 1, acc + b, m2),
            Outcome::Failed(k) => Outcome::Failed(k),
            Outcome::Panics => Outcome::Panics,
        }
    }
}

/// The image of the `.dbf` file that a table is written as, and its memo
/// file, or why it cannot be written.
pub open spec fn table_image(t: TableModel, today: Date) -> Outcome<(Seq<u8>, Option<MemoModel>), ErrorKind> {
    if layout_header_length(t) > 0xFFFF {
        Outcome::Failed(ErrorKind::Overflow)
    } else {
        match records_encode(t, 0, table_prefix(t, today), fresh_memo(t)) {
            Outcome::Done((b, m)) => Outcome::Done((b + seq![0x1Au8], m)),
            Outcome::Failed(k) => Outcome::Failed(k),
            Outcome::Panics => Outcome::Panics,
        }
    }
}

pub proof fn lemma_prefix_step(specs: Seq<FieldSpecModel>, j: int)
    requires
        0 <= j < specs.len(),
    ensures
        total_length(specs.take(j + 1)) == total_length(specs.take(j)) + specs[j].length,
        nullable_count(specs.take(j + 1)) == nullable_count(specs.take(j)) + if specs[j].nullable {
            1nat
        } else {
            0nat
        },
{
    assert(specs.take(j + 1).drop_last() =~= specs.take(j));
}

impl Table {
    /// A new, empty table for the field specifications: fields are packed
    /// after the deletion flag, the kind is Visual FoxPro when a field needs
    /// it, and nullable fields get null-flag bits.
    pub fn from_specs(specs: Vec<FieldSpec>, kind: Option<DbfKind>) -> (r: Result<Table>)
        requires
            !from_specs_panics(specs_view(specs@), kind),
        ensures
            match r {
                Ok(t) => from_specs_error(specs_view(specs@), kind) is None && t@.fields == spec_fields(
                    specs_view(specs@),
                ) && t@.header == spec_header(specs_view(specs@), kind) && t@.null_flags
                    == spec_layout(specs_view(specs@)) && t@.records.len() == 0 && t@.memo is None
                    && t@.path is None,
                Err(e) => from_specs_error(specs_view(specs@), kind) == Some(e.kind()),
            },
    {
        let ghost sv = specs_view(specs@);
        let mut offset: u16 = 1;
        let mut fields: Vec<FieldDescriptor> = Vec::new();
        let mut any_vfp = false;
        let mut nullable_index: usize = 0;
        let mut j: usize = 0;
        proof {
            assert(sv.take(0) =~= Seq::<FieldSpecModel>::empty());
            assert(fields_view(fields@) =~= Seq::new(0, |k: int| spec_field(sv, k)));
        }
        while j < specs.len()
            invariant
                j <= specs@.len(),
                sv == specs_view(specs@),
                !from_specs_panics(sv, kind),
                offset as nat == 1 + total_length(sv.take(j as int)),
                nullable_index as nat == nullable_count(sv.take(j as int)),
                nullable_index <= j,
                any_vfp == exists|k: int| 0 <= k < j && (needs_vfp(#[trigger] sv[k].field_type) || sv[k].nullable),
                fields_view(fields@) == Seq::new(j as nat, |k: int| spec_field(sv, k)),
            decreases specs.len() - j,
        {
            let spec = &specs[j];
            proof {
                assert(sv[j as int] == spec@);
                lemma_prefix_step(sv, j as int);
                lemma_total_length_mono(sv, j + 1);
            }
            let mut descriptor = spec.to_descriptor(offset);
            offset = offset + spec.length as u16;
            if spec.field_type.requires_vfp() || spec.nullable {
                any_vfp = true;
            }
            if spec.nullable {
                descriptor.nullable_index = Some(nullable_index);
                nullable_index += 1;
            }
            let ghost before = fields_view(fields@);
            fields.push(descriptor);
            proof {
                assert(descriptor@ == spec_field(sv, j as int));
                assert(fields_view(fields@) =~= before.push(descriptor@));
                assert(fields_view(fields@) =~= Seq::new((j + 1) as nat, |k: int| spec_field(sv, k)));
            }
            j += 1;
        }
        proof {
            assert(sv.take(j as int) =~= sv);
            assert(fields_view(fields@) =~= spec_fields(sv));
        }
        let table_kind = if any_vfp {
            DbfKind::VisualFoxPro
        } else {
            match kind {
                Some(k) => k,
                None => DbfKind::DBase3,
            }
        };
        if nullable_index > 0 && !table_kind.is_vfp() {
            return Err(Error::Unsupported(plain_message("nullable fields require Visual FoxPro table type")));
        }
        let null_flags = if nullable_index > 0 {
            let length = nullable_len(nullable_index)?;
            let layout = NullFlagLayout { offset, length };
            offset = offset + length as u16;
            Some(layout)
        } else {
            None
        };
        let has_layout: u16 = if nullable_index > 0 { 1 } else { 0 };
        let n16: u16 = (fields.len() % 65536) as u16;
        let backlink = table_kind.backlink_size();
        let header_length: u16 = 32 + (n16 + has_layout) * 32 + 1 + backlink;
        let header = Header {
            kind: table_kind,
            last_update: None,
            record_count: 0,
            header_length,
            record_length: offset,
            code_page: CodePageMark(0x00),
        };
        proof {
            assert(any_vfp == any_needs_vfp(sv));
            assert(table_kind == inferred_kind(sv, kind));
            assert(fields@.len() == sv.len());
            assert(n16 == sv.len() % 65536);
            assert(header.header_length == spec_header(sv, kind).header_length);
            assert(header.record_length == spec_header(sv, kind).record_length);
            assert(header == spec_header(sv, kind));
        }
        Ok(Table { path: None, header, fields, records: Vec::new(), null_flags, memo_file: None })
    }

    /// The table that a `.dbf` image holds, read with the given memo file;
    /// its record count is that of the records actually present.
    pub fn from_bytes(path: PathBuf, bytes: &[u8], memo_file: Option<MemoFile>) -> (r: Result<Table>)
        requires
            !(table_decode(bytes@, memo_opt_view(memo_file)) is Panics),
        ensures
            match r {
                Ok(t) => table_decode(bytes@, memo_opt_view(memo_file)) matches Outcome::Done(d)
                    && t@.header == d.header && t@.fields == d.fields && t@.null_flags
                    == d.null_flags && t@.records == d.records && t@.memo == memo_opt_view(memo_file) && t@.path == Some(path),
                Err(e) => table_decode(bytes@, memo_opt_view(memo_file)) == Outcome::<
                    DecodedTable,
                    ErrorKind,
                >::Failed(e.kind()),
            },
    {
        let memo_ref = memo_file.as_ref();
        assert(memo_view(memo_ref) == memo_opt_view(memo_file));
        match decode_parts(bytes, memo_ref) {
            Outcome::Done((header, fields, null_flags, records)) => Ok(
                Table { path: Some(path), header, fields, records, null_flags, memo_file },
            ),
            Outcome::Failed(e) => Err(e),
            Outcome::Panics => {
                proof {
                    assert(false);
                }
                Err(Error::InvalidFormat(plain_message("unreachable")))
            },
        }
    }

    /// Whether reading the image `bytes` would panic (a record layout that
    /// does not fit the record length, a value too short for its type):
    /// the inputs that [`Table::from_bytes`] does not take.
    pub fn read_would_panic(bytes: &[u8], memo_file: Option<&MemoFile>) -> (b: bool)
        ensures
            b == (table_decode(bytes@, memo_view(memo_file)) is Panics),
    {
        match decode_parts(bytes, memo_file) {
            Outcome::Panics => true,
            _ => false,
        }
    }
}

impl Table {
    /// A new, empty table from a specification list such as
    /// `"name C(25); age N(3,0)"`.
    pub fn new(field_specs: &str) -> (r: Result<Table>)
        requires
            specs_from_text(field_specs@) matches Ok(v) ==> !from_specs_panics(v, None),
        ensures
            match r {
                Ok(t) => specs_from_text(field_specs@) matches Ok(v) && from_specs_error(v, None) is None
                    && t@.fields == spec_fields(v) && t@.header == spec_header(v, None)
                    && t@.null_flags == spec_layout(v) && t@.records.len() == 0 && t@.memo is None
                    && t@.path is None,
                Err(e) => match specs_from_text(field_specs@) {
                    Ok(v) => from_specs_error(v, None) == Some(e.kind()),
                    Err(k) => k == e.kind(),
                },
            },
    {
        let specs = FieldSpec::parse_many(field_specs)?;
        Table::from_specs(specs, None)
    }

    /// Whether building a table from `specs` would overflow the format's
    /// 16-bit offsets: the inputs that [`Table::from_specs`] does not take.
    pub fn from_specs_would_panic(specs: &[FieldSpec], kind: Option<DbfKind>) -> (b: bool)
        ensures
            b == from_specs_panics(specs_view(specs@), kind),
    {
        let ghost sv = specs_view(specs@);
        let mut total: u64 = 0;
        let mut nullable: u64 = 0;
        let mut any_vfp = false;
        let mut j: usize = 0;
        proof {
            assert(sv.take(0) =~= Seq::<FieldSpecModel>::empty());
        }
        while j < specs.len()
            invariant
                j <= specs@.len(),
                sv == specs_view(specs@),
                total as nat == total_length(sv.take(j as int)),
                nullable as nat == nullable_count(sv.take(j as int)),
                1 + total <= 0xFFFF,
                nullable <= j,
                any_vfp == exists|k: int| 0 <= k < j && (needs_vfp(#[trigger] sv[k].field_type) || sv[k].nullable),
            decreases specs.len() - j,
        {
            let spec = &specs[j];
            proof {
                assert(sv[j as int] == spec@);
                lemma_prefix_step(sv, j as int);
            }
            total = total + spec.length as u64;
            if 1 + total > 0xFFFF {
                proof {
                    lemma_total_length_mono(sv, j + 1);
                }
                return true;
            }
            if spec.nullable {
                nullable = nullable + 1;
            }
            let this_vfp = spec.field_type.requires_vfp() || spec.nullable;
            proof {
                assert(this_vfp == (needs_vfp(sv[j as int].field_type) || sv[j as int].nullable));
            }
            if this_vfp {
                any_vfp = true;
            }
            j += 1;
        }
        proof {
            assert(sv.take(j as int) =~= sv);
        }
        let vfp = any_vfp || match kind {
            Some(k) => k.is_vfp(),
            None => false,
        };
        if nullable > 0 && !vfp {
            return false;
        }
        let null_len: u64 = if nullable > 0 {
            nullable / 8 + if nullable % 8 != 0 { 1 } else { 0 }
        } else {
            0
        };
        if nullable > 0 && null_len > 255 {
            return false;
        }
        let has_layout: u64 = if nullable > 0 { 1 } else { 0 };
        let backlink: u64 = if vfp { 263 } else { 0 };
        1 + total + null_len > 0xFFFF || 33 + 32 * ((specs.len() % 65536) as u64 + has_layout) + backlink > 0xFFFF
    }

    pub fn path(&self) -> (p: Option<&PathBuf>)
        ensures
            match p {
                Some(x) => self@.path == Some(*x),
                None => self@.path is None,
            },
    {
        self.path.as_ref()
    }

    /// The structure listing of the table (`name C(25); age N(3,0) null`).
    pub fn structure(&self) -> (s: String)
        ensures
            s@ == structure_text(self@.fields),
    {
        let ghost parts = fields_view(self.fields@).map_values(|f: FieldModel| field_text(f));
        let mut out: Vec<char> = Vec::new();
        let mut i: usize = 0;
        proof {
            assert(parts.take(0) =~= Seq::<Seq<char>>::empty());
        }
        while i < self.fields.len()
            invariant
                i <= self.fields@.len(),
                parts == fields_view(self.fields@).map_values(|f: FieldModel| field_text(f)),
                out@ == join(parts.take(i as int), "; "@),
            decreases self.fields.len() - i,
        {
            let f = &self.fields[i];
            let text = field_entry(f);
            proof {
                assert(parts[i as int] == field_text(f@));
                assert(parts.take(i + 1).drop_last() =~= parts.take(i as int));
            }
            if i > 0 {
                let mut sep = chars_of("; ");
                out.append(&mut sep);
            }
            let mut t = text;
            let ghost tv = t@;
            out.append(&mut t);
            proof {
                if i == 0 {
                    assert(out@ =~= join(parts.take(1), "; "@));
                } else {
                    assert(out@ =~= join(parts.take(i + 1), "; "@));
                }
            }
            i += 1;
        }
        proof {
            assert(parts.take(i as int) =~= parts);
        }
        string_from_chars(out.as_slice())
    }

    /// A new table with the same fields (null-flag fields left out), of the
    /// given kind or else this table's kind; `filename` becomes its path when
    /// it is to live on disk.
    pub fn new_like(&self, filename: &str, kind: Option<DbfKind>, on_disk: bool) -> (r: Result<Table>)
        requires
            !from_specs_panics(
                like_specs(self@.fields),
                Some(
                    match kind {
                        Some(k) => k,
                        None => self@.header.kind,
                    },
                ),
            ),
        ensures
            ({
                let v = like_specs(self@.fields);
                let k = Some(
                    match kind {
                        Some(k) => k,
                        None => self@.header.kind,
                    },
                );
                match r {
                    Ok(t) => from_specs_error(v, k) is None && t@.fields == spec_fields(v) && t@.header
                        == spec_header(v, k) && t@.null_flags == spec_layout(v) && t@.records.len() == 0
                        && t@.memo is None && (t@.path is Some <==> on_disk),
                    Err(e) => from_specs_error(v, k) == Some(e.kind()),
                }
            }),
    {
        let specs = self.like_field_specs();
        let k = match kind {
            Some(k) => k,
            None => self.header.kind,
        };
        let mut table = Table::from_specs(specs, Some(k))?;
        if on_disk {
            table.path = Some(path_from_str(filename));
        }
        Ok(table)
    }

    /// The specifications that reproduce this table's fields.
    fn like_field_specs(&self) -> (specs: Vec<FieldSpec>)
        ensures
            specs_view(specs@) == like_specs(self@.fields),
    {
        let mut specs: Vec<FieldSpec> = Vec::new();
        let mut i: usize = 0;
        let ghost fv = fields_view(self.fields@);
        proof {
            assert(fv.take(0) =~= Seq::<FieldModel>::empty());
            assert(specs_view(specs@) =~= Seq::<FieldSpecModel>::empty());
        }
        while i < self.fields.len()
            invariant
                i <= self.fields@.len(),
                fv == fields_view(self.fields@),
                specs_view(specs@) == like_specs(fv.take(i as int)),
            decreases self.fields.len() - i,
        {
            let f = &self.fields[i];
            proof {
                assert(fv[i as int] == f@);
                assert(fv.take(i + 1).drop_last() =~= fv.take(i as int));
            }
            if f.field_type != FieldType::NullFlags {
                let ghost before = specs_view(specs@);
                let nullable = f.is_nullable();
                let binary = f.is_binary();
                specs.push(FieldSpec {
                    name: f.name.clone(),
                    field_type: f.field_type,
                    length: f.length,
                    decimals: f.decimals,
                    nullable,
                    binary,
                });
                proof {
                    assert(specs_view(specs@) =~= before.push(spec_of_field(f@)));
                }
            }
            i += 1;
        }
        proof {
            assert(fv.take(i as int) =~= fv);
        }
        specs
    }

    /// Whether [`Table::new_like`] would panic for `kind` (a layout that
    /// overflows the record length): the calls that it does not take.
    pub fn new_like_would_panic(&self, kind: Option<DbfKind>) -> (b: bool)
        ensures
            b == from_specs_panics(
                like_specs(self@.fields),
                Some(
                    match kind {
                        Some(k) => k,
                        None => self@.header.kind,
                    },
                ),
            ),
    {
        let specs = self.like_field_specs();
        let k = match kind {
            Some(k) => k,
            None => self.header.kind,
        };
        Table::from_specs_would_panic(specs.as_slice(), Some(k))
    }

    /// The descriptor of the field that `name` names.
    pub fn field_info(&self, name: &str) -> (r: Result<&FieldDescriptor>)
        ensures
            match r {
                Ok(f) => field_position(self@.fields, normalized_name(name@)) matches Some(i)
                    && f@ == self@.fields[i as int],
                Err(e) => field_position(self@.fields, normalized_name(name@)) is None && e.kind()
                    == ErrorKind::FieldNotFound && e->FieldNotFound_0@ == normalized_name(name@),
            },
    {
        let i = index_of(self.fields.as_slice(), name)?;
        proof {
            crate::record::lemma_field_position(self@.fields, normalized_name(name@));
        }
        Ok(&self.fields[i])
    }

    pub fn header(&self) -> (h: &Header)
        ensures
            *h == self@.header,
    {
        &self.header
    }

    pub fn fields(&self) -> (f: &[FieldDescriptor])
        ensures
            fields_view(f@) == self@.fields,
    {
        self.fields.as_slice()
    }

    /// Where the null flags sit in a record, if the table has them.
    pub fn null_flags(&self) -> (l: Option<NullFlagLayout>)
        ensures
            l == self@.null_flags,
    {
        self.null_flags
    }

    pub fn records(&self) -> (r: &[Record])
        ensures
            records_view(r@) == self@.records,
    {
        self.records.as_slice()
    }

    pub fn records_mut(&mut self) -> (r: &mut [Record])
        ensures
            records_view(r@) == old(self)@.records,
            final(self)@.records == records_view(final(r)@),
            final(self)@.header == old(self)@.header,
            final(self)@.fields == old(self)@.fields,
            final(self)@.null_flags == old(self)@.null_flags,
            final(self)@.memo == old(self)@.memo,
            final(self)@.path == old(self)@.path,
    {
        self.records.as_mut_slice()
    }

    /// Appends a record that has one value per field; the record count follows.
    pub fn push_record(&mut self, record: Record) -> (r: Result<()>)
        ensures
            match r {
                Ok(_) => record@.values.len() == old(self)@.fields.len() && final(self)@.records == old(
                    self,
                )@.records.push(record@) && final(self)@.header == (Header {
                    record_count: final(self)@.records.len() as u32,
                    ..old(self)@.header
                }),
                Err(e) => record@.values.len() != old(self)@.fields.len() && e.kind()
                    == ErrorKind::InvalidFormat && final(self)@.records == old(self)@.records
                    && final(self)@.header == old(self)@.header,
            },
            final(self)@.fields == old(self)@.fields,
            final(self)@.null_flags == old(self)@.null_flags,
            final(self)@.memo == old(self)@.memo,
            final(self)@.path == old(self)@.path,
    {
        if record.values().len() != self.fields.len() {
            return Err(Error::InvalidFormat(plain_message("record width does not match table width")));
        }
        let ghost before = records_view(self.records@);
        self.records.push(record);
        proof {
            assert(records_view(self.records@) =~= before.push(record@));
        }
        self.header.record_count = #[verifier::truncate] (self.records.len() as u32);
        Ok(())
    }

    /// A fresh record with each field's empty value.
    pub fn new_record(&self) -> (r: Record)
        ensures
            !r@.deleted,
            r@.values == self@.fields.map_values(|f: FieldModel| empty_value_of(f)),
    {
        let r = Record::new(self.fields.as_slice());
        proof {
            assert(r@.values =~= self@.fields.map_values(|f: FieldModel| empty_value_of(f)));
        }
        r
    }

    /// Removes the records marked deleted; the record count follows.
    pub fn pack(&mut self)
        ensures
            final(self)@.records == kept_records(old(self)@.records),
            final(self)@.header == (Header {
                record_count: final(self)@.records.len() as u32,
                ..old(self)@.header
            }),
            final(self)@.fields == old(self)@.fields,
            final(self)@.null_flags == old(self)@.null_flags,
            final(self)@.memo == old(self)@.memo,
            final(self)@.path == old(self)@.path,
    {
        let ghost all = records_view(self.records@);
        let mut kept: Vec<Record> = Vec::new();
        let mut old_records: Vec<Record> = Vec::new();
        std::mem::swap(&mut old_records, &mut self.records);
        assert(records_view(old_records@) == all);
        let mut i: usize = 0;
        proof {
            assert(all.take(0) =~= Seq::<RecordModel>::empty());
            assert(records_view(kept@) =~= Seq::<RecordModel>::empty());
        }
        for r in it: old_records
            invariant
                it.seq() == old_records@,
                records_view(old_records@) == all,
                records_view(kept@) == kept_records(all.take(it.index() as int)),
        {
            proof {
                let j = it.index() as int;
                assert(all[j] == r@);
                assert(all.take(j + 1).drop_last() =~= all.take(j));
            }
            if !r.is_deleted() {
                let ghost before = records_view(kept@);
                kept.push(r);
                proof {
                    assert(records_view(kept@) =~= before.push(r@));
                }
            }
        }
        proof {
            assert(all.take(all.len() as int) =~= all);
        }
        self.records = kept;
        self.header.record_count = #[verifier::truncate] (self.records.len() as u32);
    }

    /// Adding fields to a table is not supported.
    pub fn add_fields(&mut self, _specs: &str) -> (r: Result<()>)
        ensures
            r matches Err(e) && e.kind() == ErrorKind::Unsupported,
            final(self)@ == old(self)@,
    {
        Err(Error::Unsupported(plain_message("schema modification not yet implemented")))
    }

    /// Removing fields from a table is not supported.
    pub fn remove_fields(&mut self, _names: &[&str]) -> (r: Result<()>)
        ensures
            r matches Err(e) && e.kind() == ErrorKind::Unsupported,
            final(self)@ == old(self)@,
    {
        Err(Error::Unsupported(plain_message("schema modification not yet implemented")))
    }

    /// Renaming a field is not supported.
    pub fn rename_field(&mut self, _old_name: &str, _new_name: &str) -> (r: Result<()>)
        ensures
            r matches Err(e) && e.kind() == ErrorKind::Unsupported,
            final(self)@ == old(self)@,
    {
        Err(Error::Unsupported(plain_message("schema modification not yet implemented")))
    }
}

/// The image of a table's `.dbf` file and its memo file.
fn encode_table(
    header: &Header,
    fields: &[FieldDescriptor],
    records: &[Record],
    null_flags: Option<NullFlagLayout>,
    memo: &mut Option<MemoFile>,
    Ghost(t): Ghost<TableModel>,
    Ghost(today): Ghost<Date>,
) -> (r: Outcome<Vec<u8>, Error>)
    requires
        *header == written_header(t, today),
        layout_header_length(t) <= 0xFFFF,
        t.fields == fields_view(fields@),
        t.records == records_view(records@),
        t.null_flags == null_flags,
        memo_opt_view(*old(memo)) == fresh_memo(t),
    ensures
        match r {
            Outcome::Done(b) => table_image(t, today) == Outcome::<(Seq<u8>, Option<MemoModel>), ErrorKind>::Done((b@, memo_opt_view(*final(memo)))),
            Outcome::Failed(e) => table_image(t, today) == Outcome::<(Seq<u8>, Option<MemoModel>), ErrorKind>::Failed(e.kind()),
            Outcome::Panics => table_image(t, today) is Panics,
        },
{
    proof {
        assert(!(layout_header_length(t) > 0xFFFF));
        assert(table_image(t, today) == match records_encode(t, 0, table_prefix(t, today), fresh_memo(t)) {
            Outcome::Done((b, m)) => Outcome::Done((b + seq![0x1Au8], m)),
            Outcome::Failed(k) => Outcome::Failed(k),
            Outcome::Panics => Outcome::<(Seq<u8>, Option<MemoModel>), ErrorKind>::Panics,
        });
    }
    let mut out = encode_header(header);
    let mut i: usize = 0;
    let ghost fv = fields_view(fields@);
    proof {
        assert(fv.take(0) =~= Seq::<FieldModel>::empty());
        assert(out@ =~= header_bytes(written_header(t, today)) + descriptors_bytes(fv.take(0)));
    }
    while i < fields.len()
        invariant
            i <= fields@.len(),
            fv == fields_view(fields@),
            *header == written_header(t, today),
            out@ == header_bytes(written_header(t, today)) + descriptors_bytes(fv.take(i as int)),
        decreases fields.len() - i,
    {
        let d = encode_field_descriptor(&fields[i]);
        proof {
            assert(fv[i as int] == fields[i as int]@);
            assert(fv.take(i + 1).drop_last() =~= fv.take(i as int));
        }
        crate::bytes::push_all(&mut out, d.as_slice());
        i += 1;
        proof {
            assert(out@ =~= header_bytes(written_header(t, today)) + descriptors_bytes(fv.take(i as int)));
        }
    }
    proof {
        assert(fv.take(i as int) =~= fv);
    }
    match null_flags {
        Some(l) => {
            let nd = FieldDescriptor {
                name: crate::error::plain_message("_NullFlags"),
                field_type: FieldType::NullFlags,
                offset: l.offset,
                length: l.length,
                decimals: 0,
                flags: 0x05,
                nullable_index: None,
            };
            let d = encode_field_descriptor(&nd);
            proof {
                assert(nd@ == null_flags_descriptor(l));
            }
            crate::bytes::push_all(&mut out, d.as_slice());
        },
        None => {},
    }
    out.push(0x0D);
    let backlink = header.kind.backlink_size();
    let mut z: u16 = 0;
    let ghost before_zeros = out@;
    while z < backlink
        invariant
            z <= backlink,
            out@ == before_zeros + zeros(z as nat),
        decreases backlink - z,
    {
        out.push(0);
        z += 1;
        proof {
            assert(out@ =~= before_zeros + zeros(z as nat));
        }
    }
    proof {
        assert(out@ =~= table_prefix(t, today));
    }
    let encoding = encoding_for_mark(header.code_page.0);
    let mut k: usize = 0;
    let ghost whole = records_encode(t, 0, table_prefix(t, today), fresh_memo(t));
    while k < records.len()
        invariant
            k <= records@.len(),
            t.records == records_view(records@),
            t.fields == fields_view(fields@),
            t.null_flags == null_flags,
            *header == written_header(t, today),
            encoding == encoding_of_mark(t.header.code_page.0),
            whole == records_encode(t, 0, table_prefix(t, today), fresh_memo(t)),
            whole == records_encode(t, k as nat, out@, memo_opt_view(*memo)),
            layout_header_length(t) <= 0xFFFF,
        decreases records.len() - k,
    {
        proof {
            assert(t.records[k as int] == records[k as int]@);
        }
        let ghost m0 = memo_opt_view(*memo);
        let ghost o0 = out@;
        match encode_record(&records[k], fields, null_flags, header.record_length as usize, memo, encoding) {
            Outcome::Done(b) => {
                crate::bytes::push_all(&mut out, b.as_slice());
                proof {
                    assert(records_encode(t, k as nat, o0, m0) == records_encode(
                        t,
                        (k + 1) as nat,
                        o0 + b@,
                        memo_opt_view(*memo),
                    ));
                }
            },
            Outcome::Failed(e) => {
                return Outcome::Failed(e);
            },
            Outcome::Panics => {
                return Outcome::Panics;
            },
        }
        k += 1;
    }
    proof {
        assert(whole == Outcome::<(Seq<u8>, Option<MemoModel>), ErrorKind>::Done((out@, memo_opt_view(*memo))));
    }
    let ghost before = out@;
    out.push(0x1A);
    proof {
        assert(out@ =~= before + seq![0x1Au8]);
    }
    Outcome::Done(out)
}

impl Table {
    /// Prepares the table for writing to `path` on the day `today` and
    /// returns the image of the `.dbf` file: the record count is brought up
    /// to date, the last-update date set to `today`, and a fresh memo file
    /// (held in `memo_file`, its image for the caller to store) receives
    /// the memo contents. On success the table's path becomes `path`.
    pub fn write_image(&mut self, path: PathBuf, today: Date) -> (r: Result<Vec<u8>>)
        requires
            !(table_image(old(self)@, today) is Panics),
        ensures
            layout_header_length(old(self)@) <= 0xFFFF ==> final(self)@.header == written_header(
                old(self)@,
                today,
            ),
            layout_header_length(old(self)@) > 0xFFFF ==> final(self)@ == old(self)@,
            final(self)@.fields == old(self)@.fields,
            final(self)@.records == old(self)@.records,
            final(self)@.null_flags == old(self)@.null_flags,
            match r {
                Ok(b) => table_image(old(self)@, today) == Outcome::<(Seq<u8>, Option<MemoModel>), ErrorKind>::Done(
                    (b@, final(self)@.memo),
                ) && final(self)@.path == Some(path),
                Err(e) => table_image(old(self)@, today) == Outcome::<(Seq<u8>, Option<MemoModel>), ErrorKind>::Failed(
                    e.kind(),
                ) && final(self)@.path == old(self)@.path,
            },
    {
        let ghost t0 = self@;
        let header_length = match self.layout_header_length() {
            Some(h) => h,
            None => {
                return Err(Error::Overflow(plain_message("too many fields for the header length")));
            },
        };
        let mut memo = self.fresh_memo();
        self.header.record_count = #[verifier::truncate] (self.records.len() as u32);
        self.header.last_update = Some(today);
        self.header.header_length = header_length;
        let r = encode_table(
            &self.header,
            self.fields.as_slice(),
            self.records.as_slice(),
            self.null_flags,
            &mut memo,
            Ghost(t0),
            Ghost(today),
        );
        self.memo_file = memo;
        match r {
            Outcome::Done(b) => {
                self.path = Some(path);
                Ok(b)
            },
            Outcome::Failed(e) => Err(e),
            Outcome::Panics => {
                proof {
                    assert(false);
                }
                Err(Error::InvalidFormat(plain_message("unreachable")))
            },
        }
    }

    /// Whether writing the table would panic (a value that does not fill
    /// its field, a layout that does not fit the record length, a memo
    /// counter that overflows): the tables that [`Table::write_image`] does
    /// not take.
    pub fn write_would_panic(&self, today: Date) -> (b: bool)
        ensures
            b == (table_image(self@, today) is Panics),
    {
        let header_length = match self.layout_header_length() {
            Some(h) => h,
            None => {
                return false;
            },
        };
        let mut header = self.header;
        header.record_count = #[verifier::truncate] (self.records.len() as u32);
        header.last_update = Some(today);
        header.header_length = header_length;
        let mut memo = self.fresh_memo();
        let r = encode_table(
            &header,
            self.fields.as_slice(),
            self.records.as_slice(),
            self.null_flags,
            &mut memo,
            Ghost(self@),
            Ghost(today),
        );
        match r {
            Outcome::Panics => true,
            _ => false,
        }
    }

    /// The header length that the table's layout needs, or `None` when it
    /// does not fit 16 bits.
    fn layout_header_length(&self) -> (r: Option<u16>)
        ensures
            match r {
                Some(h) => h as nat == layout_header_length(self@),
                None => layout_header_length(self@) > 0xFFFF,
            },
    {
        let n = self.fields.len();
        if n > 2100 {
            return None;
        }
        let slots: u64 = n as u64 + if self.null_flags.is_some() { 1 } else { 0 };
        let total: u64 = 33 + 32 * slots + self.header.kind.backlink_size() as u64;
        if total > 0xFFFF {
            None
        } else {
            Some(total as u16)
        }
    }

    /// The memo file that writing this table starts from.
    fn fresh_memo(&self) -> (m: Option<MemoFile>)
        ensures
            memo_opt_view(m) == fresh_memo(self@),
    {
        let mut has = false;
        let mut j: usize = 0;
        while j < self.fields.len()
            invariant
                j <= self.fields@.len(),
                has == exists|k: int| 0 <= k < j && memo_type(#[trigger] fields_view(self.fields@)[k].field_type),
            decreases self.fields.len() - j,
        {
            let t = self.fields[j].field_type;
            proof {
                assert(fields_view(self.fields@)[j as int].field_type == t);
            }
            if t == FieldType::Memo || t == FieldType::General || t == FieldType::Picture {
                has = true;
            }
            j += 1;
        }
        if has {
            Some(MemoFile::create(MemoFormat::for_kind(self.header.kind)))
        } else {
            None
        }
    }
}

/// A field's entry in a structure listing.
fn field_entry(f: &FieldDescriptor) -> (t: Vec<char>)
    ensures
        t@ == field_text(f@),
{
    let line = field_structure(f);
    chars_of(line.as_str())
}

} // verus!
