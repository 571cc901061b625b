use std::path::PathBuf;

use fastdbf::error::Error;
use fastdbf::header::{DbfKind, FieldType};
use fastdbf::memo::MemoFile;
use fastdbf::record::Record;
use fastdbf::spec::FieldSpec;
use fastdbf::table::Table;
use fastdbf::value::{Date, DateTime, Value};

fn today() -> Date {
    Date::new(2024, 5, 17)
}

fn write_and_reopen(table: &mut Table, name: &str) -> Table {
    assert!(!table.write_would_panic(today()));
    let bytes = table.write_image(PathBuf::from(name), today()).unwrap();
    let memo: Option<MemoFile> = table.memo_file.take();
    assert!(!Table::read_would_panic(&bytes, memo.as_ref()));
    Table::from_bytes(PathBuf::from(name), &bytes, memo).unwrap()
}

#[test]
fn field_spec_parser_handles_common_types() {
    let table = Table::new("name C(25); age N(3,0); birth D; qualified L").unwrap();
    assert_eq!(table.fields().len(), 4);
    assert_eq!(table.fields()[0].name, "NAME");
    assert_eq!(table.fields()[1].length, 3);
    assert_eq!(table.fields()[2].field_type, FieldType::Date);
}

#[test]
fn round_trip_nullable_vfp_fields() {
    let mut table =
        Table::new("name C(10) null; age N(3,0) null; when T null; active L null").unwrap();
    let mut record = table.new_record();
    record.insert(table.fields(), "name", Value::Null).unwrap();
    record.insert(table.fields(), "age", Value::Null).unwrap();
    record.insert(table.fields(), "when", Value::Null).unwrap();
    record.insert(table.fields(), "active", Value::Null).unwrap();
    table.push_record(record).unwrap();

    let reopened = write_and_reopen(&mut table, "nullable.dbf");
    assert!(reopened.null_flags().is_some());
    assert_eq!(reopened.records()[0].get(reopened.fields(), "NAME").unwrap(), &Value::Null);
    assert_eq!(reopened.records()[0].get(reopened.fields(), "AGE").unwrap(), &Value::Null);
}

#[test]
fn round_trip_write_and_read() {
    let mut table =
        Table::new("name C(10); age N(3,0); birth D; qualified L; score B; counter I").unwrap();
    let mut record = table.new_record();
    record.insert(table.fields(), "name", Value::Character("Spunky".into())).unwrap();
    record.insert(table.fields(), "age", Value::Numeric("23".into())).unwrap();
    record
        .insert(table.fields(), "birth", Value::Date(Some(Date::new(1989, 7, 23))))
        .unwrap();
    record.insert(table.fields(), "qualified", Value::Logical(Some(true))).unwrap();
    record.insert(table.fields(), "score", Value::Double(4.5f64.to_bits())).unwrap();
    record.insert(table.fields(), "counter", Value::Integer(7)).unwrap();
    table.push_record(record).unwrap();

    let reopened = write_and_reopen(&mut table, "roundtrip.dbf");
    assert_eq!(reopened.records().len(), 1);
    assert_eq!(
        reopened.records()[0].get(reopened.fields(), "NAME").unwrap(),
        &Value::Character("Spunky".into())
    );
    assert_eq!(
        reopened.records()[0].get(reopened.fields(), "QUALIFIED").unwrap(),
        &Value::Logical(Some(true))
    );
}

#[test]
fn every_value_reads_back() {
    let mut table = Table::new(
        "name C(10); age N(5,1); birth D; ok L; score B; counter I; seen T; cost Y; notes M",
    )
    .unwrap();
    assert_eq!(table.header().kind, DbfKind::VisualFoxPro);
    let values = vec![
        Value::Character("Ann".into()),
        Value::Numeric("-12.5".into()),
        Value::Date(Some(Date::new(2024, 2, 29))),
        Value::Logical(Some(false)),
        Value::Double((-0.25f64).to_bits()),
        Value::Integer(-7),
        Value::DateTime(Some(DateTime::new(2460000, 43_200_000))),
        Value::Currency(-123456789),
        Value::Memo(b"a long note".to_vec()),
    ];
    table.push_record(Record::from_values(true, values.clone())).unwrap();
    table
        .push_record(Record::from_values(
            false,
            vec![
                Value::Character("".into()),
                Value::Null,
                Value::Date(None),
                Value::Logical(None),
                Value::Double(0),
                Value::Integer(0),
                Value::DateTime(None),
                Value::Currency(0),
                Value::Memo(Vec::new()),
            ],
        ))
        .unwrap();
    let reopened = write_and_reopen(&mut table, "all.dbf");
    assert_eq!(reopened.records().len(), 2);
    assert!(reopened.records()[0].is_deleted());
    assert_eq!(reopened.records()[0].values(), values.as_slice());
    assert!(!reopened.records()[1].is_deleted());
    assert_eq!(reopened.records()[1].values()[1], Value::Null);
    assert_eq!(reopened.records()[1].values()[2], Value::Date(None));
    assert_eq!(reopened.records()[1].values()[6], Value::DateTime(None));
    assert_eq!(reopened.records()[1].values()[8], Value::Memo(Vec::new()));
    assert_eq!(reopened.header().record_count, 2);
    assert_eq!(reopened.fields(), table.fields());
}

#[test]
fn dbase3_memo_table_round_trip() {
    let specs = FieldSpec::parse_many("name C(8); notes M").unwrap();
    let mut table = Table::from_specs(specs, Some(DbfKind::DBase3WithMemo)).unwrap();
    table
        .push_record(Record::from_values(
            false,
            vec![Value::Character("x".into()), Value::Memo(b"first".to_vec())],
        ))
        .unwrap();
    table
        .push_record(Record::from_values(
            false,
            vec![Value::Character("y".into()), Value::Memo(b"second".to_vec())],
        ))
        .unwrap();
    let reopened = write_and_reopen(&mut table, "memo3.dbf");
    assert_eq!(reopened.records()[0].values()[1], Value::Memo(b"first".to_vec()));
    assert_eq!(reopened.records()[1].values()[1], Value::Memo(b"second".to_vec()));
}

#[test]
fn written_image_layout() {
    let mut table = Table::new("a C(3)").unwrap();
    table.push_record(Record::from_values(false, vec![Value::Character("hi".into())])).unwrap();
    let bytes = table.write_image(PathBuf::from("layout.dbf"), today()).unwrap();
    assert_eq!(&bytes[1..4], &[124, 5, 17]);
    assert_eq!(table.header().last_update, Some(today()));
    assert_eq!(bytes[0], 0x03);
    assert_eq!(&bytes[4..8], &[1, 0, 0, 0]);
    assert_eq!(&bytes[8..10], &[65, 0]);
    assert_eq!(&bytes[10..12], &[4, 0]);
    assert_eq!(&bytes[32..35], b"A\0\0");
    assert_eq!(bytes[43], b'C');
    assert_eq!(bytes[64], 0x0D);
    assert_eq!(&bytes[65..69], b" hi ");
    assert_eq!(bytes[69], 0x1A);
    assert_eq!(bytes.len(), 70);
    assert!(table.memo_file.is_none());
    assert_eq!(table.path(), Some(&PathBuf::from("layout.dbf")));
}

#[test]
fn text_too_long_is_an_overflow() {
    let mut table = Table::new("a C(2)").unwrap();
    table.push_record(Record::from_values(false, vec![Value::Character("abc".into())])).unwrap();
    match table.write_image(PathBuf::from("long.dbf"), today()) {
        Err(Error::Overflow(_)) => {}
        other => panic!("unexpected {:?}", other.map(|b| b.len())),
    }
}

#[test]
fn value_of_the_wrong_type_is_invalid() {
    let mut table = Table::new("a L").unwrap();
    table.push_record(Record::from_values(false, vec![Value::Integer(3)])).unwrap();
    assert!(matches!(table.write_image(PathBuf::from("bad.dbf"), today()), Err(Error::InvalidFormat(_))));
}

#[test]
fn short_image_is_an_io_error() {
    assert!(matches!(Table::from_bytes(PathBuf::from("x.dbf"), &[0x03, 0, 0], None), Err(Error::Io(_))));
}

#[test]
fn unknown_version_is_unsupported() {
    let mut bytes = vec![0u8; 40];
    bytes[0] = 0x77;
    assert!(matches!(Table::from_bytes(PathBuf::from("x.dbf"), &bytes, None), Err(Error::Unsupported(_))));
}

#[test]
fn short_header_length_is_invalid() {
    let mut bytes = vec![0u8; 40];
    bytes[0] = 0x03;
    bytes[8] = 20;
    assert!(matches!(Table::from_bytes(PathBuf::from("x.dbf"), &bytes, None), Err(Error::InvalidFormat(_))));
}

#[test]
fn push_record_checks_width() {
    let mut table = Table::new("a C(2); b L").unwrap();
    assert!(matches!(
        table.push_record(Record::from_values(false, vec![Value::Null])),
        Err(Error::InvalidFormat(_))
    ));
    assert_eq!(table.records().len(), 0);
    table.push_record(table.new_record()).unwrap();
    assert_eq!(table.records().len(), 1);
    assert_eq!(table.header().record_count, 1);
}

#[test]
fn pack_keeps_live_records_in_order() {
    let mut table = Table::new("a I").unwrap();
    for (i, deleted) in [(1, false), (2, true), (3, false), (4, true)] {
        table.push_record(Record::from_values(deleted, vec![Value::Integer(i)])).unwrap();
    }
    table.pack();
    assert_eq!(table.records().len(), 2);
    assert_eq!(table.records()[0].values()[0], Value::Integer(1));
    assert_eq!(table.records()[1].values()[0], Value::Integer(3));
    assert_eq!(table.header().record_count, 2);
}

#[test]
fn schema_changes_are_unsupported() {
    let mut table = Table::new("a I").unwrap();
    assert!(matches!(table.add_fields("b L"), Err(Error::Unsupported(_))));
    assert!(matches!(table.remove_fields(&["a"]), Err(Error::Unsupported(_))));
    assert!(matches!(table.rename_field("a", "b"), Err(Error::Unsupported(_))));
}

#[test]
fn structure_and_field_info() {
    let table = Table::new("name C(25) null; age N(3,0); birth D").unwrap();
    assert_eq!(table.structure(), "NAME C(25) null; AGE N(3,0); BIRTH D");
    assert_eq!(table.field_info("age").unwrap().length, 3);
    assert!(matches!(table.field_info("nope"), Err(Error::FieldNotFound(_))));
}

#[test]
fn new_like_copies_the_fields() {
    let table = Table::new("name C(25) null; age N(3,0)").unwrap();
    let copy = table.new_like("copy.dbf", None, false).unwrap();
    assert_eq!(copy.fields(), table.fields());
    assert_eq!(copy.records().len(), 0);
}

#[test]
fn nullable_fields_get_null_flag_bits() {
    let table = Table::new("a C(2) null; b C(2); c L null").unwrap();
    assert_eq!(table.header().kind, DbfKind::VisualFoxPro);
    let flags = table.null_flags().unwrap();
    assert_eq!(flags.offset, 6);
    assert_eq!(flags.length, 1);
    assert_eq!(table.header().record_length, 7);
    assert_eq!(table.fields()[0].nullable_index, Some(0));
    assert_eq!(table.fields()[1].nullable_index, None);
    assert_eq!(table.fields()[2].nullable_index, Some(1));
    assert_eq!(table.header().header_length, 32 + 4 * 32 + 1 + 263);
}

#[test]
fn new_record_holds_empty_values() {
    let table = Table::new("a C(2); n N(6,2); d D; l L").unwrap();
    let r = table.new_record();
    assert_eq!(r.values()[0], Value::Character("".into()));
    assert_eq!(r.values()[1], Value::Numeric("0.00".into()));
    assert_eq!(r.values()[2], Value::Date(None));
    assert_eq!(r.values()[3], Value::Logical(None));
}

#[test]
fn editing_records_in_place() {
    let mut table = Table::new("a C(3); b L").unwrap();
    table.push_record(table.new_record()).unwrap();
    {
        let records = table.records_mut();
        let fields_len = records[0].values().len();
        assert_eq!(fields_len, 2);
        records[0].values_mut()[1] = Value::Logical(Some(true));
        records[0].set_deleted(true);
    }
    let fields = table.fields().to_vec();
    let mut r = table.records()[0].clone();
    *r.get_mut(&fields, "a").unwrap() = Value::Character("xy".into());
    assert_eq!(r.get(&fields, "A").unwrap(), &Value::Character("xy".into()));
    assert_eq!(table.records()[0].values()[1], Value::Logical(Some(true)));
    assert!(table.records()[0].is_deleted());
}

#[test]
fn null_values_of_types() {
    assert_eq!(Value::null_for_logical(), Value::Logical(None));
    assert_eq!(Value::null_for_date(), Value::Date(None));
    assert_eq!(Value::null_for_datetime(), Value::DateTime(None));
}

#[test]
fn field_names_match_in_any_case() {
    let table = Table::new("name C(10); age N(3,0)").unwrap();
    let a = table.field_info("name").unwrap().name.clone();
    let b = table.field_info("NAME").unwrap().name.clone();
    let c = table.field_info(" Name ").unwrap().name.clone();
    assert_eq!(a, "NAME");
    assert_eq!(a, b);
    assert_eq!(a, c);
    assert!(table.field_info("nam").is_err());
}

#[test]
fn insert_then_get_by_any_case() {
    let table = Table::new("name C(10); age N(3,0)").unwrap();
    let mut r = table.new_record();
    r.insert(table.fields(), "Name", Value::Character("Ann".into())).unwrap();
    assert_eq!(r.get(table.fields(), "NAME").unwrap(), &Value::Character("Ann".into()));
    assert_eq!(r.get(table.fields(), "age").unwrap(), &Value::Numeric("0".into()));
    assert!(r.insert(table.fields(), "missing", Value::Integer(1)).is_err());
}

#[test]
fn binary_modifier_marks_the_field() {
    let spec = FieldSpec::parse_one("notes C(10) binary").unwrap();
    assert_eq!(spec.name, "NOTES");
    assert_eq!(spec.field_type, FieldType::Character);
    assert_eq!(spec.length, 10);
    assert!(spec.binary);
    assert!(!spec.nullable);
    assert!(spec.to_descriptor(1).is_binary());
    let both = FieldSpec::parse_one("notes C(10) BINARY null").unwrap();
    assert!(both.binary && both.nullable);
    let d = both.to_descriptor(1);
    assert!(d.is_binary() && d.is_nullable());
    assert!(FieldSpec::parse_one("notes C(10) bin").is_err());
    let table = Table::new("notes C(10) binary").unwrap();
    assert_eq!(table.structure(), "NOTES C(10) BINARY");
}

#[test]
fn structure_keeps_fixed_type_decimals() {
    let table = Table::new("score B(8,2); n I; when T").unwrap();
    assert_eq!(table.structure(), "SCORE B(8,2); N I; WHEN T");
    let specs = FieldSpec::parse_many(&table.structure()).unwrap();
    assert_eq!(specs[0].decimals, 2);
    assert_eq!(specs[0].length, 8);
}

#[test]
fn visual_foxpro_image_has_backlink_and_null_flags_descriptor() {
    let mut table = Table::new("a C(2) null").unwrap();
    assert_eq!(table.header().kind, DbfKind::VisualFoxPro);
    assert_eq!(table.header().header_length, 32 + 32 * 2 + 1 + 263);
    table.push_record(Record::from_values(false, vec![Value::Character("hi".into())])).unwrap();
    let bytes = table.write_image(PathBuf::from("vfp.dbf"), today()).unwrap();
    let d = &bytes[64..96];
    assert_eq!(&d[0..10], b"_NullFlags");
    assert_eq!(d[10], 0);
    assert_eq!(d[11], b'0');
    assert_eq!(d[16], 1);
    assert_eq!(d[18], 0x05);
    assert_eq!(bytes[96], 0x0D);
    assert!(bytes[97..97 + 263].iter().all(|b| *b == 0));
    let h = u16::from_le_bytes([bytes[8], bytes[9]]) as usize;
    assert_eq!(h, 97 + 263);
    let r = table.header().record_length as usize;
    assert_eq!(bytes.len(), h + r + 1);
    assert_eq!(bytes[h + r], 0x1A);
    let reopened = Table::from_bytes(PathBuf::from("vfp.dbf"), &bytes, None).unwrap();
    assert_eq!(reopened.fields(), table.fields());
    assert_eq!(reopened.records(), table.records());
    assert_eq!(reopened.header().last_update, Some(today()));
}

#[test]
fn structure_listing_parses_back_to_the_fields() {
    let table = Table::new("name C(25) null; score B(8,2); n I; ok L; b C(3) binary; amount N(10,3)").unwrap();
    let specs = FieldSpec::parse_many(&table.structure()).unwrap();
    assert_eq!(specs.len(), table.fields().len());
    for (spec, field) in specs.iter().zip(table.fields()) {
        assert_eq!(spec.name, field.name);
        assert_eq!(spec.field_type, field.field_type);
        assert_eq!(spec.length, field.length);
        assert_eq!(spec.decimals, field.decimals);
        assert_eq!(spec.nullable, field.is_nullable());
        assert_eq!(spec.binary, field.is_binary());
    }
}

#[test]
fn joined_specification_lists_parse_as_both() {
    let a = "name C(10) null; age N(3,0)";
    let b = "ok L; ;when T";
    let mut both = FieldSpec::parse_many(a).unwrap();
    both.extend(FieldSpec::parse_many(b).unwrap());
    assert_eq!(FieldSpec::parse_many(&format!("{a};{b}")).unwrap(), both);
    assert!(FieldSpec::parse_many(&format!("{a};x Q")).is_err());
}

#[test]
fn rewriting_a_file_sizes_its_header_from_the_layout() {
    // A Visual FoxPro file written without the backlink area.
    let mut bytes = vec![0u8; 32];
    bytes[0] = 0x30;
    bytes[4] = 1;
    bytes[8] = 65;
    bytes[10] = 3;
    let mut d = vec![0u8; 32];
    d[0] = b'A';
    d[11] = b'C';
    d[12] = 1;
    d[16] = 2;
    bytes.extend_from_slice(&d);
    bytes.push(0x0D);
    bytes.extend_from_slice(b" hi");
    bytes.push(0x1A);
    assert!(!Table::read_would_panic(&bytes, None));
    let mut table = Table::from_bytes(PathBuf::from("old.dbf"), &bytes, None).unwrap();
    assert_eq!(table.header().header_length, 65);
    assert_eq!(table.records()[0].values()[0], Value::Character("hi".into()));
    let out = table.write_image(PathBuf::from("new.dbf"), today()).unwrap();
    let h = u16::from_le_bytes([out[8], out[9]]) as usize;
    assert_eq!(h, 65 + 263);
    assert_eq!(table.header().header_length as usize, h);
    assert_eq!(out[64], 0x0D);
    assert_eq!(&out[h..h + 3], b" hi");
    assert_eq!(out.len(), h + 3 + 1);
    let reopened = Table::from_bytes(PathBuf::from("new.dbf"), &out, None).unwrap();
    assert_eq!(reopened.fields(), table.fields());
    assert_eq!(reopened.records(), table.records());
}
