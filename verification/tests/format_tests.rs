use fastdbf::codec::{
    blank_bytes_for_null, decode_header, decode_update_date, encode_field_descriptor, encode_header,
    encode_value, null_bit_is_set, nullable_len, parse_value, set_null_bit, Outcome,
};
use fastdbf::error::Error;
use fastdbf::header::{CodePageMark, DbfKind, FieldDescriptor, FieldType, Header};
use fastdbf::record::index_of;
use fastdbf::spec::FieldSpec;
use fastdbf::value::{Date, Value};

#[test]
fn header_bytes_read_back() {
    let header = Header {
        kind: DbfKind::FoxPro2WithMemo,
        last_update: Some(Date::new(2024, 5, 17)),
        record_count: 70000,
        header_length: 97,
        record_length: 31,
        code_page: CodePageMark(0x57),
    };
    let raw = encode_header(&header);
    assert_eq!(raw.len(), 32);
    assert_eq!(raw[0], 0xF5);
    assert_eq!(&raw[1..4], &[124, 5, 17]);
    assert_eq!(decode_header(&raw).unwrap(), header);
}

#[test]
fn update_dates() {
    assert_eq!(decode_update_date(124, 5, 17), Some(Date::new(2024, 5, 17)));
    assert_eq!(decode_update_date(0, 5, 17), None);
    assert_eq!(decode_update_date(99, 0, 1), None);
}

#[test]
fn descriptor_bytes_layout() {
    let field = FieldDescriptor {
        name: "AMOUNT".into(),
        field_type: FieldType::Numeric,
        offset: 258,
        length: 10,
        decimals: 2,
        flags: 0x02,
        nullable_index: Some(0),
    };
    let raw = encode_field_descriptor(&field);
    assert_eq!(raw.len(), 32);
    assert_eq!(&raw[0..11], b"AMOUNT\0\0\0\0\0");
    assert_eq!(raw[11], b'N');
    assert_eq!(&raw[12..16], &[2, 1, 0, 0]);
    assert_eq!(&raw[16..19], &[10, 2, 2]);
}

#[test]
fn null_bits() {
    let mut bits = vec![0u8, 0u8];
    set_null_bit(&mut bits, 9);
    assert_eq!(bits, vec![0, 2]);
    assert!(null_bit_is_set(&bits, 9));
    assert!(!null_bit_is_set(&bits, 8));
    assert!(!null_bit_is_set(&bits, 40));
    set_null_bit(&mut bits, 40);
    assert_eq!(bits, vec![0, 2]);
    assert_eq!(nullable_len(0).unwrap(), 0);
    assert_eq!(nullable_len(9).unwrap(), 2);
    assert!(matches!(nullable_len(2041), Err(Error::InvalidFieldSpec(_))));
}

#[test]
fn null_placeholders() {
    let mut field = FieldDescriptor {
        name: "X".into(),
        field_type: FieldType::Logical,
        offset: 1,
        length: 1,
        decimals: 0,
        flags: 0x02,
        nullable_index: Some(0),
    };
    assert_eq!(blank_bytes_for_null(&field), vec![b'?']);
    field.field_type = FieldType::Integer;
    field.length = 4;
    assert_eq!(blank_bytes_for_null(&field), vec![0, 0, 0, 0]);
    field.field_type = FieldType::Character;
    field.length = 3;
    assert_eq!(blank_bytes_for_null(&field), b"   ".to_vec());
}

#[test]
fn kinds_and_types() {
    assert_eq!(DbfKind::from_version(0x30).unwrap(), DbfKind::VisualFoxPro);
    assert!(matches!(DbfKind::from_version(0x99), Err(Error::Unsupported(_))));
    assert_eq!(DbfKind::DBase4WithMemo.version_byte(), 0x8B);
    assert!(DbfKind::VisualFoxProVar.is_vfp());
    assert!(!DbfKind::DBase3.is_vfp());
    assert_eq!(DbfKind::VisualFoxPro.backlink_size(), 263);
    assert_eq!(DbfKind::DBase3.backlink_size(), 0);
    assert_eq!(FieldType::from_byte(b'@').unwrap(), FieldType::DateTime);
    assert!(matches!(FieldType::from_byte(b'Z'), Err(Error::Unsupported(_))));
    assert_eq!(FieldType::Currency.symbol(), b'Y');
    assert_eq!(FieldType::Double.fixed_length(), Some(8));
    assert_eq!(FieldType::Character.fixed_length(), None);
    assert!(FieldType::DateTime.requires_vfp());
    assert!(!FieldType::Memo.requires_vfp());
    assert_eq!(FieldType::Numeric.default_value(), Value::Numeric("0".into()));
}

#[test]
fn field_spec_parsing() {
    let specs = FieldSpec::parse_many(" name C(25) ; ; age n(3,1) null; when @ nullable").unwrap();
    assert_eq!(specs.len(), 3);
    assert_eq!(specs[0].name, "NAME");
    assert_eq!(specs[0].length, 25);
    assert_eq!(specs[1].field_type, FieldType::Numeric);
    assert_eq!((specs[1].length, specs[1].decimals, specs[1].nullable), (3, 1, true));
    assert_eq!(specs[2].field_type, FieldType::DateTime);
    assert_eq!(specs[2].length, 8);
    let one = FieldSpec::parse_one("flag L").unwrap();
    assert_eq!(one.length, 1);
    let d = one.to_descriptor(5);
    assert_eq!((d.offset, d.length, d.flags), (5, 1, 0));
}

#[test]
fn field_spec_errors() {
    assert!(matches!(FieldSpec::parse_one("name"), Err(Error::InvalidFieldSpec(_))));
    assert!(matches!(FieldSpec::parse_one("averyveryverylongname C(2)"), Err(Error::InvalidFieldSpec(_))));
    assert!(matches!(FieldSpec::parse_one("na-me C(2)"), Err(Error::InvalidFieldSpec(_))));
    assert!(matches!(FieldSpec::parse_one("name Q(2)"), Err(Error::Unsupported(_))));
    assert!(matches!(FieldSpec::parse_one("name C(x)"), Err(Error::InvalidFieldSpec(_))));
    assert!(matches!(FieldSpec::parse_one("name C(0)"), Err(Error::InvalidFieldSpec(_))));
    assert!(matches!(FieldSpec::parse_one("name C(2) maybe"), Err(Error::InvalidFieldSpec(_))));
    assert!(matches!(FieldSpec::parse_many("a C(2); b Q"), Err(Error::Unsupported(_))));
}

#[test]
fn nullable_fields_make_visual_foxpro_tables() {
    let specs = FieldSpec::parse_many("a C(2) null").unwrap();
    let table = fastdbf::table::Table::from_specs(specs, Some(DbfKind::DBase3)).unwrap();
    assert_eq!(table.header().kind, DbfKind::VisualFoxPro);
}

#[test]
fn dates_as_text() {
    assert_eq!(Date::parse_ymd(" 19890723 ").unwrap(), Some(Date::new(1989, 7, 23)));
    assert_eq!(Date::parse_ymd("        ").unwrap(), None);
    assert!(matches!(Date::parse_ymd("1989-07"), Err(Error::InvalidFormat(_))));
    assert_eq!(Date::new(5, 1, 2).to_ymd_string(), "00050102");
}

#[test]
fn field_lookup_is_case_insensitive() {
    let specs = FieldSpec::parse_many("name C(5); age N(3,0)").unwrap();
    let descriptors: Vec<FieldDescriptor> = vec![specs[0].to_descriptor(1), specs[1].to_descriptor(6)];
    assert_eq!(index_of(&descriptors, " age").unwrap(), 1);
    match index_of(&descriptors, "x") {
        Err(Error::FieldNotFound(n)) => assert_eq!(n, "X"),
        _ => panic!("expected a missing field"),
    }
}

#[test]
fn ymd_text_reads_back() {
    for d in [Date::new(1989, 7, 23), Date::new(5, 1, 2), Date::new(9999, 12, 31), Date::new(0, 0, 0)] {
        assert_eq!(Date::parse_ymd(&d.to_ymd_string()).unwrap(), Some(d));
    }
}

#[test]
fn fixed_size_values_read_back_from_wider_fields() {
    let cases = [
        (FieldType::Date, 10u8, Value::Date(Some(Date::new(1989, 7, 23)))),
        (FieldType::Logical, 5, Value::Logical(Some(true))),
        (FieldType::Logical, 5, Value::Logical(None)),
        (FieldType::Integer, 6, Value::Integer(-7)),
    ];
    for (field_type, length, value) in cases {
        let field = FieldDescriptor {
            name: "X".into(),
            field_type,
            offset: 1,
            length,
            decimals: 0,
            flags: 0,
            nullable_index: None,
        };
        let mut memo = None;
        let bytes = match encode_value(&field, &value, &mut memo, None) {
            Outcome::Done(b) => b,
            _ => panic!("value did not encode"),
        };
        match parse_value(&field, &bytes, false, None, None) {
            Outcome::Done(v) => assert_eq!(v, value),
            _ => panic!("value did not read back"),
        }
    }
}
