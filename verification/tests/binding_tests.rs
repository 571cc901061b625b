use fastdbf::binding::{
    character_from_text, check_row_width, date_from_iso, date_to_iso, datetime_from_iso,
    datetime_text_would_panic, datetime_to_iso, dbf_type_to_kind, effective_encoding,
    encoding_for_codepage, field_spec_string, field_structure, gregorian_to_julian_day,
    julian_day_to_ymd, kind_name, memo_from_text, named_position, numeric_mark_of, record_index,
    record_position, ApiErrorKind,
    TableLocation, TableStatus,
};
use fastdbf::codepage::TextEncoding;
use fastdbf::header::{CodePageMark, DbfKind};
use fastdbf::spec::FieldSpec;
use fastdbf::table::Table;
use fastdbf::value::{Date, DateTime, Value};

#[test]
fn julian_days_of_known_dates() {
    assert_eq!(gregorian_to_julian_day(2000, 1, 1), 2451545);
    assert_eq!(gregorian_to_julian_day(1970, 1, 1), 2440588);
    assert_eq!(julian_day_to_ymd(2451545), Some((2000, 1, 1)));
    assert_eq!(julian_day_to_ymd(2460000), Some((2023, 2, 24)));
    assert_eq!(julian_day_to_ymd(0), None);
    assert_eq!(julian_day_to_ymd(-5), None);
}

#[test]
fn julian_day_round_trip_on_dates() {
    for (y, m, d) in [(1989, 7, 23), (2024, 2, 29), (1900, 3, 1), (2155, 12, 31), (1, 1, 1)] {
        let jd = gregorian_to_julian_day(y, m, d);
        assert_eq!(julian_day_to_ymd(jd), Some((y, m as u32, d as u32)));
    }
}

#[test]
fn iso_texts() {
    assert_eq!(date_to_iso(Date::new(1989, 7, 3)), "1989-07-03");
    assert_eq!(datetime_to_iso(DateTime::new(2451545, 45_296_007)), "2000-01-01T12:34:56.007");
    assert_eq!(datetime_to_iso(DateTime::new(2451545, -10)), "2000-01-01T00:00:00.000");
    assert_eq!(datetime_to_iso(DateTime::new(0, 5)), "julian:0 millis:5");
    assert_eq!(datetime_to_iso(DateTime::new(-3, -4)), "julian:-3 millis:-4");
    assert_eq!(datetime_to_iso(DateTime::new(1, 0)), "-4713-11-25T00:00:00.000");
}

#[test]
fn reading_iso_date_times() {
    let dt = datetime_from_iso("2000-01-01T12:34:56.007").unwrap();
    assert_eq!(dt, DateTime::new(2451545, 45_296_007));
    assert_eq!(datetime_from_iso("2000-01-01T00:00:01.5").unwrap().millis_since_midnight, 1_500);
    assert_eq!(datetime_from_iso("2000-01-01T00:00:01.25").unwrap().millis_since_midnight, 1_250);
    assert_eq!(datetime_from_iso("2000-01-01T00:00:01.123456").unwrap().millis_since_midnight, 1_123);
    assert_eq!(datetime_from_iso("20000101T00:00:00").unwrap().julian_day, 2451545);
    assert_eq!(datetime_from_iso("2000-01-01 00:00:00").unwrap_err().kind, ApiErrorKind::Value);
    assert_eq!(datetime_from_iso("2000-01-01T00:00").unwrap_err().kind, ApiErrorKind::Value);
    assert_eq!(datetime_from_iso("2000-01-01Tx:00:00").unwrap_err().kind, ApiErrorKind::Value);
    assert_eq!(datetime_from_iso("2000-01-01T00:00:00.ab").unwrap_err().kind, ApiErrorKind::Value);
    assert_eq!(datetime_from_iso("T00:00:00").unwrap_err().kind, ApiErrorKind::Value);
    assert_eq!(datetime_from_iso("2000-1-1T00:00:00").unwrap_err().kind, ApiErrorKind::DbfFormat);
    assert!(!datetime_text_would_panic("2000-01-01T00:00:00.1"));
    assert!(!datetime_text_would_panic("2000-01-01T00:00:00.1\u{00e9}\u{00e9}"));
    assert!(datetime_text_would_panic("2000-01-01T00:00:00.1\u{20ac}"));
    assert!(datetime_text_would_panic("2000-01-01T99999:00:00"));
    assert!(!datetime_text_would_panic("2000-01-01T1193:00:00"));
}

#[test]
fn reading_iso_dates() {
    assert_eq!(date_from_iso("1989-07-23").unwrap(), Some(Date::new(1989, 7, 23)));
    assert_eq!(date_from_iso("  ").unwrap(), None);
    assert_eq!(date_from_iso("1989-7-23").unwrap_err().kind, ApiErrorKind::DbfFormat);
}

#[test]
fn status_and_location() {
    assert_eq!(TableStatus::for_mode(Some("r")), TableStatus::ReadOnly);
    assert_eq!(TableStatus::for_mode(Some("read_only")), TableStatus::ReadOnly);
    assert_eq!(TableStatus::for_mode(Some("w")), TableStatus::ReadWrite);
    assert_eq!(TableStatus::for_mode(None), TableStatus::ReadWrite);
    assert_eq!(TableStatus::Closed.on_enter(), TableStatus::ReadWrite);
    assert_eq!(TableStatus::ReadOnly.on_enter(), TableStatus::ReadOnly);
    assert_eq!(TableStatus::ReadOnly.repr(), "TableStatus.ReadOnly");
    assert_eq!(TableStatus::ReadWrite.text(), "read_write");
    assert_eq!(TableLocation::of(true), TableLocation::OnDisk);
    assert_eq!(TableLocation::InMemory.text(), "in_memory");
    assert_eq!(TableLocation::OnDisk.repr(), "TableLocation.OnDisk");
    assert!(TableStatus::Closed.require_open().is_err());
    assert!(TableStatus::ReadOnly.require_open().is_ok());
    assert_eq!(TableStatus::ReadOnly.require_read_write().unwrap_err().kind, ApiErrorKind::Runtime);
    assert!(TableStatus::ReadWrite.require_read_write().is_ok());
    assert!(TableStatus::ReadWrite.writes_on_close(Some("t.dbf")));
    assert!(!TableStatus::ReadWrite.writes_on_close(Some(":memory:")));
    assert!(!TableStatus::ReadWrite.writes_on_close(None));
    assert!(!TableStatus::ReadOnly.writes_on_close(Some("t.dbf")));
    assert!(!TableStatus::Closed.writes_on_close(Some("t.dbf")));
}

#[test]
fn kinds_by_name() {
    assert_eq!(dbf_type_to_kind(None).unwrap(), None);
    assert_eq!(dbf_type_to_kind(Some("  ")).unwrap(), None);
    assert_eq!(dbf_type_to_kind(Some(" VFP ")).unwrap(), Some(DbfKind::VisualFoxPro));
    assert_eq!(dbf_type_to_kind(Some("dbase4withmemo")).unwrap(), Some(DbfKind::DBase4WithMemo));
    assert_eq!(dbf_type_to_kind(Some("xyz")).unwrap_err().kind, ApiErrorKind::Value);
    assert_eq!(kind_name(DbfKind::FoxPro2WithMemo), "FoxPro2WithMemo");
}

#[test]
fn codepage_arguments() {
    assert_eq!(numeric_mark_of("0xC9"), Some(0xC9));
    assert_eq!(numeric_mark_of("03"), Some(0x03));
    assert_eq!(numeric_mark_of("200"), Some(200));
    assert_eq!(numeric_mark_of("cp1252"), None);
    assert_eq!(encoding_for_codepage("0xC9").unwrap(), Some(TextEncoding::Windows1251));
    assert_eq!(encoding_for_codepage("cp1252").unwrap(), Some(TextEncoding::Windows1252));
    assert_eq!(encoding_for_codepage("nope").unwrap_err().kind, ApiErrorKind::Value);
    assert_eq!(effective_encoding(None, CodePageMark(0x03)), Some(TextEncoding::Windows1252));
    assert_eq!(
        effective_encoding(Some(TextEncoding::Big5), CodePageMark(0x03)),
        Some(TextEncoding::Big5)
    );
}

#[test]
fn field_spec_strings() {
    let table = Table::new("name C(25) null; age N(3,0); n I; when T; notes M").unwrap();
    let f = table.fields();
    assert_eq!(field_spec_string(&f[0]), "NAME C(25)");
    assert_eq!(field_structure(&f[0]), "NAME C(25) null");
    assert_eq!(field_spec_string(&f[1]), "AGE N(3,0)");
    assert_eq!(field_spec_string(&f[2]), "N I");
    assert_eq!(field_spec_string(&f[3]), "WHEN T");
    assert_eq!(field_spec_string(&f[4]), "NOTES M");
}

#[test]
fn rows_and_values() {
    assert_eq!(record_index(3, 2).unwrap(), 2);
    assert_eq!(record_index(3, 3).unwrap_err().kind, ApiErrorKind::Key);
    assert!(check_row_width(2, 2).is_ok());
    assert_eq!(check_row_width(1, 2).unwrap_err().message, "append sequence width 1 does not match table width 2");
    assert_eq!(
        character_from_text("Stra\u{00df}e", Some(TextEncoding::Windows1252)).unwrap(),
        Value::Character("Stra\u{00df}e".into())
    );
    assert_eq!(
        character_from_text("\u{041F}", Some(TextEncoding::Windows1252)).unwrap_err().kind,
        ApiErrorKind::Value
    );
    assert_eq!(memo_from_text("\u{00df}", Some(TextEncoding::Windows1252)), Value::Memo(vec![0xDF]));
    assert_eq!(memo_from_text("\u{00df}", None), Value::Memo(vec![0xC3, 0x9F]));
}

#[test]
fn kind_names_are_accepted_back() {
    for kind in [
        DbfKind::DBase3,
        DbfKind::DBase3WithMemo,
        DbfKind::FoxPro2WithMemo,
        DbfKind::VisualFoxPro,
        DbfKind::VisualFoxProAutoIncrement,
        DbfKind::VisualFoxProVar,
        DbfKind::DBase4WithMemo,
    ] {
        assert_eq!(dbf_type_to_kind(Some(kind_name(kind))).unwrap(), Some(kind));
    }
}

#[test]
fn field_positions_by_name_and_index() {
    let table = Table::new("name C(5); age N(3,0)").unwrap();
    assert_eq!(named_position(table.fields(), " Age ").unwrap(), 1);
    let missing = named_position(table.fields(), "nope").unwrap_err();
    assert_eq!(missing.kind, ApiErrorKind::Key);
    assert_eq!(missing.message, "field not found: NOPE");
    assert_eq!(record_position(2, -1).unwrap(), 1);
    assert_eq!(record_position(2, 2).unwrap_err().kind, ApiErrorKind::Key);
    assert_eq!(record_position(2, -3).unwrap_err().message, "record index out of range: -3");
}

#[test]
fn time_parts_to_visual_foxpro() {
    let dt = fastdbf::binding::iso_datetime_parts_to_vfp(Date::new(1970, 1, 1), "01:02:03.4").unwrap();
    assert_eq!(dt, DateTime::new(2440588, 3_723_400));
    assert_eq!(
        fastdbf::binding::iso_datetime_parts_to_vfp(Date::new(1970, 1, 1), "01:02").unwrap_err().kind,
        ApiErrorKind::Value
    );
}

#[test]
fn structure_text_parses_back() {
    let table = Table::new("name C(25) null; score B(8,2); when T; amount N(10,3) null; n I").unwrap();
    for field in table.fields() {
        let spec = FieldSpec::parse_one(&field_structure(field)).unwrap();
        assert_eq!(spec.name, field.name);
        assert_eq!(spec.field_type, field.field_type);
        assert_eq!(spec.length, field.length);
        assert_eq!(spec.decimals, field.decimals);
        assert_eq!(spec.nullable, field.is_nullable());
    }
    assert_eq!(field_structure(&table.fields()[1]), "SCORE B(8,2)");
}

#[test]
fn iso_date_times_read_back() {
    for (y, m, d, ms) in [(2024u16, 2u8, 29u8, 0i32), (1, 1, 1, 86_399_999), (9999, 12, 31, 45_296_007)] {
        let jd = gregorian_to_julian_day(y as i32, m as i32, d as i32);
        let dt = DateTime::new(jd, ms);
        let text = datetime_to_iso(dt);
        assert_eq!(datetime_from_iso(&text).unwrap(), dt);
    }
}

#[test]
fn iso_dates_read_back() {
    for d in [Date::new(1989, 7, 23), Date::new(1, 1, 1), Date::new(9999, 12, 31), Date::new(2024, 2, 29)] {
        assert_eq!(date_from_iso(&date_to_iso(d)).unwrap(), Some(d));
    }
}
