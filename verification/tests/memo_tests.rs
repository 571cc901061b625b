use fastdbf::header::DbfKind;
use fastdbf::memo::{companion_extensions, title_case, MemoFile, MemoFormat};

#[test]
fn vfp_round_trip() {
    let mut memo = MemoFile::create(MemoFormat::for_kind(DbfKind::VisualFoxPro));
    let content = b"Hello, VFP memo world!";
    let ptr = memo.append(content).unwrap();
    assert_eq!(ptr, 1);
    let read_back = memo.read(ptr).unwrap();
    assert_eq!(read_back, content);
}

#[test]
fn dbase3_round_trip() {
    let mut memo = MemoFile::create(MemoFormat::for_kind(DbfKind::DBase3WithMemo));
    let content = b"DBase III memo test.";
    let ptr = memo.append(content).unwrap();
    let read_back = memo.read(ptr).unwrap();
    assert_eq!(read_back, content);
}

#[test]
fn multi_memo_sequential_blocks() {
    let mut memo = MemoFile::create(MemoFormat::for_kind(DbfKind::VisualFoxPro));
    let ptr1 = memo.append(b"First memo").unwrap();
    let ptr2 = memo.append(b"Second memo, a bit longer").unwrap();
    assert!(ptr2 > ptr1);
    assert_eq!(memo.read(ptr1).unwrap(), b"First memo");
    assert_eq!(memo.read(ptr2).unwrap(), b"Second memo, a bit longer");
}

#[test]
fn dbase4_round_trip_and_image() {
    let mut memo = MemoFile::create(MemoFormat::DBase4);
    assert_eq!(memo.bytes().len(), 512);
    let ptr = memo.append(b"four").unwrap();
    assert_eq!(ptr, 1);
    assert_eq!(memo.next_free_block(), 2);
    assert_eq!(memo.bytes().len(), 1024);
    assert_eq!(&memo.bytes()[512..520], &[4, 0, 0, 0, b'f', b'o', b'u', b'r']);
    assert_eq!(&memo.bytes()[0..4], &[2, 0, 0, 0]);
    let reopened = MemoFile::from_bytes(memo.bytes().to_vec(), MemoFormat::DBase4).unwrap();
    assert_eq!(reopened.next_free_block(), 2);
    assert_eq!(reopened.read(1).unwrap(), b"four");
}

#[test]
fn pointer_zero_reads_nothing() {
    let memo = MemoFile::create(MemoFormat::VisualFoxPro);
    assert_eq!(memo.read(0).unwrap(), Vec::<u8>::new());
}

#[test]
fn reading_past_the_end_fails() {
    let memo = MemoFile::create(MemoFormat::VisualFoxPro);
    assert!(memo.read(5).is_err());
}

#[test]
fn vfp_header_records_block_size() {
    let memo = MemoFile::create(MemoFormat::VisualFoxPro);
    assert_eq!(&memo.bytes()[0..8], &[0, 0, 0, 1, 0, 0, 2, 0]);
}

#[test]
fn large_memo_takes_several_blocks() {
    let mut memo = MemoFile::create(MemoFormat::VisualFoxPro);
    let big = vec![7u8; 1000];
    let p1 = memo.append(&big).unwrap();
    let p2 = memo.append(b"x").unwrap();
    assert_eq!(p1, 1);
    assert_eq!(p2, 3);
    assert_eq!(memo.read(p1).unwrap(), big);
    assert_eq!(memo.read(p2).unwrap(), b"x");
}

#[test]
fn formats_and_extensions() {
    assert_eq!(MemoFormat::for_kind(DbfKind::DBase3).extension(), "dbt");
    assert_eq!(MemoFormat::for_kind(DbfKind::FoxPro2WithMemo), MemoFormat::DBase4);
    assert_eq!(MemoFormat::for_kind(DbfKind::VisualFoxProVar).extension(), "fpt");
    assert_eq!(MemoFormat::DBase4.alternate(), MemoFormat::VisualFoxPro);
    assert_eq!(MemoFormat::VisualFoxPro.alternate(), MemoFormat::DBase3);
}

#[test]
fn companion_extension_candidates() {
    assert_eq!(title_case("fpt"), "Fpt");
    assert_eq!(title_case(""), "");
    assert_eq!(title_case("\u{00df}x"), "SSx");
    assert_eq!(companion_extensions("dbt"), vec!["dbt".to_string(), "DBT".to_string(), "Dbt".to_string()]);
}

#[test]
fn appends_to_an_image_with_trailing_bytes_keep_each_other() {
    // An image whose header says block 1 is free but which holds more.
    let mut bytes = vec![0u8; 512 * 3];
    bytes[0] = 1;
    for b in bytes[512..].iter_mut() {
        *b = 0x55;
    }
    let mut memo = MemoFile::from_bytes(bytes, MemoFormat::DBase4).unwrap();
    assert_eq!(memo.next_free_block(), 1);
    let p1 = memo.append(b"first").unwrap();
    let p2 = memo.append(b"second").unwrap();
    let p3 = memo.append(b"third").unwrap();
    assert!(p1 < p2 && p2 < p3);
    assert_eq!(memo.read(p1).unwrap(), b"first");
    assert_eq!(memo.read(p2).unwrap(), b"second");
    assert_eq!(memo.read(p3).unwrap(), b"third");
    assert_eq!(memo.read(0).unwrap(), b"");
}
