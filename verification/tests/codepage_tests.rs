use fastdbf::codepage::{decoded_or_lossy, encoded_unless_unmappable};
use fastdbf::codepage::{decode_bytes, encode_lossy, encode_str, encoding_for_mark, label_for_mark, mark_for_name, TextEncoding};

#[test]
fn cp1252_roundtrip() {
    let enc = encoding_for_mark(0x03).unwrap();
    let original = "Stra\u{00df}e";
    let encoded = encode_str(original, Some(enc));
    assert!(encoded.is_some());
    let decoded = decode_bytes(&encoded.unwrap(), Some(enc));
    assert_eq!(decoded, original);
}

#[test]
fn cp1251_cyrillic_roundtrip() {
    let enc = encoding_for_mark(0xC9).unwrap();
    let original = "\u{041F}\u{0440}\u{0438}\u{0432}\u{0435}\u{0442}";
    let encoded = encode_str(original, Some(enc));
    assert!(encoded.is_some());
    let decoded = decode_bytes(&encoded.unwrap(), Some(enc));
    assert_eq!(decoded, original);
}

#[test]
fn mark_round_trip() {
    assert_eq!(mark_for_name("cp1252"), Some(0x03));
    assert_eq!(mark_for_name("windows-1251"), Some(0xC9));
    assert!(encoding_for_mark(mark_for_name("cp1250").unwrap()).is_some());
}

#[test]
fn unknown_mark_returns_none() {
    assert!(encoding_for_mark(0xFF).is_none());
}

#[test]
fn cp1252_encodes_eszett_as_one_byte() {
    let enc = encoding_for_mark(0x03).unwrap();
    assert_eq!(encode_str("Stra\u{00df}e", Some(enc)).unwrap(), vec![0x53, 0x74, 0x72, 0x61, 0xDF, 0x65]);
    assert_eq!(decode_bytes(&[0xDF], Some(enc)), "\u{00df}");
}

#[test]
fn utf8_is_used_without_an_encoding() {
    assert_eq!(encode_str("\u{00df}", None).unwrap(), vec![0xC3, 0x9F]);
    assert_eq!(decode_bytes(&[0xC3, 0x9F], None), "\u{00df}");
    assert_eq!(decode_bytes(&[0xFF], None), "\u{FFFD}");
}

#[test]
fn unmappable_text_is_refused_by_strict_encoding() {
    let enc = encoding_for_mark(0x03).unwrap();
    assert!(encode_str("\u{041F}", Some(enc)).is_none());
    assert!(!encode_lossy("\u{041F}", Some(enc)).is_empty());
}

#[test]
fn mark_labels_and_names() {
    assert_eq!(label_for_mark(0x00), "unset");
    assert_eq!(label_for_mark(0x03), "CP1252");
    assert_eq!(mark_for_name("  CP866 "), Some(0x65));
    assert_eq!(mark_for_name("klingon"), None);
    assert_eq!(TextEncoding::Windows1252.label(), "windows-1252");
    assert_eq!(TextEncoding::Windows1252.name(), "windows-1252");
    assert_eq!(TextEncoding::Ibm866.name(), "IBM866");
}

#[test]
fn malformed_bytes_fall_back_to_lossy_utf8() {
    let sjis = encoding_for_mark(0x7B).unwrap();
    let raw = [0x82u8, 0xA0, 0xA0];
    assert_eq!(decode_bytes(&raw, Some(sjis)), String::from_utf8_lossy(&raw).into_owned());
    assert_eq!(decode_bytes(&raw, Some(sjis)).chars().count(), 3);
    assert_eq!(decode_bytes(&[0x82, 0xA0], Some(sjis)), "\u{3042}");
}

#[test]
fn decoder_and_encoder_answers_are_used_as_stated() {
    let raw = [0x82u8, 0xA0, 0xA0];
    assert_eq!(decoded_or_lossy(&raw, "x".to_string(), false), "x");
    assert_eq!(decoded_or_lossy(&raw, "x".to_string(), true), "\u{FFFD}\u{FFFD}\u{FFFD}");
    assert_eq!(decoded_or_lossy(b"ok", "other".to_string(), true), "ok");
    assert_eq!(encoded_unless_unmappable(vec![1, 2], false), Some(vec![1, 2]));
    assert_eq!(encoded_unless_unmappable(vec![1, 2], true), None);
}
