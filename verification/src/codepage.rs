//! Code pages: the mark byte at header offset 29, the text encoding it
//! selects, and decoding/encoding field text with `encoding_rs`.

use vstd::prelude::*;
use vstd::slice::slice_to_vec;
use vstd::utf8::{decode_utf8, encode_utf8, valid_utf8};
use crate::text::{chars_are, chars_of, lower_all, lower_chars, trim, trim_chars};

verus! {

/// The text encodings that code-page marks select. Each is identified to
/// `encoding_rs` by its label in the WHATWG Encoding Standard.
#[derive(Debug, Clone, Copy, PartialEq, Eq, Structural)]
pub enum TextEncoding {
    Ibm866,
    Windows1250,
    Windows1251,
    Windows1252,
    Windows1253,
    Windows1254,
    Windows1255,
    Windows1256,
    Windows1257,
    Iso8859_2,
    Big5,
    EucKr,
    EucJp,
    Gb18030,
    ShiftJis,
    MacCyrillic,
}

/// The Encoding Standard label of each encoding.
pub open spec fn label_of(e: TextEncoding) -> Seq<char> {
    match e {
        TextEncoding::Ibm866 => "ibm866"@,
        TextEncoding::Windows1250 => "windows-1250"@,
        TextEncoding::Windows1251 => "windows-1251"@,
        TextEncoding::Windows1252 => "windows-1252"@,
        TextEncoding::Windows1253 => "windows-1253"@,
        TextEncoding::Windows1254 => "windows-1254"@,
        TextEncoding::Windows1255 => "windows-1255"@,
        TextEncoding::Windows1256 => "windows-1256"@,
        TextEncoding::Windows1257 => "windows-1257"@,
        TextEncoding::Iso8859_2 => "iso-8859-2"@,
        TextEncoding::Big5 => "big5"@,
        TextEncoding::EucKr => "euc-kr"@,
        TextEncoding::EucJp => "euc-jp"@,
        TextEncoding::Gb18030 => "gb18030"@,
        TextEncoding::ShiftJis => "shift_jis"@,
        TextEncoding::MacCyrillic => "x-mac-cyrillic"@,
    }
}

/// `label` is the label of one of the library's encodings.
pub open spec fn standard_label(label: Seq<char>) -> bool {
    exists|e: TextEncoding| label_of(e) == label
}

impl TextEncoding {
    /// The Encoding Standard label that names this encoding.
    pub fn label(self) -> (s: &'static str)
        ensures
            s@ == label_of(self),
    {
        match self {
            TextEncoding::Ibm866 => "ibm866",
            TextEncoding::Windows1250 => "windows-1250",
            TextEncoding::Windows1251 => "windows-1251",
            TextEncoding::Windows1252 => "windows-1252",
            TextEncoding::Windows1253 => "windows-1253",
            TextEncoding::Windows1254 => "windows-1254",
            TextEncoding::Windows1255 => "windows-1255",
            TextEncoding::Windows1256 => "windows-1256",
            TextEncoding::Windows1257 => "windows-1257",
            TextEncoding::Iso8859_2 => "iso-8859-2",
            TextEncoding::Big5 => "big5",
            TextEncoding::EucKr => "euc-kr",
            TextEncoding::EucJp => "euc-jp",
            TextEncoding::Gb18030 => "gb18030",
            TextEncoding::ShiftJis => "shift_jis",
            TextEncoding::MacCyrillic => "x-mac-cyrillic",
        }
    }
}

/// The encoding that each code-page mark selects, where there is one.
pub open spec fn encoding_of_mark(mark: u8) -> Option<TextEncoding> {
    match mark {
        0x01 | 0x02 | 0x04 | 0x08 | 0x09 | 0x0A | 0x0B | 0x0D | 0x0E | 0x0F | 0x10 | 0x11 | 0x12 | 0x13 | 0x14 | 0x15 | 0x16 | 0x17 | 0x18 | 0x19 | 0x1A | 0x1B | 0x1D | 0x1F | 0x22 | 0x23 | 0x24 | 0x25 | 0x26 | 0x40 | 0x64 | 0x65 | 0x66 | 0x67 | 0x6A | 0x6B | 0x6C | 0x6D | 0x6E => Some(TextEncoding::Ibm866),
        0x03 | 0x57 | 0x58 | 0x59 => Some(TextEncoding::Windows1252),
        0x1C => Some(TextEncoding::Iso8859_2),
        0x4D | 0x4F | 0x78 => Some(TextEncoding::Big5),
        0x4E | 0x79 | 0x7C => Some(TextEncoding::EucKr),
        0x50 => Some(TextEncoding::EucJp),
        0x7A => Some(TextEncoding::Gb18030),
        0x7B => Some(TextEncoding::ShiftJis),
        0x7D => Some(TextEncoding::Windows1255),
        0x7E => Some(TextEncoding::Windows1256),
        0x96 => Some(TextEncoding::MacCyrillic),
        0xC8 => Some(TextEncoding::Windows1250),
        0xC9 => Some(TextEncoding::Windows1251),
        0xCA => Some(TextEncoding::Windows1254),
        0xCB => Some(TextEncoding::Windows1253),
        0xCC => Some(TextEncoding::Windows1257),
        _ => None,
    }
}

/// The encoding that a code-page mark selects (`None` for unknown marks,
/// for `0x00` and for the Macintosh marks that have no encoding here).
pub fn encoding_for_mark(mark: u8) -> (r: Option<TextEncoding>)
    ensures
        r == encoding_of_mark(mark),
{
    match mark {
        0x01 | 0x02 | 0x04 | 0x08 | 0x09 | 0x0A | 0x0B | 0x0D | 0x0E | 0x0F | 0x10 | 0x11 | 0x12 | 0x13 | 0x14 | 0x15 | 0x16 | 0x17 | 0x18 | 0x19 | 0x1A | 0x1B | 0x1D | 0x1F | 0x22 | 0x23 | 0x24 | 0x25 | 0x26 | 0x40 | 0x64 | 0x65 | 0x66 | 0x67 | 0x6A | 0x6B | 0x6C | 0x6D | 0x6E => Some(TextEncoding::Ibm866),
        0x03 | 0x57 | 0x58 | 0x59 => Some(TextEncoding::Windows1252),
        0x1C => Some(TextEncoding::Iso8859_2),
        0x4D | 0x4F | 0x78 => Some(TextEncoding::Big5),
        0x4E | 0x79 | 0x7C => Some(TextEncoding::EucKr),
        0x50 => Some(TextEncoding::EucJp),
        0x7A => Some(TextEncoding::Gb18030),
        0x7B => Some(TextEncoding::ShiftJis),
        0x7D => Some(TextEncoding::Windows1255),
        0x7E => Some(TextEncoding::Windows1256),
        0x96 => Some(TextEncoding::MacCyrillic),
        0xC8 => Some(TextEncoding::Windows1250),
        0xC9 => Some(TextEncoding::Windows1251),
        0xCA => Some(TextEncoding::Windows1254),
        0xCB => Some(TextEncoding::Windows1253),
        0xCC => Some(TextEncoding::Windows1257),
        _ => None,
    }
}

/// The human-readable name of each code-page mark.
pub open spec fn mark_label(mark: u8) -> Seq<char> {
    if mark == 0x00 {
        "unset"@
    } else if mark == 0x01 {
        "CP437"@
    } else if mark == 0x02 {
        "CP850"@
    } else if mark == 0x03 {
        "CP1252"@
    } else if mark == 0x04 {
        "MacRoman"@
    } else if 0x08 <= mark && mark <= 0x1B {
        "CP850 (OEM variant)"@
    } else if mark == 0x1C || mark == 0x1D {
        "ISO-8859-2"@
    } else if mark == 0x26 {
        "CP866"@
    } else if mark == 0x40 {
        "CP852 (Romanian)"@
    } else if mark == 0x4D {
        "GBK"@
    } else if mark == 0x4E {
        "EUC-KR"@
    } else if mark == 0x4F {
        "Big5"@
    } else if 0x57 <= mark && mark <= 0x59 {
        "CP1252"@
    } else if mark == 0x64 {
        "CP852"@
    } else if mark == 0x65 {
        "CP866"@
    } else if mark == 0x78 {
        "Big5"@
    } else if mark == 0x79 {
        "EUC-KR"@
    } else if mark == 0x7A {
        "GB18030"@
    } else if mark == 0x7B {
        "Shift-JIS"@
    } else if mark == 0x7D {
        "CP1255"@
    } else if mark == 0x7E {
        "CP1256"@
    } else if mark == 0x96 {
        "Mac Cyrillic"@
    } else if mark == 0x97 {
        "Mac CE"@
    } else if mark == 0x98 {
        "Mac Greek"@
    } else if mark == 0xC8 {
        "CP1250"@
    } else if mark == 0xC9 {
        "CP1251"@
    } else if mark == 0xCA {
        "CP1254"@
    } else if mark == 0xCB {
        "CP1253"@
    } else if mark == 0xCC {
        "CP1257"@
    } else {
        "unknown"@
    }
}

/// Human-readable label for a code-page mark, for messages and `repr`.
pub fn label_for_mark(mark: u8) -> (s: &'static str)
    ensures
        s@ == mark_label(mark),
{
    match mark {
        0x00 => "unset",
        0x01 => "CP437",
        0x02 => "CP850",
        0x03 => "CP1252",
        0x04 => "MacRoman",
        0x08..=0x1B => "CP850 (OEM variant)",
        0x1C | 0x1D => "ISO-8859-2",
        0x26 => "CP866",
        0x40 => "CP852 (Romanian)",
        0x4D => "GBK",
        0x4E => "EUC-KR",
        0x4F => "Big5",
        0x57..=0x59 => "CP1252",
        0x64 => "CP852",
        0x65 => "CP866",
        0x78 => "Big5",
        0x79 => "EUC-KR",
        0x7A => "GB18030",
        0x7B => "Shift-JIS",
        0x7D => "CP1255",
        0x7E => "CP1256",
        0x96 => "Mac Cyrillic",
        0x97 => "Mac CE",
        0x98 => "Mac Greek",
        0xC8 => "CP1250",
        0xC9 => "CP1251",
        0xCA => "CP1254",
        0xCB => "CP1253",
        0xCC => "CP1257",
        _ => "unknown",
    }
}

/// The mark for an encoding name or alias, after ASCII-lowercasing and
/// trimming the name.
pub open spec fn mark_of_name(name: Seq<char>) -> Option<u8> {
    let t = trim(lower_all(name));
    if t == "cp437"@ || t == "ibm437"@ {
        Some(0x01u8)
    } else if t == "cp850"@ || t == "ibm850"@ {
        Some(0x02u8)
    } else if t == "cp1252"@ || t == "windows-1252"@ || t == "windows_1252"@ || t == "ansi"@ || t == "latin-1"@ || t == "iso-8859-1"@ {
        Some(0x03u8)
    } else if t == "cp866"@ || t == "ibm866"@ {
        Some(0x65u8)
    } else if t == "cp852"@ || t == "ibm852"@ {
        Some(0x64u8)
    } else if t == "cp1250"@ || t == "windows-1250"@ || t == "windows_1250"@ {
        Some(0xC8u8)
    } else if t == "cp1251"@ || t == "windows-1251"@ || t == "windows_1251"@ {
        Some(0xC9u8)
    } else if t == "cp1253"@ || t == "windows-1253"@ || t == "windows_1253"@ {
        Some(0xCBu8)
    } else if t == "cp1254"@ || t == "windows-1254"@ || t == "windows_1254"@ {
        Some(0xCAu8)
    } else if t == "cp1255"@ || t == "windows-1255"@ || t == "windows_1255"@ {
        Some(0x7Du8)
    } else if t == "cp1256"@ || t == "windows-1256"@ || t == "windows_1256"@ {
        Some(0x7Eu8)
    } else if t == "cp1257"@ || t == "windows-1257"@ || t == "windows_1257"@ {
        Some(0xCCu8)
    } else if t == "shift-jis"@ || t == "shift_jis"@ || t == "sjis"@ || t == "shiftjis"@ {
        Some(0x7Bu8)
    } else if t == "euc-kr"@ || t == "euc_kr"@ {
        Some(0x7Cu8)
    } else if t == "big5"@ {
        Some(0x7Au8)
    } else if t == "gb18030"@ || t == "gbk"@ || t == "gb2312"@ {
        Some(0x7Au8)
    } else if t == "utf-8"@ || t == "utf8"@ {
        Some(0x00u8)
    } else {
        None
    }
}

/// The code-page mark for an encoding name or alias (e.g. `"cp1252"`,
/// `"windows-1252"`, `"utf-8"`); `None` when no mark is known.
pub fn mark_for_name(name: &str) -> (r: Option<u8>)
    ensures
        r == mark_of_name(name@),
{
    let chars = chars_of(name);
    let lower = lower_chars(chars.as_slice());
    let t = trim_chars(lower.as_slice());
    if chars_are(t.as_slice(), "cp437") || chars_are(t.as_slice(), "ibm437") {
        return Some(0x01);
    }
    if chars_are(t.as_slice(), "cp850") || chars_are(t.as_slice(), "ibm850") {
        return Some(0x02);
    }
    if chars_are(t.as_slice(), "cp1252") || chars_are(t.as_slice(), "windows-1252") || chars_are(t.as_slice(), "windows_1252") || chars_are(t.as_slice(), "ansi") || chars_are(t.as_slice(), "latin-1") || chars_are(t.as_slice(), "iso-8859-1") {
        return Some(0x03);
    }
    if chars_are(t.as_slice(), "cp866") || chars_are(t.as_slice(), "ibm866") {
        return Some(0x65);
    }
    if chars_are(t.as_slice(), "cp852") || chars_are(t.as_slice(), "ibm852") {
        return Some(0x64);
    }
    if chars_are(t.as_slice(), "cp1250") || chars_are(t.as_slice(), "windows-1250") || chars_are(t.as_slice(), "windows_1250") {
        return Some(0xC8);
    }
    if chars_are(t.as_slice(), "cp1251") || chars_are(t.as_slice(), "windows-1251") || chars_are(t.as_slice(), "windows_1251") {
        return Some(0xC9);
    }
    if chars_are(t.as_slice(), "cp1253") || chars_are(t.as_slice(), "windows-1253") || chars_are(t.as_slice(), "windows_1253") {
        return Some(0xCB);
    }
    if chars_are(t.as_slice(), "cp1254") || chars_are(t.as_slice(), "windows-1254") || chars_are(t.as_slice(), "windows_1254") {
        return Some(0xCA);
    }
    if chars_are(t.as_slice(), "cp1255") || chars_are(t.as_slice(), "windows-1255") || chars_are(t.as_slice(), "windows_1255") {
        return Some(0x7D);
    }
    if chars_are(t.as_slice(), "cp1256") || chars_are(t.as_slice(), "windows-1256") || chars_are(t.as_slice(), "windows_1256") {
        return Some(0x7E);
    }
    if chars_are(t.as_slice(), "cp1257") || chars_are(t.as_slice(), "windows-1257") || chars_are(t.as_slice(), "windows_1257") {
        return Some(0xCC);
    }
    if chars_are(t.as_slice(), "shift-jis") || chars_are(t.as_slice(), "shift_jis") || chars_are(t.as_slice(), "sjis") || chars_are(t.as_slice(), "shiftjis") {
        return Some(0x7B);
    }
    if chars_are(t.as_slice(), "euc-kr") || chars_are(t.as_slice(), "euc_kr") {
        return Some(0x7C);
    }
    if chars_are(t.as_slice(), "big5") {
        return Some(0x7A);
    }
    if chars_are(t.as_slice(), "gb18030") || chars_are(t.as_slice(), "gbk") || chars_are(t.as_slice(), "gb2312") {
        return Some(0x7A);
    }
    if chars_are(t.as_slice(), "utf-8") || chars_are(t.as_slice(), "utf8") {
        return Some(0x00);
    }
    None
}

// ---------------------------------------------------------------------------
// Decoding and encoding through encoding_rs
// ---------------------------------------------------------------------------

/// The text that `encoding_rs` decodes `raw` to in the encoding labelled
/// `label` (`Encoding::decode`: BOM sniffing, malformed sequences replaced),
/// and whether it met malformed sequences.
pub uninterp spec fn decoded_text(label: Seq<char>, raw: Seq<u8>) -> (Seq<char>, bool);

/// The bytes that `encoding_rs` encodes `text` to in the encoding labelled
/// `label`, and whether some character could not be mapped
/// (`Encoding::encode`).
pub uninterp spec fn encoded_text(label: Seq<char>, text: Seq<char>) -> (Seq<u8>, bool);

/// What `String::from_utf8_lossy` makes of `raw`.
pub uninterp spec fn lossy_utf8(raw: Seq<u8>) -> Seq<char>;

/// Looks `label` up with `encoding_rs::Encoding::for_label` and decodes
/// `raw` with `Encoding::decode`, keeping the text and the flag that
/// reports malformed sequences. The label is always one the Encoding
/// Standard defines, so the lookup finds it. Claimed: the pair is what
/// `decoded_text` names; nothing is stated of what the text is.
#[verifier::external_body]
fn decode_labelled(label: &str, raw: &[u8]) -> (r: (String, bool))
    requires
        standard_label(label@),
    ensures
        (r.0@, r.1) == decoded_text(label@, raw@),
{
    let encoding = encoding_rs::Encoding::for_label(label.as_bytes()).unwrap();
    let (text, _, had_errors) = encoding.decode(raw);
    (text.into_owned(), had_errors)
}

/// Looks `label` up with `encoding_rs::Encoding::for_label` and encodes
/// `text` with `Encoding::encode`, keeping the bytes and the flag that
/// reports unmappable characters. Claimed: the pair is what
/// `encoded_text` names; nothing is stated of its content.
#[verifier::external_body]
fn encode_labelled(label: &str, text: &str) -> (r: (Vec<u8>, bool))
    requires
        standard_label(label@),
    ensures
        (r.0@, r.1) == encoded_text(label@, text@),
{
    let encoding = encoding_rs::Encoding::for_label(label.as_bytes()).unwrap();
    let (bytes, _, had_errors) = encoding.encode(text);
    (bytes.into_owned(), had_errors)
}

/// `String::from_utf8_lossy(raw).into_owned()`. Claimed: the result is what
/// `lossy_utf8` names, and, as the documentation states, valid UTF-8 comes
/// back as the characters it encodes.
#[verifier::external_body]
pub(crate) fn utf8_lossy(raw: &[u8]) -> (text: String)
    ensures
        text@ == lossy_utf8(raw@),
        valid_utf8(raw@) ==> text@ == decode_utf8(raw@),
{
    String::from_utf8_lossy(raw).into_owned()
}

/// The text that [`utf8_lossy`] gives: the characters that valid UTF-8
/// encodes, and otherwise what `String::from_utf8_lossy` makes of it.
pub open spec fn utf8_text(raw: Seq<u8>) -> Seq<char> {
    if valid_utf8(raw) {
        decode_utf8(raw)
    } else {
        lossy_utf8(raw)
    }
}

/// The text that [`decode_bytes`] gives: the encoding's decoding when it
/// met no malformed sequence, and otherwise (or with no encoding) the bytes
/// read as lossy UTF-8.
pub open spec fn decode_text(raw: Seq<u8>, encoding: Option<TextEncoding>) -> Seq<char> {
    match encoding {
        Some(e) => {
            let (text, had_errors) = decoded_text(label_of(e), raw);
            if had_errors {
                utf8_text(raw)
            } else {
                text
            }
        },
        None => utf8_text(raw),
    }
}

/// The bytes that [`encode_str`] gives, `None` where a character has no
/// representation in the encoding.
pub open spec fn encode_text(text: Seq<char>, encoding: Option<TextEncoding>) -> Option<Seq<u8>> {
    match encoding {
        Some(e) => {
            let (bytes, had_errors) = encoded_text(label_of(e), text);
            if had_errors {
                None
            } else {
                Some(bytes)
            }
        },
        None => Some(encode_utf8(text)),
    }
}

/// Decode bytes with the given encoding, falling back to lossy UTF-8 when
/// there is none or the decoding meets malformed sequences.
pub fn decode_bytes(raw: &[u8], encoding: Option<TextEncoding>) -> (text: String)
    ensures
        text@ == decode_text(raw@, encoding),
{
    match encoding {
        Some(e) => {
            let (text, had_errors) = decode_labelled(e.label(), raw);
            decoded_or_lossy(raw, text, had_errors)
        },
        None => utf8_lossy(raw),
    }
}

/// What decoding `raw` gives once the encoding has answered with `text`
/// and whether it met malformed sequences: `text` when it met none, and
/// otherwise `raw` read as lossy UTF-8.
pub fn decoded_or_lossy(raw: &[u8], text: String, had_errors: bool) -> (s: String)
    ensures
        s@ == if had_errors {
            utf8_text(raw@)
        } else {
            text@
        },
{
    if had_errors {
        utf8_lossy(raw)
    } else {
        text
    }
}

/// What encoding gives once the encoder has answered with `bytes` and
/// whether some character had no representation: `None` in that case,
/// else the bytes.
pub fn encoded_unless_unmappable(bytes: Vec<u8>, had_errors: bool) -> (r: Option<Vec<u8>>)
    ensures
        match r {
            Some(b) => !had_errors && b@ == bytes@,
            None => had_errors,
        },
{
    if had_errors {
        None
    } else {
        Some(bytes)
    }
}

/// Encode text into the given encoding (UTF-8 when there is none);
/// `None` when the text cannot be represented without loss.
pub fn encode_str(text: &str, encoding: Option<TextEncoding>) -> (r: Option<Vec<u8>>)
    ensures
        match r {
            Some(b) => encode_text(text@, encoding) == Some(b@),
            None => encode_text(text@, encoding) is None,
        },
{
    match encoding {
        Some(e) => {
            let (bytes, had_errors) = encode_labelled(e.label(), text);
            encoded_unless_unmappable(bytes, had_errors)
        },
        None => Some(slice_to_vec(text.as_bytes())),
    }
}

/// The bytes that encoding `text` gives, unmappable characters included
/// as the encoder writes them.
pub open spec fn encoded_bytes(text: Seq<char>, encoding: Option<TextEncoding>) -> Seq<u8> {
    match encoding {
        Some(e) => encoded_text(label_of(e), text).0,
        None => encode_utf8(text),
    }
}

/// Encode text into the given encoding (UTF-8 when there is none), keeping
/// what the encoder writes for characters that the encoding lacks.
pub fn encode_lossy(text: &str, encoding: Option<TextEncoding>) -> (b: Vec<u8>)
    ensures
        b@ == encoded_bytes(text@, encoding),
{
    match encoding {
        Some(e) => encode_labelled(e.label(), text).0,
        None => slice_to_vec(text.as_bytes()),
    }
}

/// The name that `encoding_rs` gives each of the library's encodings
/// (`Encoding::name`, the Encoding Standard's name).
pub open spec fn encoding_name(e: TextEncoding) -> Seq<char> {
    match e {
        TextEncoding::Ibm866 => "IBM866"@,
        TextEncoding::Windows1250 => "windows-1250"@,
        TextEncoding::Windows1251 => "windows-1251"@,
        TextEncoding::Windows1252 => "windows-1252"@,
        TextEncoding::Windows1253 => "windows-1253"@,
        TextEncoding::Windows1254 => "windows-1254"@,
        TextEncoding::Windows1255 => "windows-1255"@,
        TextEncoding::Windows1256 => "windows-1256"@,
        TextEncoding::Windows1257 => "windows-1257"@,
        TextEncoding::Iso8859_2 => "ISO-8859-2"@,
        TextEncoding::Big5 => "Big5"@,
        TextEncoding::EucKr => "EUC-KR"@,
        TextEncoding::EucJp => "EUC-JP"@,
        TextEncoding::Gb18030 => "gb18030"@,
        TextEncoding::ShiftJis => "Shift_JIS"@,
        TextEncoding::MacCyrillic => "x-mac-cyrillic"@,
    }
}

/// Looks `label` up with `encoding_rs::Encoding::for_label` and returns
/// `Encoding::name`. The label is always one the Encoding Standard
/// defines, so the lookup finds it. Claimed: the name is the one that
/// `encoding_rs`'s table gives the encoding of that label
/// (`encoding_name`).
#[verifier::external_body]
fn name_for_label(label: &str) -> (name: String)
    requires
        standard_label(label@),
    ensures
        forall|e: TextEncoding| label_of(e) == label@ ==> name@ == encoding_name(e),
{
    encoding_rs::Encoding::for_label(label.as_bytes()).unwrap().name().to_string()
}

impl TextEncoding {
    /// The encoding's name as `encoding_rs` gives it (e.g. `windows-1252`).
    pub fn name(self) -> (s: String)
        ensures
            s@ == encoding_name(self),
    {
        name_for_label(self.label())
    }
}

/// The encoding that reads a code page, by the name that [`label_for_mark`]
/// gives it, for the code pages that have one here.
pub open spec fn code_page_encoding(label: Seq<char>) -> Option<TextEncoding> {
    if label == "CP1252"@ {
        Some(TextEncoding::Windows1252)
    } else if label == "CP1250"@ {
        Some(TextEncoding::Windows1250)
    } else if label == "CP1251"@ {
        Some(TextEncoding::Windows1251)
    } else if label == "CP1253"@ {
        Some(TextEncoding::Windows1253)
    } else if label == "CP1254"@ {
        Some(TextEncoding::Windows1254)
    } else if label == "CP1255"@ {
        Some(TextEncoding::Windows1255)
    } else if label == "CP1256"@ {
        Some(TextEncoding::Windows1256)
    } else if label == "CP1257"@ {
        Some(TextEncoding::Windows1257)
    } else if label == "CP866"@ {
        Some(TextEncoding::Ibm866)
    } else if label == "Big5"@ {
        Some(TextEncoding::Big5)
    } else if label == "EUC-KR"@ {
        Some(TextEncoding::EucKr)
    } else if label == "GB18030"@ {
        Some(TextEncoding::Gb18030)
    } else if label == "Shift-JIS"@ {
        Some(TextEncoding::ShiftJis)
    } else if label == "Mac Cyrillic"@ {
        Some(TextEncoding::MacCyrillic)
    } else {
        None
    }
}

/// A code-page mark selects the encoding of the code page it names: every
/// mark that [`label_for_mark`] calls `CP1252` (`0x03`, `0x57`, `0x58`,
/// `0x59`) reads as windows-1252, every `CP866` mark as IBM866, `Big5` as
/// Big5, and so on for each code page that has an encoding here.
#[verifier::spinoff_prover]
pub proof fn law_marks_follow_their_code_page(mark: u8)
    ensures
        code_page_encoding(mark_label(mark)) matches Some(e) ==> encoding_of_mark(mark) == Some(e),
{
    reveal_strlit("unset");
    reveal_strlit("CP437");
    reveal_strlit("CP850");
    reveal_strlit("CP1252");
    reveal_strlit("MacRoman");
    reveal_strlit("CP850 (OEM variant)");
    reveal_strlit("ISO-8859-2");
    reveal_strlit("CP866");
    reveal_strlit("CP852 (Romanian)");
    reveal_strlit("GBK");
    reveal_strlit("EUC-KR");
    reveal_strlit("Big5");
    reveal_strlit("CP852");
    reveal_strlit("GB18030");
    reveal_strlit("Shift-JIS");
    reveal_strlit("CP1255");
    reveal_strlit("CP1256");
    reveal_strlit("Mac Cyrillic");
    reveal_strlit("Mac CE");
    reveal_strlit("Mac Greek");
    reveal_strlit("CP1250");
    reveal_strlit("CP1251");
    reveal_strlit("CP1254");
    reveal_strlit("CP1253");
    reveal_strlit("CP1257");
    reveal_strlit("unknown");
    assert("unset"@[0] != "CP866"@[0]);
    assert("CP437"@[2] != "CP866"@[2]);
    assert("CP850"@[3] != "CP866"@[3]);
    assert("EUC-KR"@[0] != "CP1252"@[0]);
    assert("EUC-KR"@[0] != "CP1250"@[0]);
    assert("EUC-KR"@[0] != "CP1251"@[0]);
    assert("EUC-KR"@[0] != "CP1253"@[0]);
    assert("EUC-KR"@[0] != "CP1254"@[0]);
    assert("EUC-KR"@[0] != "CP1255"@[0]);
    assert("EUC-KR"@[0] != "CP1256"@[0]);
    assert("EUC-KR"@[0] != "CP1257"@[0]);
    assert("CP852"@[3] != "CP866"@[3]);
    assert("CP1255"@[5] != "CP1252"@[5]);
    assert("CP1255"@[5] != "CP1250"@[5]);
    assert("CP1255"@[5] != "CP1251"@[5]);
    assert("CP1255"@[5] != "CP1253"@[5]);
    assert("CP1255"@[5] != "CP1254"@[5]);
    assert("CP1256"@[5] != "CP1252"@[5]);
    assert("CP1256"@[5] != "CP1250"@[5]);
    assert("CP1256"@[5] != "CP1251"@[5]);
    assert("CP1256"@[5] != "CP1253"@[5]);
    assert("CP1256"@[5] != "CP1254"@[5]);
    assert("CP1256"@[5] != "CP1255"@[5]);
    assert("Mac CE"@[0] != "CP1252"@[0]);
    assert("Mac CE"@[0] != "CP1250"@[0]);
    assert("Mac CE"@[0] != "CP1251"@[0]);
    assert("Mac CE"@[0] != "CP1253"@[0]);
    assert("Mac CE"@[0] != "CP1254"@[0]);
    assert("Mac CE"@[0] != "CP1255"@[0]);
    assert("Mac CE"@[0] != "CP1256"@[0]);
    assert("Mac CE"@[0] != "CP1257"@[0]);
    assert("Mac CE"@[0] != "EUC-KR"@[0]);
    assert("Mac Greek"@[0] != "Shift-JIS"@[0]);
    assert("CP1250"@[5] != "CP1252"@[5]);
    assert("CP1251"@[5] != "CP1252"@[5]);
    assert("CP1251"@[5] != "CP1250"@[5]);
    assert("CP1254"@[5] != "CP1252"@[5]);
    assert("CP1254"@[5] != "CP1250"@[5]);
    assert("CP1254"@[5] != "CP1251"@[5]);
    assert("CP1254"@[5] != "CP1253"@[5]);
    assert("CP1253"@[5] != "CP1252"@[5]);
    assert("CP1253"@[5] != "CP1250"@[5]);
    assert("CP1253"@[5] != "CP1251"@[5]);
    assert("CP1257"@[5] != "CP1252"@[5]);
    assert("CP1257"@[5] != "CP1250"@[5]);
    assert("CP1257"@[5] != "CP1251"@[5]);
    assert("CP1257"@[5] != "CP1253"@[5]);
    assert("CP1257"@[5] != "CP1254"@[5]);
    assert("CP1257"@[5] != "CP1255"@[5]);
    assert("CP1257"@[5] != "CP1256"@[5]);
    assert("unknown"@[0] != "GB18030"@[0]);
    assert(code_page_encoding("unset"@) is None);
    assert(code_page_encoding("CP437"@) is None);
    assert("CP850"@.len() != "CP1252"@.len() || "CP850"@ != "CP1252"@);
    assert("CP850"@.len() != "CP1250"@.len() || "CP850"@ != "CP1250"@);
    assert("CP850"@.len() != "CP1251"@.len() || "CP850"@ != "CP1251"@);
    assert("CP850"@.len() != "CP1253"@.len() || "CP850"@ != "CP1253"@);
    assert("CP850"@.len() != "CP1254"@.len() || "CP850"@ != "CP1254"@);
    assert("CP850"@.len() != "CP1255"@.len() || "CP850"@ != "CP1255"@);
    assert("CP850"@.len() != "CP1256"@.len() || "CP850"@ != "CP1256"@);
    assert("CP850"@.len() != "CP1257"@.len() || "CP850"@ != "CP1257"@);
    assert("CP850"@.len() != "CP866"@.len() || "CP850"@ != "CP866"@);
    assert("CP850"@.len() != "Big5"@.len() || "CP850"@ != "Big5"@);
    assert("CP850"@.len() != "EUC-KR"@.len() || "CP850"@ != "EUC-KR"@);
    assert("CP850"@.len() != "GB18030"@.len() || "CP850"@ != "GB18030"@);
    assert("CP850"@.len() != "Shift-JIS"@.len() || "CP850"@ != "Shift-JIS"@);
    assert("CP850"@.len() != "Mac Cyrillic"@.len() || "CP850"@ != "Mac Cyrillic"@);
    assert(code_page_encoding("CP850"@) is None);
    assert(code_page_encoding("CP1252"@) == Some(TextEncoding::Windows1252));
    assert("MacRoman"@.len() != "CP1252"@.len() || "MacRoman"@ != "CP1252"@);
    assert("MacRoman"@.len() != "CP1250"@.len() || "MacRoman"@ != "CP1250"@);
    assert("MacRoman"@.len() != "CP1251"@.len() || "MacRoman"@ != "CP1251"@);
    assert("MacRoman"@.len() != "CP1253"@.len() || "MacRoman"@ != "CP1253"@);
    assert("MacRoman"@.len() != "CP1254"@.len() || "MacRoman"@ != "CP1254"@);
    assert("MacRoman"@.len() != "CP1255"@.len() || "MacRoman"@ != "CP1255"@);
    assert("MacRoman"@.len() != "CP1256"@.len() || "MacRoman"@ != "CP1256"@);
    assert("MacRoman"@.len() != "CP1257"@.len() || "MacRoman"@ != "CP1257"@);
    assert("MacRoman"@.len() != "CP866"@.len() || "MacRoman"@ != "CP866"@);
    assert("MacRoman"@.len() != "Big5"@.len() || "MacRoman"@ != "Big5"@);
    assert("MacRoman"@.len() != "EUC-KR"@.len() || "MacRoman"@ != "EUC-KR"@);
    assert("MacRoman"@.len() != "GB18030"@.len() || "MacRoman"@ != "GB18030"@);
    assert("MacRoman"@.len() != "Shift-JIS"@.len() || "MacRoman"@ != "Shift-JIS"@);
    assert("MacRoman"@.len() != "Mac Cyrillic"@.len() || "MacRoman"@ != "Mac Cyrillic"@);
    assert(code_page_encoding("MacRoman"@) is None);
    assert(code_page_encoding("CP850 (OEM variant)"@) is None);
    assert(code_page_encoding("ISO-8859-2"@) is None);
    assert(code_page_encoding("CP866"@) == Some(TextEncoding::Ibm866));
    assert(code_page_encoding("CP852 (Romanian)"@) is None);
    assert(code_page_encoding("GBK"@) is None);
    assert(code_page_encoding("EUC-KR"@) == Some(TextEncoding::EucKr));
    assert(code_page_encoding("Big5"@) == Some(TextEncoding::Big5));
    assert(code_page_encoding("CP852"@) is None);
    assert(code_page_encoding("GB18030"@) == Some(TextEncoding::Gb18030));
    assert(code_page_encoding("Shift-JIS"@) == Some(TextEncoding::ShiftJis));
    assert(code_page_encoding("CP1255"@) == Some(TextEncoding::Windows1255));
    assert(code_page_encoding("CP1256"@) == Some(TextEncoding::Windows1256));
    assert(code_page_encoding("Mac Cyrillic"@) == Some(TextEncoding::MacCyrillic));
    assert(code_page_encoding("Mac CE"@) is None);
    assert(code_page_encoding("Mac Greek"@) is None);
    assert(code_page_encoding("CP1250"@) == Some(TextEncoding::Windows1250));
    assert(code_page_encoding("CP1251"@) == Some(TextEncoding::Windows1251));
    assert(code_page_encoding("CP1254"@) == Some(TextEncoding::Windows1254));
    assert(code_page_encoding("CP1253"@) == Some(TextEncoding::Windows1253));
    assert(code_page_encoding("CP1257"@) == Some(TextEncoding::Windows1257));
    assert(code_page_encoding("unknown"@) is None);
}

/// Every name that [`mark_for_name`] maps to a non-zero mark selects an
/// encoding: a table tagged from an encoding name can be decoded.
pub proof fn law_named_marks_have_encodings(name: Seq<char>)
    ensures
        mark_of_name(name) matches Some(m) ==> (m != 0 ==> encoding_of_mark(m) is Some),
{
}

} // verus!
