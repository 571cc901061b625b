//! Memo files: the companion `.dbt` / `.fpt` file that holds the content
//! of Memo, General and Picture fields, in 512-byte blocks.
//!
//! * **dBase III / Clipper** – content terminated by two `0x1A` bytes.
//! * **dBase IV / FoxPro 2** – 4-byte little-endian length, then content.
//! * **Visual FoxPro** – 8-byte record header (type and length, both
//!   big-endian), then content.
//!
//! A [`MemoFile`] is the byte image of such a file; reading it from disk
//! and writing it back is left to the caller.

use vstd::prelude::*;
use crate::bytes::{
    be32, be32_bytes, le32, le32_bytes, lemma_be32, lemma_le32, push_all, push_be32, push_le32,
    push_repeat, read_be32, read_le32, splice, write_at, zero_extend, zeros,
};
use crate::error::{Error, ErrorKind, Result, plain_message};
use crate::header::DbfKind;
use crate::text::{chars_of, string_from_chars, upper_all, upper_chars};


verus! {

/// Bytes per memo block.
pub const BLOCK_SIZE: u64 = 512;

/// Memo-file format discriminant.
#[derive(Debug, Clone, Copy, PartialEq, Eq, Structural)]
pub enum MemoFormat {
    /// dBase III / Clipper: `\x1A\x1A` terminator, no length prefix.
    DBase3,
    /// dBase IV / FoxPro 2: 4-byte LE length prefix, then content.
    DBase4,
    /// Visual FoxPro: 8-byte record header (type u32 + length u32), then content.
    VisualFoxPro,
}

/// The memo format that each table kind uses.
pub open spec fn format_for_kind(kind: DbfKind) -> MemoFormat {
    match kind {
        DbfKind::DBase3 | DbfKind::DBase3WithMemo => MemoFormat::DBase3,
        DbfKind::FoxPro2WithMemo | DbfKind::DBase4WithMemo => MemoFormat::DBase4,
        _ => MemoFormat::VisualFoxPro,
    }
}

/// The file extension of each format.
pub open spec fn extension_of(format: MemoFormat) -> Seq<char> {
    match format {
        MemoFormat::DBase3 | MemoFormat::DBase4 => "dbt"@,
        MemoFormat::VisualFoxPro => "fpt"@,
    }
}

impl MemoFormat {
    pub fn for_kind(kind: DbfKind) -> (f: MemoFormat)
        ensures
            f == format_for_kind(kind),
    {
        match kind {
            DbfKind::DBase3 | DbfKind::DBase3WithMemo => MemoFormat::DBase3,
            DbfKind::FoxPro2WithMemo | DbfKind::DBase4WithMemo => MemoFormat::DBase4,
            DbfKind::VisualFoxPro | DbfKind::VisualFoxProAutoIncrement
            | DbfKind::VisualFoxProVar => MemoFormat::VisualFoxPro,
        }
    }

    /// File extension for this format.
    pub fn extension(self) -> (s: &'static str)
        ensures
            s@ == extension_of(self),
    {
        match self {
            MemoFormat::DBase3 | MemoFormat::DBase4 => "dbt",
            MemoFormat::VisualFoxPro => "fpt",
        }
    }
}

/// The characters that `char::to_uppercase` maps `c` to (its Unicode
/// upper-case mapping, one or more characters).
pub uninterp spec fn unicode_upper(c: char) -> Seq<char>;

/// `c.to_uppercase()`, collected. Claimed: the characters are what
/// `unicode_upper` names for `c`; nothing is stated of the mapping itself.
#[verifier::external_body]
fn char_to_uppercase(c: char) -> (v: Vec<char>)
    ensures
        v@ == unicode_upper(c),
{
    c.to_uppercase().collect()
}

/// `s` with its first character upper-cased (by Unicode's mapping).
pub open spec fn title_text(s: Seq<char>) -> Seq<char> {
    if s.len() == 0 {
        Seq::empty()
    } else {
        unicode_upper(s[0]) + s.drop_first()
    }
}

/// `s` with its first character upper-cased.
pub fn title_case(s: &str) -> (t: String)
    ensures
        t@ == title_text(s@),
{
    let v = chars_of(s);
    if v.len() == 0 {
        return string_from_chars(v.as_slice());
    }
    let mut out = char_to_uppercase(v[0]);
    let mut i: usize = 1;
    let ghost head = out@;
    while i < v.len()
        invariant
            1 <= i <= v@.len(),
            v@ == s@,
            head == unicode_upper(v@[0]),
            out@ == head + v@.subrange(1, i as int),
        decreases v.len() - i,
    {
        out.push(v[i]);
        i += 1;
        proof {
            assert(out@ =~= head + v@.subrange(1, i as int));
        }
    }
    proof {
        assert(v@.subrange(1, v@.len() as int) =~= v@.drop_first());
    }
    string_from_chars(out.as_slice())
}

/// The extensions under which a companion memo file with extension `ext`
/// is looked for, in order: as given, upper-cased, and title-cased (file
/// systems that tell case apart may hold any of them).
pub fn companion_extensions(ext: &str) -> (v: Vec<String>)
    ensures
        v@.len() == 3,
        v@[0]@ == ext@,
        v@[1]@ == upper_all(ext@),
        v@[2]@ == title_text(ext@),
{
    let mut v: Vec<String> = Vec::new();
    let chars = chars_of(ext);
    v.push(string_from_chars(chars.as_slice()));
    let upper = upper_chars(chars.as_slice());
    v.push(string_from_chars(upper.as_slice()));
    v.push(title_case(ext));
    v
}

/// The other memo format looked for when none of the format's own
/// extension is found: `.fpt` (Visual FoxPro) for a `.dbt` format, and
/// `.dbt` (dBase III) for `.fpt`.
pub open spec fn alternate_format_of(format: MemoFormat) -> MemoFormat {
    match format {
        MemoFormat::DBase3 | MemoFormat::DBase4 => MemoFormat::VisualFoxPro,
        MemoFormat::VisualFoxPro => MemoFormat::DBase3,
    }
}

impl MemoFormat {
    /// The format to fall back on when no memo file of this format's
    /// extension exists.
    pub fn alternate(self) -> (f: MemoFormat)
        ensures
            f == alternate_format_of(self),
            extension_of(f) != extension_of(self),
    {
        proof {
            reveal_strlit("dbt");
            reveal_strlit("fpt");
            assert("dbt"@[0] != "fpt"@[0]);
        }
        match self {
            MemoFormat::DBase3 | MemoFormat::DBase4 => MemoFormat::VisualFoxPro,
            MemoFormat::VisualFoxPro => MemoFormat::DBase3,
        }
    }
}

/// The image of a memo file.
#[derive(Debug)]
pub struct MemoFile {
    bytes: Vec<u8>,
    format: MemoFormat,
    /// Next free block (as the file header records it).
    next_free_block: u32,
}

/// The model of a [`MemoFile`].
pub struct MemoModel {
    pub bytes: Seq<u8>,
    pub format: MemoFormat,
    pub next_free_block: u32,
}

impl View for MemoFile {
    type V = MemoModel;

    closed spec fn view(&self) -> MemoModel {
        MemoModel { bytes: self.bytes@, format: self.format, next_free_block: self.next_free_block }
    }
}

/// Whether a dBase III terminator (`0x1A 0x1A`) starts at `i`.
pub open spec fn terminator_at(s: Seq<u8>, i: int) -> bool {
    0 <= i && i + 1 < s.len() && s[i] == 0x1A && s[i + 1] == 0x1A
}

/// The first position where a dBase III terminator starts, if any.
pub open spec fn first_terminator(s: Seq<u8>) -> Option<nat>
    decreases s.len(),
{
    if s.len() < 2 {
        None
    } else if s[0] == 0x1A && s[1] == 0x1A {
        Some(0)
    } else {
        match first_terminator(s.drop_first()) {
            Some(i) => Some(i + 1),
            None => None,
        }
    }
}

/// A dBase III memo: the bytes before the first terminator, or all of them.
pub open spec fn dbase3_body(s: Seq<u8>) -> Seq<u8> {
    match first_terminator(s) {
        Some(i) => s.take(i as int),
        None => s,
    }
}

/// The bytes of the file from the start of block `block` on (none past the end).
pub open spec fn from_block(bytes: Seq<u8>, block: u32) -> Seq<u8> {
    let offset = block as nat * 512;
    if offset <= bytes.len() {
        bytes.skip(offset as int)
    } else {
        Seq::empty()
    }
}

/// The memo that a record starting at the beginning of `rest` holds, or an
/// I/O error where `rest` ends before the length that the record announces.
pub open spec fn read_rest(format: MemoFormat, rest: Seq<u8>) -> core::result::Result<Seq<u8>, ErrorKind> {
    match format {
        MemoFormat::DBase3 => Ok(dbase3_body(rest)),
        MemoFormat::DBase4 => if rest.len() < 4 {
            Err(ErrorKind::Io)
        } else if rest.len() - 4 < le32(rest, 0) {
            Err(ErrorKind::Io)
        } else {
            Ok(rest.subrange(4, 4 + le32(rest, 0) as int))
        },
        MemoFormat::VisualFoxPro => if rest.len() < 8 {
            Err(ErrorKind::Io)
        } else if rest.len() - 8 < be32(rest, 4) {
            Err(ErrorKind::Io)
        } else {
            Ok(rest.subrange(8, 8 + be32(rest, 4) as int))
        },
    }
}

/// What [`MemoFile::read`] gives for a block pointer: nothing for pointer
/// 0, otherwise the record that starts at that block.
pub open spec fn memo_read(m: MemoModel, block: u32) -> core::result::Result<Seq<u8>, ErrorKind> {
    if block == 0 {
        Ok(Seq::empty())
    } else {
        read_rest(m.format, from_block(m.bytes, block))
    }
}

/// Bytes before the content of a memo record.
pub open spec fn prefix_len(format: MemoFormat) -> nat {
    match format {
        MemoFormat::DBase3 => 0,
        MemoFormat::DBase4 => 4,
        MemoFormat::VisualFoxPro => 8,
    }
}

/// Bytes of a memo record before padding: prefix, content, terminator.
pub open spec fn record_len(format: MemoFormat, content_len: nat) -> nat {
    match format {
        MemoFormat::DBase3 => content_len + 2,
        _ => prefix_len(format) + content_len,
    }
}

/// Blocks that a memo record of `content_len` bytes takes.
pub open spec fn blocks_for(format: MemoFormat, content_len: nat) -> nat {
    let total = record_len(format, content_len);
    (total + 511) / 512
}

/// Zero bytes that fill a record of `total` bytes up to a block boundary.
pub open spec fn padding(total: nat) -> Seq<u8> {
    if total % 512 != 0 {
        zeros((512 - total % 512) as nat)
    } else {
        Seq::empty()
    }
}

/// The bytes that an appended memo record occupies.
pub open spec fn memo_record(format: MemoFormat, content: Seq<u8>) -> Seq<u8> {
    let total = record_len(format, content.len());
    match format {
        MemoFormat::DBase3 => content + seq![0x1Au8, 0x1Au8] + padding(total),
        MemoFormat::DBase4 => le32_bytes((content.len() as u32) as nat) + content + padding(total),
        MemoFormat::VisualFoxPro => be32_bytes(1) + be32_bytes((content.len() as u32) as nat)
            + content + padding(total),
    }
}

/// The four header bytes that record the next free block.
pub open spec fn header_field(format: MemoFormat, next: u32) -> Seq<u8> {
    match format {
        MemoFormat::VisualFoxPro => be32_bytes(next as nat),
        _ => le32_bytes(next as nat),
    }
}

/// The memo file after appending `content`.
pub open spec fn memo_appended(m: MemoModel, content: Seq<u8>) -> MemoModel {
    let next = (m.next_free_block + blocks_for(m.format, content.len())) as u32;
    let written = splice(m.bytes, m.next_free_block as nat * 512, memo_record(m.format, content));
    MemoModel {
        bytes: splice(written, 0, header_field(m.format, next)),
        format: m.format,
        next_free_block: next,
    }
}

/// What an append needs: the block counter and the image size stay in range.
pub open spec fn can_append(m: MemoModel, content_len: nat) -> bool {
    &&& m.next_free_block + blocks_for(m.format, content_len) <= u32::MAX
    &&& (m.next_free_block + blocks_for(m.format, content_len)) * 512 <= usize::MAX
}

/// A memo file as this library creates and extends it: block 0 is the
/// header and the file ends exactly where the next free block starts.
pub open spec fn memo_well_formed(m: MemoModel) -> bool {
    &&& m.next_free_block >= 1
    &&& m.bytes.len() == m.next_free_block as nat * 512
}

/// The header block of a new memo file.
pub open spec fn fresh_header(format: MemoFormat) -> Seq<u8> {
    match format {
        MemoFormat::VisualFoxPro => be32_bytes(1) + zeros(2) + seq![0x02u8, 0x00u8] + zeros(504),
        _ => le32_bytes(1) + zeros(508),
    }
}

/// Blocks that a memo record of `content_len` bytes takes.
pub fn blocks_needed(format: MemoFormat, content_len: usize) -> (n: u64)
    ensures
        n as nat == blocks_for(format, content_len as nat),
{
    let prefix: u64 = match format {
        MemoFormat::DBase3 => 2,
        MemoFormat::DBase4 => 4,
        MemoFormat::VisualFoxPro => 8,
    };
    let len = content_len as u64;
    len / 512 + (prefix + len % 512 + 511) / 512
}

impl MemoFile {
    /// A new, empty memo file: a header block whose next free block is 1.
    pub fn create(format: MemoFormat) -> (m: MemoFile)
        ensures
            m@.format == format,
            m@.next_free_block == 1,
            m@.bytes == fresh_header(format),
            memo_well_formed(m@),
    {
        let mut header: Vec<u8> = Vec::new();
        match format {
            MemoFormat::DBase3 | MemoFormat::DBase4 => {
                push_le32(&mut header, 1);
                push_repeat(&mut header, 0, 508);
            },
            MemoFormat::VisualFoxPro => {
                push_be32(&mut header, 1);
                push_repeat(&mut header, 0, 2);
                header.push(0x02);
                header.push(0x00);
                push_repeat(&mut header, 0, 504);
            },
        }
        proof {
            assert(header@ =~= fresh_header(format));
        }
        MemoFile { bytes: header, format, next_free_block: 1 }
    }

    /// The memo file whose image is `bytes`: its next free block is read
    /// from the first four bytes; a shorter image is an I/O error.
    pub fn from_bytes(bytes: Vec<u8>, format: MemoFormat) -> (r: Result<MemoFile>)
        ensures
            match r {
                Ok(m) => bytes@.len() >= 4 && m@.bytes == bytes@ && m@.format == format
                    && m@.next_free_block as nat == match format {
                    MemoFormat::VisualFoxPro => be32(bytes@, 0),
                    _ => le32(bytes@, 0),
                },
                Err(e) => bytes@.len() < 4 && e.kind() == ErrorKind::Io,
            },
    {
        if bytes.len() < 4 {
            return Err(Error::Io(plain_message("failed to fill whole buffer")));
        }
        let next_free_block = match format {
            MemoFormat::DBase3 | MemoFormat::DBase4 => read_le32(bytes.as_slice(), 0),
            MemoFormat::VisualFoxPro => read_be32(bytes.as_slice(), 0),
        };
        Ok(MemoFile { bytes, format, next_free_block })
    }

    /// The image of the file.
    pub fn bytes(&self) -> (b: &[u8])
        ensures
            b@ == self@.bytes,
    {
        self.bytes.as_slice()
    }

    pub fn format(&self) -> (f: MemoFormat)
        ensures
            f == self@.format,
    {
        self.format
    }

    pub fn next_free_block(&self) -> (n: u32)
        ensures
            n == self@.next_free_block,
    {
        self.next_free_block
    }

    /// Read the memo record at `block_pointer` (1-based block index as
    /// stored in the DBF record field). Returns raw bytes – callers should
    /// apply the appropriate text encoding themselves.
    pub fn read(&self, block_pointer: u32) -> (r: Result<Vec<u8>>)
        ensures
            match r {
                Ok(b) => memo_read(self@, block_pointer) == Ok::<_, ErrorKind>(b@),
                Err(e) => memo_read(self@, block_pointer) == Err::<Seq<u8>, _>(e.kind()),
            },
    {
        if block_pointer == 0 {
            return Ok(Vec::new());
        }
        let offset: u64 = block_pointer as u64 * BLOCK_SIZE;
        let len = self.bytes.len();
        let start: usize = if offset <= len as u64 { offset as usize } else { len };
        let ghost rest = from_block(self.bytes@, block_pointer);
        proof {
            assert(rest =~= self.bytes@.skip(start as int));
        }
        let avail = len - start;
        match self.format {
            MemoFormat::DBase3 => {
                let end = scan_terminator(self.bytes.as_slice(), start);
                let mut out: Vec<u8> = Vec::new();
                let mut i = start;
                while i < end
                    invariant
                        start <= i <= end <= self.bytes@.len(),
                        out@ == self.bytes@.subrange(start as int, i as int),
                    decreases end - i,
                {
                    out.push(self.bytes[i]);
                    i += 1;
                    proof {
                        assert(out@ =~= self.bytes@.subrange(start as int, i as int));
                    }
                }
                proof {
                    assert(out@ =~= dbase3_body(rest));
                }
                Ok(out)
            },
            MemoFormat::DBase4 => {
                if avail < 4 {
                    return Err(Error::Io(plain_message("failed to fill whole buffer")));
                }
                let n = read_le32(self.bytes.as_slice(), start) as usize;
                proof {
                    assert(le32(rest, 0) == le32(self.bytes@, start as int));
                }
                if avail - 4 < n {
                    return Err(Error::Io(plain_message("failed to fill whole buffer")));
                }
                let out = copy_range(self.bytes.as_slice(), start + 4, start + 4 + n);
                proof {
                    assert(out@ =~= rest.subrange(4, 4 + le32(rest, 0) as int));
                }
                Ok(out)
            },
            MemoFormat::VisualFoxPro => {
                if avail < 8 {
                    return Err(Error::Io(plain_message("failed to fill whole buffer")));
                }
                let n = read_be32(self.bytes.as_slice(), start + 4) as usize;
                proof {
                    assert(be32(rest, 4) == be32(self.bytes@, start + 4));
                }
                if avail - 8 < n {
                    return Err(Error::Io(plain_message("failed to fill whole buffer")));
                }
                let out = copy_range(self.bytes.as_slice(), start + 8, start + 8 + n);
                proof {
                    assert(out@ =~= rest.subrange(8, 8 + be32(rest, 4) as int));
                }
                Ok(out)
            },
        }
    }

    /// Append a new memo record and return the block pointer to store in
    /// the DBF field; the header's next-free-block is updated.
    pub fn append(&mut self, content: &[u8]) -> (r: Result<u32>)
        requires
            can_append(old(self)@, content@.len()),
        ensures
            r == Ok::<u32, Error>(old(self)@.next_free_block),
            final(self)@ == memo_appended(old(self)@, content@),
    {
        let block = self.next_free_block;
        let offset: usize = (block as u64 * BLOCK_SIZE) as usize;
        let mut record: Vec<u8> = Vec::new();
        let len = content.len();
        let ghost total = record_len(self.format, len as nat);
        let total: usize = match self.format {
            MemoFormat::DBase3 => {
                push_all(&mut record, content);
                record.push(0x1A);
                record.push(0x1A);
                len + 2
            },
            MemoFormat::DBase4 => {
                push_le32(&mut record, len as u32);
                push_all(&mut record, content);
                4 + len
            },
            MemoFormat::VisualFoxPro => {
                push_be32(&mut record, 1);
                push_be32(&mut record, len as u32);
                push_all(&mut record, content);
                8 + len
            },
        };
        let remainder = 512 - total % 512;
        if remainder < 512 {
            push_repeat(&mut record, 0, remainder);
        }
        let blocks_used: u32 = ((total + 511) / 512) as u32;
        proof {
            assert(record@ =~= memo_record(self.format, content@));
        }
        write_at(&mut self.bytes, offset, record.as_slice());
        self.next_free_block = block + blocks_used;
        let mut field: Vec<u8> = Vec::new();
        match self.format {
            MemoFormat::DBase3 | MemoFormat::DBase4 => push_le32(&mut field, self.next_free_block),
            MemoFormat::VisualFoxPro => push_be32(&mut field, self.next_free_block),
        }
        write_at(&mut self.bytes, 0, field.as_slice());
        Ok(block)
    }
}

/// Position in `b` (from `start` on) where the first dBase III terminator
/// begins, or the end of `b`.
fn scan_terminator(b: &[u8], start: usize) -> (end: usize)
    requires
        start <= b@.len(),
    ensures
        start <= end <= b@.len(),
        b@.subrange(start as int, end as int) == dbase3_body(b@.skip(start as int)),
{
    let n = b.len();
    let mut i = start;
    while n >= 2 && i <= n - 2 && !(b[i] == 0x1A && b[i + 1] == 0x1A)
        invariant
            start <= i <= n == b@.len(),
            forall|k: int| start <= k < i ==> !terminator_at(b@, k),
        decreases n - i,
    {
        i += 1;
    }
    proof {
        let s = b@.skip(start as int);
        assert forall|k: int| 0 <= k < i - start implies !terminator_at(s, k) by {
            assert(!terminator_at(b@, k + start));
            assert(s[k] == b@[k + start]);
            if k + 1 < s.len() {
                assert(s[k + 1] == b@[k + start + 1]);
            }
        }
        if n >= 2 && i <= n - 2 {
            assert(s[i - start] == b@[i as int] && s[i - start + 1] == b@[i + 1]);
            lemma_first_terminator_is(s, i - start);
            assert(s.take(i - start) =~= b@.subrange(start as int, i as int));
        } else {
            lemma_first_terminator_none(s);
            assert(s =~= b@.subrange(start as int, n as int));
        }
    }
    if n >= 2 && i <= n - 2 {
        i
    } else {
        n
    }
}

pub proof fn lemma_first_terminator_is(s: Seq<u8>, i: int)
    requires
        terminator_at(s, i),
        forall|k: int| 0 <= k < i ==> !terminator_at(s, k),
    ensures
        first_terminator(s) == Some(i as nat),
    decreases i,
{
    if i > 0 {
        let t = s.drop_first();
        assert(!terminator_at(s, 0));
        assert forall|k: int| 0 <= k < i - 1 implies !terminator_at(t, k) by {
            assert(!terminator_at(s, k + 1));
        }
        lemma_first_terminator_is(t, i - 1);
    }
}

pub proof fn lemma_first_terminator_none(s: Seq<u8>)
    requires
        forall|k: int| 0 <= k < s.len() ==> !terminator_at(s, k),
    ensures
        first_terminator(s) is None,
    decreases s.len(),
{
    if s.len() >= 2 {
        let t = s.drop_first();
        assert(!terminator_at(s, 0));
        assert forall|k: int| 0 <= k < t.len() implies !terminator_at(t, k) by {
            assert(!terminator_at(s, k + 1));
        }
        lemma_first_terminator_none(t);
    }
}

// ---------------------------------------------------------------------------
// Laws
// ---------------------------------------------------------------------------

pub proof fn lemma_first_terminator_found(s: Seq<u8>)
    ensures
        first_terminator(s) matches Some(i) ==> terminator_at(s, i as int) && forall|k: int|
            0 <= k < i ==> !terminator_at(s, k),
        first_terminator(s) is None ==> forall|k: int| 0 <= k < s.len() ==> !terminator_at(s, k),
    decreases s.len(),
{
    if s.len() >= 2 && !(s[0] == 0x1A && s[1] == 0x1A) {
        let t = s.drop_first();
        lemma_first_terminator_found(t);
        assert forall|k: int| 0 < k < s.len() implies terminator_at(s, k) == terminator_at(t, k - 1) by {}
    }
}

pub proof fn lemma_splice(b: Seq<u8>, pos: nat, d: Seq<u8>)
    ensures
        splice(b, pos, d).len() == if b.len() > pos + d.len() { b.len() } else { pos + d.len() },
        forall|k: int| 0 <= k < d.len() ==> #[trigger] splice(b, pos, d)[pos + k] == d[k],
        forall|k: int| 0 <= k < pos && k < b.len() ==> #[trigger] splice(b, pos, d)[k] == b[k],
        forall|k: int|
            pos + d.len() <= k < b.len() ==> #[trigger] splice(b, pos, d)[k] == b[k],
{
    let e = zero_extend(b, pos);
    assert forall|k: int| 0 <= k < e.len() && k < b.len() implies e[k] == b[k] by {}
}

/// The content of a memo record sits at its block.
proof fn lemma_appended_from_block(m: MemoModel, content: Seq<u8>)
    requires
        m.next_free_block >= 1,
        can_append(m, content.len()),
    ensures
        ({
            let rec = memo_record(m.format, content);
            let rest = from_block(memo_appended(m, content).bytes, m.next_free_block);
            rest.len() >= rec.len() && rest.take(rec.len() as int) == rec
        }),
{
    let off = m.next_free_block as nat * 512;
    let rec = memo_record(m.format, content);
    let next = (m.next_free_block + blocks_for(m.format, content.len())) as u32;
    let x = splice(m.bytes, off, rec);
    let hdr = header_field(m.format, next);
    let y = splice(x, 0, hdr);
    lemma_splice(m.bytes, off, rec);
    lemma_splice(x, 0, hdr);
    assert(hdr.len() == 4);
    assert(y.len() >= off + rec.len());
    let rest = y.skip(off as int);
    assert forall|k: int| 0 <= k < rec.len() implies rest[k] == rec[k] by {
        assert(rest[k] == y[off + k]);
        assert(y[off + k] == x[off + k]);
        assert(x[off + k] == rec[k]);
    }
    assert(rest.take(rec.len() as int) =~= rec);
}

proof fn lemma_padding(total: nat)
    ensures
        total + padding(total).len() == ((total + 511) / 512) * 512,
{
}

proof fn lemma_read_record(format: MemoFormat, rest: Seq<u8>, content: Seq<u8>)
    requires
        rest.len() >= memo_record(format, content).len(),
        rest.take(memo_record(format, content).len() as int) == memo_record(format, content),
        content.len() <= u32::MAX,
        format == MemoFormat::DBase3 ==> forall|i: int|
            0 <= i < content.len() ==> !terminator_at(content.push(0x1A), i),
    ensures
        read_rest(format, rest) == Ok::<Seq<u8>, ErrorKind>(content),
        format == MemoFormat::DBase3 ==> first_terminator(rest) is Some,
{
    let rec = memo_record(format, content);
    assert forall|k: int| 0 <= k < rec.len() implies rest[k] == rec[k] by {
        assert(rest.take(rec.len() as int)[k] == rest[k]);
    }
    match format {
        MemoFormat::DBase3 => {
            let n = content.len() as int;
            assert(rec[n] == 0x1A && rec[n + 1] == 0x1A);
            assert forall|k: int| 0 <= k < n implies !terminator_at(rest, k) by {
                assert(!terminator_at(content.push(0x1A), k));
                if k + 1 < n {
                    assert(rec[k + 1] == content[k + 1]);
                } else {
                    assert(content.push(0x1A)[k + 1] == 0x1A);
                }
                assert(rec[k] == content[k]);
            }
            assert(terminator_at(rest, n));
            lemma_first_terminator_is(rest, n);
            assert forall|k: int| 0 <= k < n implies rest[k] == content[k] by {
                assert(rec[k] == content[k]);
            }
            assert(rest.take(n) =~= content);
        },
        MemoFormat::DBase4 => {
            lemma_le32(content.len());
            let lb = le32_bytes(content.len());
            assert(rec[0] == lb[0] && rec[1] == lb[1] && rec[2] == lb[2] && rec[3] == lb[3]);
            assert(le32(rest, 0) == le32(lb, 0));
            assert forall|k: int| 0 <= k < content.len() implies rest[4 + k] == content[k] by {
                assert(rec[4 + k] == content[k]);
            }
            assert(rest.subrange(4, 4 + content.len() as int) =~= content);
        },
        MemoFormat::VisualFoxPro => {
            lemma_be32(content.len());
            let lb = be32_bytes(content.len());
            assert(rec[4] == lb[0] && rec[5] == lb[1] && rec[6] == lb[2] && rec[7] == lb[3]);
            assert(be32(rest, 4) == be32(lb, 0));
            assert forall|k: int| 0 <= k < content.len() implies rest[8 + k] == content[k] by {
                assert(rec[8 + k] == content[k]);
            }
            assert(rest.subrange(8, 8 + content.len() as int) =~= content);
        },
    }
}

/// Reading the pointer that an append returned gives back the appended
/// content (for dBase III memos: when the content, followed by the first
/// terminator byte, holds no terminator of its own).
pub proof fn law_read_after_append(m: MemoModel, content: Seq<u8>)
    requires
        m.next_free_block >= 1,
        can_append(m, content.len()),
        content.len() <= u32::MAX,
        m.format == MemoFormat::DBase3 ==> forall|i: int|
            0 <= i < content.len() ==> !terminator_at(content.push(0x1A), i),
    ensures
        memo_read(memo_appended(m, content), m.next_free_block) == Ok::<Seq<u8>, ErrorKind>(
            content,
        ),
{
    lemma_appended_from_block(m, content);
    lemma_read_record(m.format, from_block(memo_appended(m, content).bytes, m.next_free_block), content);
}

/// Every append moves the next free block forward, so the pointers that
/// successive appends return increase.
pub proof fn law_append_advances(m: MemoModel, content: Seq<u8>)
    requires
        can_append(m, content.len()),
    ensures
        memo_appended(m, content).next_free_block > m.next_free_block,
{
    assert(record_len(m.format, content.len()) >= 2);
    assert(blocks_for(m.format, content.len()) >= 1);
}

/// A new memo file is well formed, and appending keeps it well formed:
/// the file always ends where its next free block starts.
pub proof fn law_append_keeps_well_formed(m: MemoModel, content: Seq<u8>)
    requires
        memo_well_formed(m),
        can_append(m, content.len()),
    ensures
        memo_well_formed(memo_appended(m, content)),
{
    let off = m.next_free_block as nat * 512;
    let rec = memo_record(m.format, content);
    let next = (m.next_free_block + blocks_for(m.format, content.len())) as u32;
    let x = splice(m.bytes, off, rec);
    let hdr = header_field(m.format, next);
    lemma_splice(m.bytes, off, rec);
    lemma_splice(x, 0, hdr);
    let total = record_len(m.format, content.len());
    lemma_padding(total);
    assert(rec.len() == total + padding(total).len());
    assert(x.len() == off + rec.len());
}

/// A terminator stays the first one when bytes are added after it.
proof fn lemma_first_terminator_extends(r_old: Seq<u8>, r_new: Seq<u8>)
    requires
        r_new.len() >= r_old.len(),
        forall|k: int| 0 <= k < r_old.len() ==> r_new[k] == r_old[k],
        first_terminator(r_old) is Some,
    ensures
        first_terminator(r_new) == first_terminator(r_old),
{
    lemma_first_terminator_found(r_old);
    let i = first_terminator(r_old)->0 as int;
    assert(terminator_at(r_new, i));
    assert forall|k: int| 0 <= k < i implies !terminator_at(r_new, k) by {
        assert(!terminator_at(r_old, k));
    }
    lemma_first_terminator_is(r_new, i);
}

proof fn lemma_read_rest_extends(format: MemoFormat, r_old: Seq<u8>, r_new: Seq<u8>)
    requires
        r_new.len() >= r_old.len(),
        forall|k: int| 0 <= k < r_old.len() ==> r_new[k] == r_old[k],
        read_rest(format, r_old) is Ok,
        format == MemoFormat::DBase3 ==> first_terminator(r_old) is Some,
    ensures
        read_rest(format, r_new) == read_rest(format, r_old),
{
    match format {
        MemoFormat::DBase3 => {
            lemma_first_terminator_found(r_old);
            let i = first_terminator(r_old)->0 as int;
            assert(terminator_at(r_new, i));
            assert forall|k: int| 0 <= k < i implies !terminator_at(r_new, k) by {
                assert(!terminator_at(r_old, k));
            }
            lemma_first_terminator_is(r_new, i);
            assert(r_new.take(i) =~= r_old.take(i));
        },
        MemoFormat::DBase4 => {
            assert(le32(r_new, 0) == le32(r_old, 0));
            assert(r_new.subrange(4, 4 + le32(r_new, 0) as int) =~= r_old.subrange(
                4,
                4 + le32(r_old, 0) as int,
            ));
        },
        MemoFormat::VisualFoxPro => {
            assert(be32(r_new, 4) == be32(r_old, 4));
            assert(r_new.subrange(8, 8 + be32(r_new, 4) as int) =~= r_old.subrange(
                8,
                8 + be32(r_old, 4) as int,
            ));
        },
    }
}

/// Appending leaves every memo that could already be read where it was:
/// it reads the same afterwards (a dBase III memo, when its terminator was
/// already in the file).
pub proof fn law_append_keeps_earlier_memos(
    m: MemoModel,
    content: Seq<u8>,
    block: u32,
    memo: Seq<u8>,
)
    requires
        memo_well_formed(m),
        can_append(m, content.len()),
        block >= 1,
        memo_read(m, block) == Ok::<Seq<u8>, ErrorKind>(memo),
        m.format == MemoFormat::DBase3 ==> first_terminator(from_block(m.bytes, block)) is Some,
    ensures
        memo_read(memo_appended(m, content), block) == Ok::<Seq<u8>, ErrorKind>(memo),
        m.format == MemoFormat::DBase3 ==> first_terminator(
            from_block(memo_appended(m, content).bytes, block),
        ) is Some,
{
    let old_b = m.bytes;
    let off = m.next_free_block as nat * 512;
    let rec = memo_record(m.format, content);
    let next = (m.next_free_block + blocks_for(m.format, content.len())) as u32;
    let x = splice(old_b, off, rec);
    let hdr = header_field(m.format, next);
    let y = splice(x, 0, hdr);
    lemma_splice(old_b, off, rec);
    lemma_splice(x, 0, hdr);
    assert(hdr.len() == 4);
    assert(y == memo_appended(m, content).bytes);
    let p = block as nat * 512;
    let r_old = from_block(old_b, block);
    let r_new = from_block(y, block);
    if p > old_b.len() {
        assert(r_old.len() == 0);
        assert(first_terminator(r_old) is None);
    } else {
        assert(y.len() >= old_b.len());
        assert forall|k: int| 0 <= k < r_old.len() implies r_new[k] == r_old[k] by {
            assert(r_new[k] == y[p + k]);
            assert(r_old[k] == old_b[p + k]);
            assert(y[p + k] == x[p + k]);
        }
        lemma_read_rest_extends(m.format, r_old, r_new);
        if m.format == MemoFormat::DBase3 {
            lemma_first_terminator_extends(r_old, r_new);
        }
    }
}

/// Whether `m` holds `memo` at `block` in a way that later appends keep:
/// it reads there, and a dBase III memo has its terminator in the file.
pub open spec fn holds_memo(m: MemoModel, block: u32, memo: Seq<u8>) -> bool {
    &&& block >= 1
    &&& memo_read(m, block) == Ok::<Seq<u8>, ErrorKind>(memo)
    &&& m.format == MemoFormat::DBase3 ==> first_terminator(from_block(m.bytes, block)) is Some
}

/// Content that a memo file of `format` stores and reads back unchanged:
/// at most `u32::MAX` bytes, and for dBase III no terminator in it (nor
/// one that its last byte would start).
pub open spec fn storable(format: MemoFormat, content: Seq<u8>) -> bool {
    &&& content.len() <= u32::MAX
    &&& format == MemoFormat::DBase3 ==> forall|i: int|
        0 <= i < content.len() ==> !terminator_at(content.push(0x1A), i)
}

/// After an append, the file holds the content at the block the append
/// started at, and stays well formed.
pub proof fn law_append_holds(m: MemoModel, content: Seq<u8>)
    requires
        memo_well_formed(m),
        can_append(m, content.len()),
        storable(m.format, content),
    ensures
        holds_memo(memo_appended(m, content), m.next_free_block, content),
        memo_well_formed(memo_appended(m, content)),
        memo_appended(m, content).format == m.format,
{
    lemma_appended_from_block(m, content);
    lemma_read_record(m.format, from_block(memo_appended(m, content).bytes, m.next_free_block), content);
    law_append_keeps_well_formed(m, content);
}

/// A memo that a file holds, it still holds after an append.
pub proof fn law_append_keeps_holds(m: MemoModel, content: Seq<u8>, block: u32, memo: Seq<u8>)
    requires
        memo_well_formed(m),
        can_append(m, content.len()),
        holds_memo(m, block, memo),
    ensures
        holds_memo(memo_appended(m, content), block, memo),
{
    law_append_keeps_earlier_memos(m, content, block, memo);
}

/// The image of `m` up to the block where its next append goes: what the
/// blocks in use hold.
pub open spec fn settled(m: MemoModel) -> Seq<u8> {
    let n = m.next_free_block as nat * 512;
    if m.bytes.len() <= n {
        m.bytes
    } else {
        m.bytes.take(n as int)
    }
}

/// Whether `m` holds `memo` at `block` within the blocks in use: the image
/// cut at the next free block already holds it.
pub open spec fn holds_settled(m: MemoModel, block: u32, memo: Seq<u8>) -> bool {
    holds_memo(MemoModel { bytes: settled(m), ..m }, block, memo)
}

/// Bytes that agree with `old` on `old`'s length, read from `block` on,
/// keep a memo that `old` holds there.
proof fn lemma_holds_extends(old: MemoModel, new: MemoModel, block: u32, memo: Seq<u8>)
    requires
        holds_memo(old, block, memo),
        new.format == old.format,
        new.bytes.len() >= old.bytes.len(),
        forall|k: int| block as int * 512 <= k < old.bytes.len() ==> new.bytes[k] == old.bytes[k],
    ensures
        holds_memo(new, block, memo),
{
    let p = block as nat * 512;
    let r_old = from_block(old.bytes, block);
    let r_new = from_block(new.bytes, block);
    if p > old.bytes.len() {
        assert(r_old.len() == 0);
        if old.format == MemoFormat::DBase3 {
            assert(first_terminator(r_old) is None);
        }
    } else {
        assert forall|k: int| 0 <= k < r_old.len() implies r_new[k] == r_old[k] by {
            assert(r_new[k] == new.bytes[p + k]);
            assert(r_old[k] == old.bytes[p + k]);
        }
        lemma_read_rest_extends(old.format, r_old, r_new);
        if old.format == MemoFormat::DBase3 {
            lemma_first_terminator_extends(r_old, r_new);
        }
    }
}

/// A memo held within the blocks in use reads back from the whole file.
pub proof fn law_settled_memo_reads(m: MemoModel, block: u32, memo: Seq<u8>)
    requires
        holds_settled(m, block, memo),
    ensures
        holds_memo(m, block, memo),
        memo_read(m, block) == Ok::<Seq<u8>, ErrorKind>(memo),
{
    let c = MemoModel { bytes: settled(m), ..m };
    lemma_holds_extends(c, m, block, memo);
}

/// An append, to any memo file whose next free block is past the header,
/// leaves the appended content held within the blocks in use, at the
/// block the append returned.
#[verifier::spinoff_prover]
#[verifier::rlimit(40)]
pub proof fn law_append_settles(m: MemoModel, content: Seq<u8>)
    requires
        m.next_free_block >= 1,
        can_append(m, content.len()),
        storable(m.format, content),
    ensures
        holds_settled(memo_appended(m, content), m.next_free_block, content),
        memo_appended(m, content).next_free_block > m.next_free_block,
{
    let y = memo_appended(m, content);
    let off = m.next_free_block as nat * 512;
    let rec = memo_record(m.format, content);
    let total = record_len(m.format, content.len());
    lemma_padding(total);
    assert(rec.len() == total + padding(total).len());
    let next_end = y.next_free_block as nat * 512;
    assert(next_end == off + rec.len()) by (nonlinear_arith)
        requires
            next_end == (m.next_free_block + blocks_for(m.format, content.len())) * 512,
            off == m.next_free_block * 512,
            blocks_for(m.format, content.len()) == (total + 511) / 512,
            rec.len() == ((total + 511) / 512) * 512,
    ;
    lemma_appended_from_block(m, content);
    let rest = from_block(y.bytes, m.next_free_block);
    let c = settled(y);
    assert(c.len() == next_end);
    let rest_c = from_block(c, m.next_free_block);
    assert(rest_c.len() == rec.len());
    assert forall|k: int| 0 <= k < rec.len() implies rest_c[k] == rec[k] by {
        assert(rest_c[k] == c[off + k]);
        assert(c[off + k] == y.bytes[off + k]);
        assert(y.bytes[off + k] == rest[k]);
        assert(rest.take(rec.len() as int)[k] == rest[k]);
    }
    assert(rest_c.take(rec.len() as int) =~= rec);
    lemma_read_record(m.format, rest_c, content);
    law_append_advances(m, content);
}

/// Appending keeps every memo held within the blocks in use, whatever
/// the file holds beyond them: it is still held there afterwards, so
/// memos appended one after another all read back.
#[verifier::spinoff_prover]
#[verifier::rlimit(40)]
pub proof fn law_append_keeps_settled(m: MemoModel, content: Seq<u8>, block: u32, memo: Seq<u8>)
    requires
        m.next_free_block >= 1,
        can_append(m, content.len()),
        holds_settled(m, block, memo),
    ensures
        holds_settled(memo_appended(m, content), block, memo),
        memo_read(memo_appended(m, content), block) == Ok::<Seq<u8>, ErrorKind>(memo),
{
    let old_b = m.bytes;
    let off = m.next_free_block as nat * 512;
    let rec = memo_record(m.format, content);
    let next = (m.next_free_block + blocks_for(m.format, content.len())) as u32;
    let x = splice(old_b, off, rec);
    let hdr = header_field(m.format, next);
    let y = splice(x, 0, hdr);
    lemma_splice(old_b, off, rec);
    lemma_splice(x, 0, hdr);
    assert(hdr.len() == 4);
    let ym = memo_appended(m, content);
    assert(y == ym.bytes);
    law_append_advances(m, content);
    let c_old = MemoModel { bytes: settled(m), ..m };
    let c_new = MemoModel { bytes: settled(ym), ..ym };
    let total = record_len(m.format, content.len());
    lemma_padding(total);
    assert(ym.next_free_block as nat * 512 == off + rec.len()) by (nonlinear_arith)
        requires
            ym.next_free_block as nat * 512 == (m.next_free_block + blocks_for(m.format, content.len())) * 512,
            off == m.next_free_block * 512,
            blocks_for(m.format, content.len()) == (total + 511) / 512,
            rec.len() == total + padding(total).len(),
            total + padding(total).len() == ((total + 511) / 512) * 512,
    ;
    assert(settled(ym).len() == off + rec.len());
    assert(block as int * 512 >= 512);
    assert forall|k: int| block as int * 512 <= k < c_old.bytes.len() implies c_new.bytes[k]
        == c_old.bytes[k] by {
        assert(k < off);
        assert(c_new.bytes[k] == y[k]);
        assert(y[k] == x[k]);
        assert(x[k] == old_b[k]);
    }
    lemma_holds_extends(c_old, c_new, block, memo);
    law_settled_memo_reads(ym, block, memo);
}

/// The memo file after appending each of `contents` in turn.
pub open spec fn appended_all(m: MemoModel, contents: Seq<Seq<u8>>) -> MemoModel
    decreases contents.len(),
{
    if contents.len() == 0 {
        m
    } else {
        memo_appended(appended_all(m, contents.drop_last()), contents.last())
    }
}

/// The block that the append of `contents[i]` returns, when `contents`
/// are appended in turn.
pub open spec fn append_pointer(m: MemoModel, contents: Seq<Seq<u8>>, i: int) -> u32 {
    appended_all(m, contents.take(i)).next_free_block
}

/// Appending `contents` in turn stays in range and each content is one
/// that the format stores.
pub open spec fn appends_fit(m: MemoModel, contents: Seq<Seq<u8>>) -> bool {
    forall|i: int|
        0 <= i < contents.len() ==> can_append(#[trigger] appended_all(m, contents.take(i)), contents[i].len())
            && storable(m.format, contents[i])
}

/// The invariant of appending in turn: every content appended so far is
/// held within the blocks in use at the block its append returned, and
/// those blocks come in increasing order before the next free block.
#[verifier::spinoff_prover]
#[verifier::rlimit(60)]
proof fn lemma_appends_in_turn(m: MemoModel, contents: Seq<Seq<u8>>)
    requires
        m.next_free_block >= 1,
        appends_fit(m, contents),
    ensures
        appended_all(m, contents).format == m.format,
        appended_all(m, contents).next_free_block >= m.next_free_block,
        forall|i: int|
            0 <= i < contents.len() ==> holds_settled(
                appended_all(m, contents),
                #[trigger] append_pointer(m, contents, i),
                contents[i],
            ),
        forall|i: int|
            0 <= i < contents.len() ==> #[trigger] append_pointer(m, contents, i)
                < appended_all(m, contents).next_free_block,
        forall|i: int, j: int|
            0 <= i < j < contents.len() ==> #[trigger] append_pointer(m, contents, i)
                < #[trigger] append_pointer(m, contents, j),
    decreases contents.len(),
{
    let n = contents.len() as int;
    if n > 0 {
        let init = contents.drop_last();
        assert forall|i: int| 0 <= i < init.len() implies can_append(
            #[trigger] appended_all(m, init.take(i)),
            init[i].len(),
        ) && storable(m.format, init[i]) by {
            assert(init.take(i) =~= contents.take(i));
            assert(init[i] == contents[i]);
            assert(can_append(appended_all(m, contents.take(i)), contents[i].len()));
        }
        lemma_appends_in_turn(m, init);
        let a = appended_all(m, init);
        let c = contents.last();
        assert(contents.take(n - 1) =~= init);
        assert(can_append(appended_all(m, contents.take(n - 1)), contents[n - 1].len()));
        assert(storable(m.format, contents[n - 1]));
        assert(appended_all(m, contents) == memo_appended(a, c));
        law_append_settles(a, c);
        assert forall|i: int| 0 <= i < n - 1 implies append_pointer(m, contents, i) == append_pointer(
            m,
            init,
            i,
        ) by {
            assert(contents.take(i) =~= init.take(i));
        }
        assert(append_pointer(m, contents, n - 1) == a.next_free_block);
        assert forall|i: int| 0 <= i < n implies holds_settled(
            appended_all(m, contents),
            #[trigger] append_pointer(m, contents, i),
            contents[i],
        ) by {
            if i < n - 1 {
                assert(append_pointer(m, contents, i) == append_pointer(m, init, i));
                assert(init[i] == contents[i]);
                law_append_keeps_settled(a, c, append_pointer(m, init, i), init[i]);
            }
        }
        assert forall|i: int| 0 <= i < n implies #[trigger] append_pointer(m, contents, i)
            < appended_all(m, contents).next_free_block by {
            if i < n - 1 {
                assert(append_pointer(m, contents, i) == append_pointer(m, init, i));
            }
        }
        assert forall|i: int, j: int| 0 <= i < j < n implies #[trigger] append_pointer(m, contents, i)
            < #[trigger] append_pointer(m, contents, j) by {
            assert(append_pointer(m, contents, i) == append_pointer(m, init, i));
            if j < n - 1 {
                assert(append_pointer(m, contents, j) == append_pointer(m, init, j));
            }
        }
    }
}

/// Memos appended one after another to any memo file whose next free
/// block is past the header all read back from the final file, each at
/// the block its append returned; those blocks increase; block 0 reads
/// as nothing.
pub proof fn law_appends_read_back(m: MemoModel, contents: Seq<Seq<u8>>)
    requires
        m.next_free_block >= 1,
        appends_fit(m, contents),
    ensures
        forall|i: int|
            0 <= i < contents.len() ==> memo_read(appended_all(m, contents), #[trigger] append_pointer(m, contents, i))
                == Ok::<Seq<u8>, ErrorKind>(contents[i]),
        forall|i: int, j: int|
            0 <= i < j < contents.len() ==> #[trigger] append_pointer(m, contents, i)
                < #[trigger] append_pointer(m, contents, j),
        memo_read(appended_all(m, contents), 0) == Ok::<Seq<u8>, ErrorKind>(Seq::empty()),
{
    lemma_appends_in_turn(m, contents);
    assert forall|i: int| 0 <= i < contents.len() implies memo_read(
        appended_all(m, contents),
        #[trigger] append_pointer(m, contents, i),
    ) == Ok::<Seq<u8>, ErrorKind>(contents[i]) by {
        law_settled_memo_reads(appended_all(m, contents), append_pointer(m, contents, i), contents[i]);
    }
}

/// A copy of `b[from..to]`.
fn copy_range(b: &[u8], from: usize, to: usize) -> (r: Vec<u8>)
    requires
        from <= to <= b@.len(),
    ensures
        r@ == b@.subrange(from as int, to as int),
{
    let mut r: Vec<u8> = Vec::new();
    let mut i = from;
    while i < to
        invariant
            from <= i <= to <= b@.len(),
            r@ == b@.subrange(from as int, i as int),
        decreases to - i,
    {
        r.push(b[i]);
        i += 1;
        proof {
            assert(r@ =~= b@.subrange(from as int, i as int));
        }
    }
    r
}

} // verus!
