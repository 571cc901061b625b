//! Little- and big-endian integers in byte sequences, and writing into a
//! byte image the way a file is written after a seek.

use vstd::prelude::*;

verus! {

/// The little-endian unsigned number in `b[at..at + 2]`.
pub open spec fn le16(b: Seq<u8>, at: int) -> nat {
    (b[at] as nat) + 256 * (b[at + 1] as nat)
}

/// The little-endian unsigned number in `b[at..at + 4]`.
pub open spec fn le32(b: Seq<u8>, at: int) -> nat {
    le16(b, at) + 65536 * le16(b, at + 2)
}

/// The little-endian unsigned number in `b[at..at + 8]`.
pub open spec fn le64(b: Seq<u8>, at: int) -> nat {
    le32(b, at) + 4294967296 * le32(b, at + 4)
}

/// The big-endian unsigned number in `b[at..at + 4]`.
pub open spec fn be32(b: Seq<u8>, at: int) -> nat {
    16777216 * (b[at] as nat) + 65536 * (b[at + 1] as nat) + 256 * (b[at + 2] as nat) + (b[at
        + 3] as nat)
}

/// The two little-endian bytes of `x < 2^16`.
pub open spec fn le16_bytes(x: nat) -> Seq<u8> {
    seq![(x % 256) as u8, ((x / 256) % 256) as u8]
}

/// The four little-endian bytes of `x < 2^32`.
pub open spec fn le32_bytes(x: nat) -> Seq<u8> {
    le16_bytes(x % 65536) + le16_bytes(x / 65536)
}

/// The eight little-endian bytes of `x < 2^64`.
pub open spec fn le64_bytes(x: nat) -> Seq<u8> {
    le32_bytes(x % 4294967296) + le32_bytes(x / 4294967296)
}

/// The four big-endian bytes of `x < 2^32`.
pub open spec fn be32_bytes(x: nat) -> Seq<u8> {
    seq![((x / 16777216) % 256) as u8, ((x / 65536) % 256) as u8, ((x / 256) % 256) as u8, (x
        % 256) as u8]
}

/// Two's complement reading of a 32-bit pattern.
pub open spec fn signed32(u: nat) -> int {
    if u < 0x8000_0000 {
        u as int
    } else {
        u - 0x1_0000_0000
    }
}

/// The 32-bit pattern of a signed number.
pub open spec fn bits32(i: int) -> nat {
    if i < 0 {
        (i + 0x1_0000_0000) as nat
    } else {
        i as nat
    }
}

/// Two's complement reading of a 64-bit pattern.
pub open spec fn signed64(u: nat) -> int {
    if u < 0x8000_0000_0000_0000 {
        u as int
    } else {
        u - 0x1_0000_0000_0000_0000
    }
}

/// The 64-bit pattern of a signed number.
pub open spec fn bits64(i: int) -> nat {
    if i < 0 {
        (i + 0x1_0000_0000_0000_0000) as nat
    } else {
        i as nat
    }
}

/// `n` zero bytes.
pub open spec fn zeros(n: nat) -> Seq<u8> {
    Seq::new(n, |i: int| 0u8)
}

/// `b`, extended with zeros to at least `n` bytes.
pub open spec fn zero_extend(b: Seq<u8>, n: nat) -> Seq<u8> {
    if b.len() < n {
        b + zeros((n - b.len()) as nat)
    } else {
        b
    }
}

/// The image `b` after writing `data` at `pos`: a gap past the end reads
/// as zeros, and the image grows where the write runs past its end.
pub open spec fn splice(b: Seq<u8>, pos: nat, data: Seq<u8>) -> Seq<u8> {
    let e = zero_extend(b, pos);
    let end = pos + data.len();
    e.take(pos as int) + data + if end < e.len() {
        e.skip(end as int)
    } else {
        Seq::empty()
    }
}

pub proof fn lemma_le16(x: nat)
    requires
        x < 65536,
    ensures
        le16(le16_bytes(x), 0) == x,
        le16_bytes(x).len() == 2,
{
}

pub proof fn lemma_le32(x: nat)
    requires
        x < 4294967296,
    ensures
        le32(le32_bytes(x), 0) == x,
        le32_bytes(x).len() == 4,
{
    lemma_le16(x % 65536);
    lemma_le16(x / 65536);
    let b = le32_bytes(x);
    assert(b.subrange(0, 2) =~= le16_bytes(x % 65536));
    assert(b.subrange(2, 4) =~= le16_bytes(x / 65536));
    assert(le16(b, 0) == le16(le16_bytes(x % 65536), 0));
    assert(le16(b, 2) == le16(le16_bytes(x / 65536), 0));
}

pub proof fn lemma_le64(x: nat)
    requires
        x < 0x1_0000_0000_0000_0000,
    ensures
        le64(le64_bytes(x), 0) == x,
        le64_bytes(x).len() == 8,
{
    lemma_le32(x % 4294967296);
    lemma_le32(x / 4294967296);
    let b = le64_bytes(x);
    let lo = le32_bytes(x % 4294967296);
    let hi = le32_bytes(x / 4294967296);
    assert(le32(b, 0) == le32(lo, 0)) by {
        assert(b[0] == lo[0] && b[1] == lo[1] && b[2] == lo[2] && b[3] == lo[3]);
    }
    assert(le32(b, 4) == le32(hi, 0)) by {
        assert(b[4] == hi[0] && b[5] == hi[1] && b[6] == hi[2] && b[7] == hi[3]);
    }
}

pub proof fn lemma_be32(x: nat)
    requires
        x < 4294967296,
    ensures
        be32(be32_bytes(x), 0) == x,
        be32_bytes(x).len() == 4,
{
}

pub proof fn lemma_signed32(i: int)
    requires
        -0x8000_0000 <= i < 0x8000_0000,
    ensures
        bits32(i) < 0x1_0000_0000,
        signed32(bits32(i)) == i,
{
}

pub proof fn lemma_signed64(i: int)
    requires
        -0x8000_0000_0000_0000 <= i < 0x8000_0000_0000_0000,
    ensures
        bits64(i) < 0x1_0000_0000_0000_0000,
        signed64(bits64(i)) == i,
{
}

/// The little-endian `u16` at `b[at..at + 2]`.
pub fn read_le16(b: &[u8], at: usize) -> (x: u16)
    requires
        at + 2 <= b@.len(),
    ensures
        x as nat == le16(b@, at as int),
{
    (b[at] as u16) + 256 * (b[at + 1] as u16)
}

/// The little-endian `u32` at `b[at..at + 4]`.
pub fn read_le32(b: &[u8], at: usize) -> (x: u32)
    requires
        at + 4 <= b@.len(),
    ensures
        x as nat == le32(b@, at as int),
{
    // Reading the length tells Verus it fits in a usize, so `at + 2` cannot overflow.
    let _n = b.len();
    let lo = read_le16(b, at) as u32;
    let hi = read_le16(b, at + 2) as u32;
    lo + 65536 * hi
}

/// The little-endian `u64` at `b[at..at + 8]`.
pub fn read_le64(b: &[u8], at: usize) -> (x: u64)
    requires
        at + 8 <= b@.len(),
    ensures
        x as nat == le64(b@, at as int),
{
    // As above: the length bounds `at + 4`.
    let _n = b.len();
    let lo = read_le32(b, at) as u64;
    let hi = read_le32(b, at + 4) as u64;
    lo + 4294967296 * hi
}

/// The big-endian `u32` at `b[at..at + 4]`.
pub fn read_be32(b: &[u8], at: usize) -> (x: u32)
    requires
        at + 4 <= b@.len(),
    ensures
        x as nat == be32(b@, at as int),
{
    16777216 * (b[at] as u32) + 65536 * (b[at + 1] as u32) + 256 * (b[at + 2] as u32) + (b[at
        + 3] as u32)
}

/// The little-endian `i32` at `b[at..at + 4]`.
pub fn read_le_i32(b: &[u8], at: usize) -> (x: i32)
    requires
        at + 4 <= b@.len(),
    ensures
        x as int == signed32(le32(b@, at as int)),
{
    let u = read_le32(b, at);
    if u < 0x8000_0000 {
        u as i32
    } else {
        ((u as i64) - 0x1_0000_0000) as i32
    }
}

/// The little-endian `i64` at `b[at..at + 8]`.
pub fn read_le_i64(b: &[u8], at: usize) -> (x: i64)
    requires
        at + 8 <= b@.len(),
    ensures
        x as int == signed64(le64(b@, at as int)),
{
    let u = read_le64(b, at);
    if u < 0x8000_0000_0000_0000 {
        u as i64
    } else {
        ((u as i128) - 0x1_0000_0000_0000_0000) as i64
    }
}

/// Appends the two little-endian bytes of `x`.
pub fn push_le16(out: &mut Vec<u8>, x: u16)
    ensures
        final(out)@ == old(out)@ + le16_bytes(x as nat),
{
    out.push((x % 256) as u8);
    out.push(((x / 256) % 256) as u8);
    proof {
        assert(final(out)@ =~= old(out)@ + le16_bytes(x as nat));
    }
}

/// Appends the four little-endian bytes of `x`.
pub fn push_le32(out: &mut Vec<u8>, x: u32)
    ensures
        final(out)@ == old(out)@ + le32_bytes(x as nat),
{
    push_le16(out, (x % 65536) as u16);
    push_le16(out, (x / 65536) as u16);
    proof {
        assert(final(out)@ =~= old(out)@ + le32_bytes(x as nat));
    }
}

/// Appends the eight little-endian bytes of `x`.
pub fn push_le64(out: &mut Vec<u8>, x: u64)
    ensures
        final(out)@ == old(out)@ + le64_bytes(x as nat),
{
    push_le32(out, (x % 4294967296) as u32);
    push_le32(out, (x / 4294967296) as u32);
    proof {
        assert(final(out)@ =~= old(out)@ + le64_bytes(x as nat));
    }
}

/// Appends the four big-endian bytes of `x`.
pub fn push_be32(out: &mut Vec<u8>, x: u32)
    ensures
        final(out)@ == old(out)@ + be32_bytes(x as nat),
{
    out.push(((x / 16777216) % 256) as u8);
    out.push(((x / 65536) % 256) as u8);
    out.push(((x / 256) % 256) as u8);
    out.push((x % 256) as u8);
    proof {
        assert(final(out)@ =~= old(out)@ + be32_bytes(x as nat));
    }
}

/// The bit pattern of an `i32`.
pub fn i32_bits(x: i32) -> (u: u32)
    ensures
        u as nat == bits32(x as int),
{
    if x < 0 {
        ((x as i64) + 0x1_0000_0000) as u32
    } else {
        x as u32
    }
}

/// The bit pattern of an `i64`.
pub fn i64_bits(x: i64) -> (u: u64)
    ensures
        u as nat == bits64(x as int),
{
    if x < 0 {
        ((x as i128) + 0x1_0000_0000_0000_0000) as u64
    } else {
        x as u64
    }
}

/// Appends `n` copies of `byte`.
pub fn push_repeat(out: &mut Vec<u8>, byte: u8, n: usize)
    ensures
        final(out)@ == old(out)@ + Seq::new(n as nat, |i: int| byte),
{
    let mut i: usize = 0;
    while i < n
        invariant
            i <= n,
            out@ == old(out)@ + Seq::new(i as nat, |k: int| byte),
        decreases n - i,
    {
        out.push(byte);
        i += 1;
        proof {
            assert(out@ =~= old(out)@ + Seq::new(i as nat, |k: int| byte));
        }
    }
}

/// Appends the bytes of `data`.
pub fn push_all(out: &mut Vec<u8>, data: &[u8])
    ensures
        final(out)@ == old(out)@ + data@,
{
    let mut i: usize = 0;
    while i < data.len()
        invariant
            i <= data@.len(),
            out@ == old(out)@ + data@.take(i as int),
        decreases data.len() - i,
    {
        out.push(data[i]);
        i += 1;
        proof {
            assert(out@ =~= old(out)@ + data@.take(i as int));
        }
    }
    proof {
        assert(data@.take(data@.len() as int) =~= data@);
    }
}

/// Writes `data` into the image `b` at `pos`, as a seek and a write do.
pub fn write_at(b: &mut Vec<u8>, pos: usize, data: &[u8])
    requires
        pos + data@.len() <= usize::MAX,
    ensures
        final(b)@ == splice(old(b)@, pos as nat, data@),
{
    let ghost e = zero_extend(old(b)@, pos as nat);
    if b.len() < pos {
        let n = pos - b.len();
        push_repeat(b, 0, n);
        proof {
            assert(b@ =~= e);
        }
    }
    assert(b@ == e);
    let mut i: usize = 0;
    while i < data.len()
        invariant
            i <= data@.len(),
            pos + data@.len() <= usize::MAX,
            e.len() >= pos,
            b@ == e.take(pos as int) + data@.take(i as int) + if pos + i < e.len() {
                e.skip(pos + i)
            } else {
                Seq::empty()
            },
        decreases data.len() - i,
    {
        let at = pos + i;
        if at < b.len() {
            b.set(at, data[i]);
        } else {
            b.push(data[i]);
        }
        i += 1;
        proof {
            assert(b@ =~= e.take(pos as int) + data@.take(i as int) + if pos + i < e.len() {
                e.skip(pos + i)
            } else {
                Seq::empty()
            });
        }
    }
    proof {
        assert(data@.take(data@.len() as int) =~= data@);
    }
}

} // verus!
