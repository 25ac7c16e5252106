//! Little-endian integer fields, read and written through `byteorder`.

use vstd::prelude::*;

use byteorder::{ByteOrder, LittleEndian};

verus! {

/// The little-endian `u16` stored at `b[p..p + 2]`.
pub open spec fn le16(b: Seq<u8>, p: int) -> int {
    b[p] as int + 256 * (b[p + 1] as int)
}

/// The little-endian `u32` stored at `b[p..p + 4]`.
pub open spec fn le32(b: Seq<u8>, p: int) -> int {
    le16(b, p) + 65536 * le16(b, p + 2)
}

/// The little-endian `u64` stored at `b[p..p + 8]`.
pub open spec fn le64(b: Seq<u8>, p: int) -> int {
    le32(b, p) + 4294967296 * le32(b, p + 4)
}

/// The two little-endian bytes of `n`.
pub open spec fn bytes16(n: u16) -> Seq<u8> {
    seq![(n % 256) as u8, (n / 256) as u8]
}

/// The four little-endian bytes of `n`.
pub open spec fn bytes32(n: u32) -> Seq<u8> {
    bytes16((n % 65536) as u16) + bytes16((n / 65536) as u16)
}

/// The eight little-endian bytes of `n`.
pub open spec fn bytes64(n: u64) -> Seq<u8> {
    bytes32((n % 4294967296) as u32) + bytes32((n / 4294967296) as u32)
}

pub proof fn lemma_le_bounds(b: Seq<u8>, p: int)
    requires
        0 <= p,
        p + 8 <= b.len(),
    ensures
        0 <= le16(b, p) < 65536,
        0 <= le32(b, p) < 4294967296,
        0 <= le64(b, p) < 18446744073709551616,
{
    assert(0 <= le16(b, p + 2) < 65536);
    assert(0 <= le32(b, p + 4) < 4294967296) by {
        assert(0 <= le16(b, p + 4) < 65536);
        assert(0 <= le16(b, p + 6) < 65536);
    }
    assert(0 <= le32(b, p) < 4294967296);
    assert(0 <= le64(b, p) < 18446744073709551616) by (nonlinear_arith)
        requires
            0 <= le32(b, p) < 4294967296,
            0 <= le32(b, p + 4) < 4294967296,
            le64(b, p) == le32(b, p) + 4294967296 * le32(b, p + 4),
    ;
}

/// Reading back what was written: a field read at `p` from `pre + bytes(n) + post`,
/// with `pre.len() == p`, is `n`.
pub proof fn lemma_read_written16(pre: Seq<u8>, n: u16, post: Seq<u8>)
    ensures
        le16(pre + bytes16(n) + post, pre.len() as int) == n,
{
    let b = pre + bytes16(n) + post;
    assert(b[pre.len() as int] == bytes16(n)[0]);
    assert(b[pre.len() as int + 1] == bytes16(n)[1]);
}

pub proof fn lemma_read_written32(pre: Seq<u8>, n: u32, post: Seq<u8>)
    ensures
        le32(pre + bytes32(n) + post, pre.len() as int) == n,
{
    let lo = (n % 65536) as u16;
    let hi = (n / 65536) as u16;
    assert(pre + bytes32(n) + post =~= pre + bytes16(lo) + (bytes16(hi) + post));
    assert(pre + bytes32(n) + post =~= (pre + bytes16(lo)) + bytes16(hi) + post);
    lemma_read_written16(pre, lo, bytes16(hi) + post);
    lemma_read_written16(pre + bytes16(lo), hi, post);
}

pub proof fn lemma_read_written64(pre: Seq<u8>, n: u64, post: Seq<u8>)
    ensures
        le64(pre + bytes64(n) + post, pre.len() as int) == n,
{
    let lo = (n % 4294967296) as u32;
    let hi = (n / 4294967296) as u32;
    assert(pre + bytes64(n) + post =~= pre + bytes32(lo) + (bytes32(hi) + post));
    assert(pre + bytes64(n) + post =~= (pre + bytes32(lo)) + bytes32(hi) + post);
    lemma_read_written32(pre, lo, bytes32(hi) + post);
    lemma_read_written32(pre + bytes32(lo), hi, post);
}

/// `LittleEndian::read_u16` (byteorder): the first two bytes of `buf`,
/// least significant first. It panics on a shorter buffer.
#[verifier::external_body]
fn le_read_u16(buf: &[u8]) -> (r: u16)
    requires
        buf@.len() >= 2,
    ensures
        r == le16(buf@, 0),
{
    LittleEndian::read_u16(buf)
}

/// `LittleEndian::read_u32` (byteorder): the first four bytes of `buf`,
/// least significant first. It panics on a shorter buffer.
#[verifier::external_body]
fn le_read_u32(buf: &[u8]) -> (r: u32)
    requires
        buf@.len() >= 4,
    ensures
        r == le32(buf@, 0),
{
    LittleEndian::read_u32(buf)
}

/// `LittleEndian::read_u64` (byteorder): the first eight bytes of `buf`,
/// least significant first. It panics on a shorter buffer.
#[verifier::external_body]
fn le_read_u64(buf: &[u8]) -> (r: u64)
    requires
        buf@.len() >= 8,
    ensures
        r == le64(buf@, 0),
{
    LittleEndian::read_u64(buf)
}

/// `LittleEndian::write_u16` (byteorder) into a fresh two-byte buffer:
/// the bytes of `n`, least significant first.
#[verifier::external_body]
fn le_write_u16(n: u16) -> (r: [u8; 2])
    ensures
        r@ == bytes16(n),
{
    let mut b = [0u8; 2];
    LittleEndian::write_u16(&mut b, n);
    b
}

/// `LittleEndian::write_u32` (byteorder) into a fresh four-byte buffer:
/// the bytes of `n`, least significant first.
#[verifier::external_body]
fn le_write_u32(n: u32) -> (r: [u8; 4])
    ensures
        r@ == bytes32(n),
{
    let mut b = [0u8; 4];
    LittleEndian::write_u32(&mut b, n);
    b
}

/// `LittleEndian::write_u64` (byteorder) into a fresh eight-byte buffer:
/// the bytes of `n`, least significant first.
#[verifier::external_body]
fn le_write_u64(n: u64) -> (r: [u8; 8])
    ensures
        r@ == bytes64(n),
{
    let mut b = [0u8; 8];
    LittleEndian::write_u64(&mut b, n);
    b
}

/// The little-endian `u16` at `data[pos..pos + 2]`.
pub fn get_u16(data: &[u8], pos: usize) -> (r: u16)
    requires
        pos + 2 <= data@.len(),
    ensures
        r == le16(data@, pos as int),
{
    let _len = data.len();
    let field = vstd::slice::slice_subrange(data, pos, pos + 2);
    le_read_u16(field)
}

/// The little-endian `u32` at `data[pos..pos + 4]`.
pub fn get_u32(data: &[u8], pos: usize) -> (r: u32)
    requires
        pos + 4 <= data@.len(),
    ensures
        r == le32(data@, pos as int),
{
    let _len = data.len();
    let field = vstd::slice::slice_subrange(data, pos, pos + 4);
    le_read_u32(field)
}

/// The little-endian `u64` at `data[pos..pos + 8]`.
pub fn get_u64(data: &[u8], pos: usize) -> (r: u64)
    requires
        pos + 8 <= data@.len(),
    ensures
        r == le64(data@, pos as int),
{
    let _len = data.len();
    let field = vstd::slice::slice_subrange(data, pos, pos + 8);
    le_read_u64(field)
}

/// Appends the two little-endian bytes of `n`.
pub fn put_u16(out: &mut Vec<u8>, n: u16)
    ensures
        final(out)@ == old(out)@ + bytes16(n),
{
    let b = le_write_u16(n);
    out.push(b[0]);
    out.push(b[1]);
    assert(out@ =~= old(out)@ + bytes16(n));
}

/// Appends the four little-endian bytes of `n`.
pub fn put_u32(out: &mut Vec<u8>, n: u32)
    ensures
        final(out)@ == old(out)@ + bytes32(n),
{
    let b = le_write_u32(n);
    out.push(b[0]);
    out.push(b[1]);
    out.push(b[2]);
    out.push(b[3]);
    assert(out@ =~= old(out)@ + bytes32(n));
}

/// Appends the eight little-endian bytes of `n`.
pub fn put_u64(out: &mut Vec<u8>, n: u64)
    ensures
        final(out)@ == old(out)@ + bytes64(n),
{
    let b = le_write_u64(n);
    let mut i: usize = 0;
    let ghost start = out@;
    while i < 8
        invariant
            i <= 8,
            b@ == bytes64(n),
            b@.len() == 8,
            out@ == start + b@.subrange(0, i as int),
        decreases 8 - i,
    {
        out.push(b[i]);
        i = i + 1;
        assert(out@ =~= start + b@.subrange(0, i as int));
    }
    assert(b@.subrange(0, 8) =~= b@);
}

} // verus!
