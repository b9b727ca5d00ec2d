//! Fixed-width integer fields read from and written to byte sequences.
use vstd::prelude::*;

verus! {

/// The little-endian value of all the bytes of `s`.
pub open spec fn le_value(s: Seq<u8>) -> int
    decreases s.len(),
{
    if s.len() == 0 {
        0
    } else {
        le_value(s.drop_last()) + s.last() * vstd::arithmetic::power2::pow2((8 * (s.len() - 1)) as nat)
    }
}

/// The value of a bit stream packed least significant bit first: the whole
/// bytes `out`, then the pending bits `pending`.
pub open spec fn stream_value(out: Seq<u8>, pending: int) -> int {
    le_value(out) + pending * vstd::arithmetic::power2::pow2((8 * out.len()) as nat)
}

/// Moving the low byte of the pending bits into the bytes keeps the value.
pub proof fn lemma_flush_byte(out: Seq<u8>, v: int, hi: int, lo: u8)
    requires
        v == hi * 256 + lo,
    ensures
        stream_value(out.push(lo), hi) == stream_value(out, v),
{
    let p = vstd::arithmetic::power2::pow2((8 * out.len()) as nat) as int;
    assert(out.push(lo).drop_last() =~= out);
    vstd::arithmetic::power2::lemma_pow2_adds((8 * out.len()) as nat, 8);
    vstd::arithmetic::power2::lemma2_to64();
    assert(vstd::arithmetic::power2::pow2((8 * out.push(lo).len()) as nat) == p * 256);
    assert(lo * p + hi * (p * 256) == v * p) by (nonlinear_arith)
        requires
            v == hi * 256 + lo,
    ;
}

/// Adding `value` at bit `at` of the pending bits, as seen in the stream.
pub proof fn lemma_add_pending(out: Seq<u8>, pending: int, value: int, at: nat)
    ensures
        stream_value(out, pending + value * vstd::arithmetic::power2::pow2(at)) == stream_value(out, pending)
            + value * vstd::arithmetic::power2::pow2(8 * out.len() + at),
{
    let p = vstd::arithmetic::power2::pow2((8 * out.len()) as nat) as int;
    let q = vstd::arithmetic::power2::pow2(at) as int;
    vstd::arithmetic::power2::lemma_pow2_adds((8 * out.len()) as nat, at);
    assert((pending + value * q) * p == pending * p + value * (p * q)) by (nonlinear_arith);
}

/// Little-endian 16-bit field at `i`.
pub open spec fn le16(b: Seq<u8>, i: int) -> int {
    b[i] + 256 * b[i + 1]
}

/// Little-endian 32-bit field at `i`.
pub open spec fn le32(b: Seq<u8>, i: int) -> int {
    b[i] + 256 * b[i + 1] + 65536 * b[i + 2] + 16777216 * b[i + 3]
}

/// Little-endian 64-bit field at `i`.
pub open spec fn le64(b: Seq<u8>, i: int) -> int {
    le32(b, i) + 4294967296 * le32(b, i + 4)
}

/// Big-endian 16-bit field at `i`.
pub open spec fn be16(b: Seq<u8>, i: int) -> int {
    256 * b[i] + b[i + 1]
}

/// Big-endian 32-bit field at `i`.
pub open spec fn be32(b: Seq<u8>, i: int) -> int {
    16777216 * b[i] + 65536 * b[i + 1] + 256 * b[i + 2] + b[i + 3]
}

/// Big-endian 64-bit field at `i`.
pub open spec fn be64(b: Seq<u8>, i: int) -> int {
    4294967296 * be32(b, i) + be32(b, i + 4)
}

/// The two little-endian bytes of `v`.
pub open spec fn le16_bytes(v: int) -> Seq<u8> {
    seq![(v % 256) as u8, (v / 256 % 256) as u8]
}

/// The four little-endian bytes of `v`.
pub open spec fn le32_bytes(v: int) -> Seq<u8> {
    seq![(v % 256) as u8, (v / 256 % 256) as u8, (v / 65536 % 256) as u8, (v / 16777216 % 256) as u8]
}

/// The eight little-endian bytes of `v`.
pub open spec fn le64_bytes(v: int) -> Seq<u8> {
    le32_bytes(v % 4294967296) + le32_bytes(v / 4294967296)
}

/// The two big-endian bytes of `v`.
pub open spec fn be16_bytes(v: int) -> Seq<u8> {
    seq![(v / 256 % 256) as u8, (v % 256) as u8]
}

/// The four big-endian bytes of `v`.
pub open spec fn be32_bytes(v: int) -> Seq<u8> {
    seq![(v / 16777216 % 256) as u8, (v / 65536 % 256) as u8, (v / 256 % 256) as u8, (v % 256) as u8]
}

/// The eight big-endian bytes of `v`.
pub open spec fn be64_bytes(v: int) -> Seq<u8> {
    be32_bytes(v / 4294967296) + be32_bytes(v % 4294967296)
}

pub fn read_le16(b: &[u8], i: usize) -> (r: u16)
    requires
        i + 2 <= b@.len(),
    ensures
        r == le16(b@, i as int),
{
    b[i] as u16 + (b[i + 1] as u16) * 256
}

pub fn read_le32(b: &[u8], i: usize) -> (r: u32)
    requires
        i + 4 <= b@.len(),
    ensures
        r == le32(b@, i as int),
{
    b[i] as u32 + (b[i + 1] as u32) * 256 + (b[i + 2] as u32) * 65536 + (b[i + 3] as u32) * 16777216
}

pub fn read_le64(b: &[u8], i: usize) -> (r: u64)
    requires
        i + 8 <= b.len(),
    ensures
        r == le64(b@, i as int),
{
    let lo = read_le32(b, i) as u64;
    let hi = read_le32(b, i + 4) as u64;
    lo + hi * 4294967296
}

pub fn read_be16(b: &[u8], i: usize) -> (r: u16)
    requires
        i + 2 <= b@.len(),
    ensures
        r == be16(b@, i as int),
{
    (b[i] as u16) * 256 + b[i + 1] as u16
}

pub fn read_be32(b: &[u8], i: usize) -> (r: u32)
    requires
        i + 4 <= b@.len(),
    ensures
        r == be32(b@, i as int),
{
    (b[i] as u32) * 16777216 + (b[i + 1] as u32) * 65536 + (b[i + 2] as u32) * 256 + b[i + 3] as u32
}

pub fn read_be64(b: &[u8], i: usize) -> (r: u64)
    requires
        i + 8 <= b.len(),
    ensures
        r == be64(b@, i as int),
{
    let hi = read_be32(b, i) as u64;
    let lo = read_be32(b, i + 4) as u64;
    hi * 4294967296 + lo
}

pub fn push_le16(out: &mut Vec<u8>, v: u16)
    ensures
        final(out)@ == old(out)@ + le16_bytes(v as int),
{
    out.push((v % 256) as u8);
    out.push((v / 256) as u8);
}

pub fn push_le32(out: &mut Vec<u8>, v: u32)
    ensures
        final(out)@ == old(out)@ + le32_bytes(v as int),
{
    out.push((v % 256) as u8);
    out.push((v / 256 % 256) as u8);
    out.push((v / 65536 % 256) as u8);
    out.push((v / 16777216) as u8);
}

pub fn push_le64(out: &mut Vec<u8>, v: u64)
    ensures
        final(out)@ == old(out)@ + le64_bytes(v as int),
{
    push_le32(out, (v % 4294967296) as u32);
    push_le32(out, (v / 4294967296) as u32);
}

pub fn push_be16(out: &mut Vec<u8>, v: u16)
    ensures
        final(out)@ == old(out)@ + be16_bytes(v as int),
{
    out.push((v / 256) as u8);
    out.push((v % 256) as u8);
}

pub fn push_be32(out: &mut Vec<u8>, v: u32)
    ensures
        final(out)@ == old(out)@ + be32_bytes(v as int),
{
    out.push((v / 16777216) as u8);
    out.push((v / 65536 % 256) as u8);
    out.push((v / 256 % 256) as u8);
    out.push((v % 256) as u8);
}

pub fn push_be64(out: &mut Vec<u8>, v: u64)
    ensures
        final(out)@ == old(out)@ + be64_bytes(v as int),
{
    push_be32(out, (v / 4294967296) as u32);
    push_be32(out, (v % 4294967296) as u32);
}

/// Whether the four bytes at `i` equal `tag`.
pub fn tag_at(b: &[u8], i: usize, tag: [u8; 4]) -> (r: bool)
    requires
        i + 4 <= b@.len(),
    ensures
        r == (b@.subrange(i as int, i + 4) == tag@),
{
    let r = b[i] == tag[0] && b[i + 1] == tag[1] && b[i + 2] == tag[2] && b[i + 3] == tag[3];
    if r {
        assert(b@.subrange(i as int, i + 4) =~= tag@);
    } else {
        assert(b@.subrange(i as int, i + 4) != tag@) by {
            if b@.subrange(i as int, i + 4) == tag@ {
                assert(b@.subrange(i as int, i + 4)[0] == tag@[0]);
                assert(b@.subrange(i as int, i + 4)[1] == tag@[1]);
                assert(b@.subrange(i as int, i + 4)[2] == tag@[2]);
                assert(b@.subrange(i as int, i + 4)[3] == tag@[3]);
            }
        }
    }
    r
}

/// Appends `src[start..start + len]` to `out`.
pub fn push_range(out: &mut Vec<u8>, src: &[u8], start: usize, len: usize)
    requires
        start + len <= src.len(),
    ensures
        final(out)@ == old(out)@ + src@.subrange(start as int, start + len),
{
    let mut k: usize = 0;
    while k < len
        invariant
            k <= len,
            start + len <= src.len(),
            out@ == old(out)@ + src@.subrange(start as int, start + k),
        decreases len - k,
    {
        out.push(src[start + k]);
        k = k + 1;
        assert(out@ =~= old(out)@ + src@.subrange(start as int, start + k));
    }
}

/// Appends `count` zero bytes to `out`.
pub fn push_zeros(out: &mut Vec<u8>, count: usize)
    ensures
        final(out)@ == old(out)@ + Seq::new(count as nat, |_i: int| 0u8),
{
    let mut k: usize = 0;
    while k < count
        invariant
            k <= count,
            out@ == old(out)@ + Seq::new(k as nat, |_i: int| 0u8),
        decreases count - k,
    {
        out.push(0u8);
        k = k + 1;
        assert(out@ =~= old(out)@ + Seq::new(k as nat, |_i: int| 0u8));
    }
}

} // verus!
