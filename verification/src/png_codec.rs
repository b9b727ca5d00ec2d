//! A dependency-free PNG codec.
//!
//! The decoder covers every PNG colour type and legal bit depth, stored,
//! fixed and dynamic Deflate blocks, the five filters and Adam7. The encoder
//! emits one canonical form (RGB/RGBA, 8/16-bit, non-interlaced, stored
//! Deflate) so normalisation has a single deterministic target.
use vstd::prelude::*;
use crate::bytes::{be16, be32, be32_bytes, push_be32, read_be32};
use crate::checksum::{adler32, adler32_spec, crc32, crc32_spec};
use crate::inflate::{inflate_zlib, InflateError};
use crate::png_filter::{apply_filter, filter_score, filtered, score_of, unfilter, unfilters};

verus! {

pub const SIGNATURE: [u8; 8] = [0x89, 0x50, 0x4e, 0x47, 0x0d, 0x0a, 0x1a, 0x0a];

pub open spec fn signature() -> Seq<u8> {
    seq![0x89u8, 0x50, 0x4e, 0x47, 0x0d, 0x0a, 0x1a, 0x0a]
}

#[derive(Debug, Clone, Copy, PartialEq, Eq)]
pub struct Pixel16 {
    pub r: u16,
    pub g: u16,
    pub b: u16,
    pub a: u16,
}

impl Default for Pixel16 {
    fn default() -> (p: Self)
        ensures
            p.r == 0 && p.g == 0 && p.b == 0 && p.a == 0,
    {
        Pixel16 { r: 0, g: 0, b: 0, a: 0 }
    }
}

#[derive(Debug, Clone, PartialEq, Eq)]
pub struct Image {
    pub width: u32,
    pub height: u32,
    pub source_channels: u8,
    pub source_bit_depth: u8,
    pub source_color_type: u8,
    pub interlaced: bool,
    pub pixels: Vec<Pixel16>,
    pub warnings: Vec<String>,
}

#[derive(Debug, Clone, Copy, PartialEq, Eq, Structural)]
pub enum Filter {
    NoFilter,
    Sub,
    Up,
    Average,
    Paeth,
    Adaptive,
}

#[derive(Debug, Clone, PartialEq, Eq)]
pub struct DecodeOptions {
    pub max_pixels: u64,
    pub max_inflate_bytes: u64,
    pub strict_crc: bool,
    pub strict_trailing_data: bool,
}

#[derive(Debug, Clone, PartialEq, Eq)]
pub enum Error {
    Signature,
    Truncated(&'static str),
    Invalid(&'static str),
    Unsupported(&'static str),
    Limit(&'static str),
    Overflow(&'static str),
}

/// The message of a PNG error.
pub open spec fn error_message(e: Error) -> Seq<char> {
    match e {
        Error::Signature => "invalid PNG signature"@,
        Error::Truncated(v) => "truncated PNG "@ + v@,
        Error::Invalid(v) => "invalid PNG "@ + v@,
        Error::Unsupported(v) => "unsupported PNG feature: "@ + v@,
        Error::Limit(v) => "PNG resource limit exceeded: "@ + v@,
        Error::Overflow(v) => "integer overflow while computing PNG "@ + v@,
    }
}

impl Error {
    /// The error's message.
    pub fn to_string(&self) -> (s: String)
        ensures
            s@ == error_message(*self),
    {
        let (prefix, detail): (&str, &str) = match self {
            Error::Signature => ("invalid PNG signature", ""),
            Error::Truncated(v) => ("truncated PNG ", *v),
            Error::Invalid(v) => ("invalid PNG ", *v),
            Error::Unsupported(v) => ("unsupported PNG feature: ", *v),
            Error::Limit(v) => ("PNG resource limit exceeded: ", *v),
            Error::Overflow(v) => ("integer overflow while computing PNG ", *v),
        };
        let mut s = String::from_str(prefix);
        s.append(detail);
        proof {
            reveal_strlit("");
        }
        assert(s@ =~= error_message(*self));
        s
    }
}

/// The PNG error for an inflate error: same kind, same detail.
pub open spec fn inflate_error(e: InflateError) -> Error {
    match e {
        InflateError::Truncated(v) => Error::Truncated(v),
        InflateError::Invalid(v) => Error::Invalid(v),
        InflateError::Unsupported(v) => Error::Unsupported(v),
        InflateError::Limit(v) => Error::Limit(v),
        InflateError::Overflow(v) => Error::Overflow(v),
    }
}

fn from_inflate(e: InflateError) -> (r: Error)
    ensures
        r == inflate_error(e),
{
    match e {
        InflateError::Truncated(v) => Error::Truncated(v),
        InflateError::Invalid(v) => Error::Invalid(v),
        InflateError::Unsupported(v) => Error::Unsupported(v),
        InflateError::Limit(v) => Error::Limit(v),
        InflateError::Overflow(v) => Error::Overflow(v),
    }
}

/// Samples per pixel of a PNG colour type.
pub open spec fn channels_of(color: u8) -> Option<int> {
    if color == 0 {
        Some(1)
    } else if color == 2 {
        Some(3)
    } else if color == 3 {
        Some(1)
    } else if color == 4 {
        Some(2)
    } else if color == 6 {
        Some(4)
    } else {
        None
    }
}

pub fn channels(color: u8) -> (r: Result<usize, Error>)
    ensures
        match channels_of(color) {
            Some(c) => r == Ok::<usize, Error>(c as usize),
            None => r is Err,
        },
{
    if color == 0 {
        Ok(1)
    } else if color == 2 {
        Ok(3)
    } else if color == 3 {
        Ok(1)
    } else if color == 4 {
        Ok(2)
    } else if color == 6 {
        Ok(4)
    } else {
        Err(Error::Invalid("color type"))
    }
}

/// The bit depths PNG allows for each colour type.
pub open spec fn depth_ok(color: u8, depth: u8) -> bool {
    ||| color == 0 && (depth == 1 || depth == 2 || depth == 4 || depth == 8 || depth == 16)
    ||| color == 2 && (depth == 8 || depth == 16)
    ||| color == 3 && (depth == 1 || depth == 2 || depth == 4 || depth == 8)
    ||| color == 4 && (depth == 8 || depth == 16)
    ||| color == 6 && (depth == 8 || depth == 16)
}

pub fn valid_depth(color: u8, depth: u8) -> (r: bool)
    ensures
        r == depth_ok(color, depth),
{
    (color == 0 && (depth == 1 || depth == 2 || depth == 4 || depth == 8 || depth == 16)) || (
    color == 2 && (depth == 8 || depth == 16)) || (color == 3 && (depth == 1 || depth == 2 || depth
        == 4 || depth == 8)) || (color == 4 && (depth == 8 || depth == 16)) || (color == 6 && (
    depth == 8 || depth == 16))
}

/// Pixels of a pass along one axis of `size` pixels, starting at `start`
/// with stride `step`.
pub open spec fn pass_len(size: int, start: int, step: int) -> int {
    if size <= start {
        0
    } else {
        (size - start + step - 1) / step
    }
}

pub fn pass_size(size: u32, start: u32, step: u32) -> (r: u32)
    requires
        1 <= step <= 8,
    ensures
        r as int == pass_len(size as int, start as int, step as int),
{
    if size <= start {
        0
    } else {
        let n = size as u64 - start as u64;
        assert((n + step - 1) / (step as int) <= n) by (nonlinear_arith)
            requires
                n >= 1,
                step >= 1,
        ;
        ((n + step as u64 - 1) / step as u64) as u32
    }
}

/// Origin and stride `(x0, y0, dx, dy)` of pass `p` (Adam7 when interlaced).
pub open spec fn pass_params(interlaced: bool, p: int) -> (int, int, int, int) {
    if !interlaced {
        (0, 0, 1, 1)
    } else if p == 0 {
        (0, 0, 8, 8)
    } else if p == 1 {
        (4, 0, 8, 8)
    } else if p == 2 {
        (0, 4, 4, 8)
    } else if p == 3 {
        (2, 0, 4, 4)
    } else if p == 4 {
        (0, 2, 2, 4)
    } else if p == 5 {
        (1, 0, 2, 2)
    } else {
        (0, 1, 1, 2)
    }
}

fn pass(interlaced: bool, p: usize) -> (r: (u32, u32, u32, u32))
    ensures
        r.0 as int == pass_params(interlaced, p as int).0,
        r.1 as int == pass_params(interlaced, p as int).1,
        r.2 as int == pass_params(interlaced, p as int).2,
        r.3 as int == pass_params(interlaced, p as int).3,
        1 <= r.2 <= 8,
        1 <= r.3 <= 8,
        r.0 < 8,
        r.1 < 8,
{
    if !interlaced {
        (0, 0, 1, 1)
    } else if p == 0 {
        (0, 0, 8, 8)
    } else if p == 1 {
        (4, 0, 8, 8)
    } else if p == 2 {
        (0, 4, 4, 8)
    } else if p == 3 {
        (2, 0, 4, 4)
    } else if p == 4 {
        (0, 2, 2, 4)
    } else if p == 5 {
        (1, 0, 2, 2)
    } else {
        (0, 1, 1, 2)
    }
}

pub open spec fn pass_count(interlaced: bool) -> int {
    if interlaced {
        7
    } else {
        1
    }
}

/// Filtered bytes of passes `0..p`: a filter byte and the packed samples for
/// every row of every non-empty pass.
pub open spec fn inflated_len(w: int, h: int, bits: int, interlaced: bool, p: int) -> int
    decreases p,
{
    if p <= 0 {
        0
    } else {
        let (x0, y0, dx, dy) = pass_params(interlaced, p - 1);
        let pw = pass_len(w, x0, dx);
        let ph = pass_len(h, y0, dy);
        inflated_len(w, h, bits, interlaced, p - 1) + if pw == 0 || ph == 0 {
            0
        } else {
            ph * ((pw * bits + 7) / 8 + 1)
        }
    }
}

/// The number of filtered scanline bytes an image needs.
proof fn lemma_inflated_len_grows(w: int, h: int, bits: int, interlaced: bool, p: int, q: int)
    requires
        0 <= p <= q,
        w >= 0,
        h >= 0,
        bits >= 1,
    ensures
        inflated_len(w, h, bits, interlaced, p) <= inflated_len(w, h, bits, interlaced, q),
    decreases q - p,
{
    if p < q {
        lemma_inflated_len_grows(w, h, bits, interlaced, p, q - 1);
        let (x0, y0, dx, dy) = pass_params(interlaced, q - 1);
        let pw = pass_len(w, x0, dx);
        let ph = pass_len(h, y0, dy);
        if pw != 0 && ph != 0 {
            assert(pw * bits >= 0) by (nonlinear_arith)
                requires
                    pw >= 0,
                    bits >= 1,
            ;
            assert(ph * ((pw * bits + 7) / 8 + 1) >= 0) by (nonlinear_arith)
                requires
                    ph >= 0,
                    pw * bits >= 0,
            ;
        }
    }
}

pub fn expected_inflate(width: u32, height: u32, bits_per_pixel: usize, interlaced: bool) -> (r: Result<usize, Error>)
    requires
        1 <= bits_per_pixel <= 64,
    ensures
        r matches Ok(n) ==> n == inflated_len(
            width as int,
            height as int,
            bits_per_pixel as int,
            interlaced,
            pass_count(interlaced),
        ),
        r is Ok <==> inflated_len(
            width as int,
            height as int,
            bits_per_pixel as int,
            interlaced,
            pass_count(interlaced),
        ) <= usize::MAX,
{
    let passes: usize = if interlaced {
        7
    } else {
        1
    };
    let mut total: usize = 0;
    let mut p: usize = 0;
    while p < passes
        invariant
            p <= passes,
            passes == pass_count(interlaced),
            1 <= bits_per_pixel <= 64,
            total == inflated_len(width as int, height as int, bits_per_pixel as int, interlaced, p as int),
        decreases passes - p,
    {
        let (x0, y0, dx, dy) = pass(interlaced, p);
        let w = pass_size(width, x0, dx);
        let h = pass_size(height, y0, dy);
        if w != 0 && h != 0 {
            assert(w as int * bits_per_pixel as int <= 0xFFFF_FFFF * 64) by (nonlinear_arith)
                requires
                    bits_per_pixel <= 64,
            ;
            let row_bits = (w as u64) * (bits_per_pixel as u64);
            let row = (row_bits + 7) / 8;
            let pass_bytes = match (h as u64).checked_mul(row + 1) {
                Some(v) => v,
                None => {
                    proof {
                        lemma_inflated_len_grows(width as int, height as int, bits_per_pixel as int, interlaced, 0, p as int);
                        lemma_inflated_len_grows(width as int, height as int, bits_per_pixel as int, interlaced, p as int + 1, passes as int);
                    }
                    return Err(Error::Overflow("pass bytes"));
                },
            };
            if pass_bytes > usize::MAX as u64 || total > usize::MAX - pass_bytes as usize {
                proof {
                    lemma_inflated_len_grows(width as int, height as int, bits_per_pixel as int, interlaced, 0, p as int);
                    lemma_inflated_len_grows(width as int, height as int, bits_per_pixel as int, interlaced, p as int + 1, passes as int);
                }
                return Err(Error::Overflow("image bytes"));
            }
            total = total + pass_bytes as usize;
        }
        p = p + 1;
    }
    Ok(total)
}

/// Sample `index` of an unfiltered row at bit depth `depth`.
pub open spec fn sample_of(row: Seq<u8>, index: int, depth: u8) -> Option<int> {
    if depth == 16 {
        if 2 * index + 1 < row.len() {
            Some(be16(row, 2 * index))
        } else {
            None
        }
    } else if depth == 8 {
        if index < row.len() {
            Some(row[index] as int)
        } else {
            None
        }
    } else if depth == 1 || depth == 2 || depth == 4 {
        let per_byte = 8int / (depth as int);
        if index / per_byte < row.len() {
            let shift = 8 - depth * (index % per_byte + 1);
            Some(
                (row[index / per_byte] as int / crate::extended::two_pow(shift as nat) as int)
                    % crate::extended::two_pow(depth as nat) as int,
            )
        } else {
            None
        }
    } else {
        None
    }
}

pub fn pow2_small(k: u32) -> (r: u32)
    requires
        k <= 16,
    ensures
        r as int == crate::extended::two_pow(k as nat),
{
    let mut r: u32 = 1;
    let mut i: u32 = 0;
    while i < k
        invariant
            i <= k,
            k <= 16,
            r as int == crate::extended::two_pow(i as nat),
            r <= 65536,
        decreases k - i,
    {
        proof {
            crate::extended::lemma_two_pow_add(i as nat, 1);
            crate::extended::lemma_two_pow_values();
            crate::extended::lemma_two_pow_mono((i + 1) as nat, 16);
            crate::extended::lemma_two_pow_is_pow2(16);
            vstd::arithmetic::power2::lemma2_to64();
        }
        r = r * 2;
        i = i + 1;
    }
    r
}

pub fn sample(row: &Vec<u8>, index: u64, depth: u8) -> (r: Result<u16, Error>)
    ensures
        match sample_of(row@, index as int, depth) {
            Some(v) => r matches Ok(s) && s as int == v,
            None => r is Err,
        },
{
    let _n = row.len();
    if depth == 16 {
        if index > (u64::MAX - 1) / 2 || 2 * index + 1 >= row.len() as u64 {
            return Err(Error::Truncated("sample"));
        }
        let at = (2 * index) as usize;
        Ok(row[at] as u16 * 256 + row[at + 1] as u16)
    } else if depth == 8 {
        if index >= row.len() as u64 {
            return Err(Error::Truncated("sample"));
        }
        Ok(row[index as usize] as u16)
    } else if depth == 1 || depth == 2 || depth == 4 {
        let per_byte: u64 = if depth == 1 {
            8
        } else if depth == 2 {
            4
        } else {
            2
        };
        if index / per_byte >= row.len() as u64 {
            return Err(Error::Truncated("packed sample"));
        }
        let byte = row[(index / per_byte) as usize];
        let k = (index % per_byte) as u32;
        assert(depth as u32 * (k + 1) <= 8) by (nonlinear_arith)
            requires
                (depth == 1 && k < 8) || (depth == 2 && k < 4) || (depth == 4 && k < 2),
        ;
        let shift = 8 - depth as u32 * (k + 1);
        let d = pow2_small(shift);
        let m = pow2_small(depth as u32);
        proof {
            crate::extended::lemma_two_pow_pos(shift as nat);
            crate::extended::lemma_two_pow_pos(depth as nat);
        }
        let v = (byte as u32 / d) % m;
        assert(v < 256) by {
            crate::extended::lemma_two_pow_mono(depth as nat, 8);
            crate::extended::lemma_two_pow_is_pow2(8);
            vstd::arithmetic::power2::lemma2_to64();
        }
        Ok(v as u16)
    } else {
        Err(Error::Invalid("sample depth"))
    }
}

/// A `depth`-bit sample rescaled to 16 bits, rounding to nearest.
pub open spec fn scale16_of(value: int, depth: int) -> int {
    if depth == 16 {
        value
    } else {
        let max = crate::extended::two_pow(depth as nat) - 1;
        (value * 65535 + max / 2) / max
    }
}

pub fn scale16(value: u16, depth: u8) -> (r: u16)
    requires
        depth == 1 || depth == 2 || depth == 4 || depth == 8 || depth == 16,
        depth < 16 ==> value < crate::extended::two_pow(depth as nat),
    ensures
        r as int == scale16_of(value as int, depth as int),
{
    if depth == 16 {
        value
    } else {
        let max = pow2_small(depth as u32) - 1;
        proof {
            crate::extended::lemma_two_pow_mono(depth as nat, 8);
            vstd::arithmetic::power2::lemma2_to64();
            crate::extended::lemma_two_pow_is_pow2(8);
            crate::extended::lemma_two_pow_is_pow2(1);
            crate::extended::lemma_two_pow_mono(1, depth as nat);
        }
        assert((value as int * 65535 + max as int / 2) / (max as int) <= 65535) by (nonlinear_arith)
            requires
                1 <= max,
                value <= max,
        ;
        ((value as u32 * 65535 + max / 2) / max) as u16
    }
}

/// Stored Deflate blocks (at most 65535 bytes each, the last one final).
pub open spec fn stored_blocks(s: Seq<u8>) -> Seq<u8>
    decreases s.len(),
{
    if s.len() <= 65535 {
        seq![1u8] + crate::bytes::le16_bytes(s.len() as int) + crate::bytes::le16_bytes(
            65535 - s.len(),
        ) + s
    } else {
        seq![0u8] + crate::bytes::le16_bytes(65535) + crate::bytes::le16_bytes(0) + s.subrange(
            0,
            65535,
        ) + stored_blocks(s.subrange(65535, s.len() as int))
    }
}

/// The zlib stream that stores `s` uncompressed.
pub open spec fn zlib_stored(s: Seq<u8>) -> Seq<u8> {
    seq![0x78u8, 0x01] + stored_blocks(s) + be32_bytes(adler32_spec(s))
}

/// `s` as a zlib stream of stored Deflate blocks.
pub fn zlib_store(bytes: &[u8]) -> (out: Vec<u8>)
    ensures
        out@ == zlib_stored(bytes@),
{
    let mut out: Vec<u8> = Vec::new();
    out.push(0x78u8);
    out.push(0x01u8);
    let ghost head = out@;
    let len = bytes.len();
    let mut pos: usize = 0;
    assert(bytes@.subrange(0, len as int) =~= bytes@);
    loop
        invariant_except_break
            pos <= len,
            len == bytes@.len(),
            head == seq![0x78u8, 0x01],
            out@ + stored_blocks(bytes@.subrange(pos as int, len as int)) == head + stored_blocks(
                bytes@,
            ),
        ensures
            out@ == head + stored_blocks(bytes@),
            head == seq![0x78u8, 0x01],
        decreases len - pos,
    {
        let ghost rest = bytes@.subrange(pos as int, len as int);
        let n = if len - pos < 65535 {
            len - pos
        } else {
            65535
        };
        let last = pos + n == len;
        out.push(if last { 1u8 } else { 0u8 });
        crate::bytes::push_le16(&mut out, n as u16);
        crate::bytes::push_le16(&mut out, (65535 - n) as u16);
        crate::bytes::push_range(&mut out, bytes, pos, n);
        proof {
            if last {
                assert(rest.len() <= 65535);
                assert(bytes@.subrange(pos as int, pos + n) =~= rest);
            } else {
                assert(rest.subrange(0, 65535) =~= bytes@.subrange(pos as int, pos + n));
                assert(rest.subrange(65535, rest.len() as int) =~= bytes@.subrange(
                    pos + n,
                    len as int,
                ));
            }
        }
        if last {
            assert(out@ =~= head + stored_blocks(bytes@));
            break;
        }
        pos = pos + n;
        assert(out@ + stored_blocks(bytes@.subrange(pos as int, len as int)) =~= head
            + stored_blocks(bytes@));
    }
    push_be32(&mut out, adler32(bytes));
    out
}

/// A PNG chunk: length, type, data and the CRC of type and data.
pub open spec fn chunk_bytes(kind: Seq<u8>, data: Seq<u8>) -> Seq<u8> {
    be32_bytes(data.len() as int) + kind + data + be32_bytes(crc32_spec(kind + data) as int)
}

/// Appends the chunk `kind` holding `data`.
pub fn chunk(out: &mut Vec<u8>, kind: [u8; 4], data: &[u8]) -> (r: Result<(), Error>)
    ensures
        r is Ok <==> data@.len() <= u32::MAX,
        r is Ok ==> final(out)@ == old(out)@ + chunk_bytes(kind@, data@),
        r is Err ==> final(out)@ == old(out)@,
{
    if data.len() > 0xffff_ffff {
        return Err(Error::Overflow("chunk length"));
    }
    push_be32(out, data.len() as u32);
    out.extend_from_slice(&kind);
    crate::bytes::push_range(out, data, 0, data.len());
    let mut crc_data: Vec<u8> = Vec::new();
    crc_data.extend_from_slice(&kind);
    crate::bytes::push_range(&mut crc_data, data, 0, data.len());
    push_be32(out, crc32(crc_data.as_slice()));
    assert(data@.subrange(0, data@.len() as int) =~= data@);
    assert(crc_data@ =~= kind@ + data@);
    assert(out@ =~= old(out)@ + chunk_bytes(kind@, data@));
    Ok(())
}

fn is_alpha(b: u8) -> (r: bool)
    ensures
        r == ((0x41 <= b <= 0x5a) || (0x61 <= b <= 0x7a)),
{
    (0x41 <= b && b <= 0x5a) || (0x61 <= b && b <= 0x7a)
}

/// What a successful decode of `b` has read from its `IHDR` chunk.
pub open spec fn header_of(b: Seq<u8>, o: DecodeOptions, img: Image) -> bool {
    &&& b.len() >= 33
    &&& b.subrange(0, 8) == signature()
    &&& be32(b, 8) == 13
    &&& b.subrange(12, 16) == seq![0x49u8, 0x48, 0x44, 0x52]
    &&& img.width == be32(b, 16)
    &&& img.height == be32(b, 20)
    &&& img.source_bit_depth == b[24]
    &&& img.source_color_type == b[25]
    &&& img.interlaced == (b[28] == 1)
    &&& img.width >= 1 && img.height >= 1
    &&& depth_ok(b[25], b[24])
    &&& b[26] == 0 && b[27] == 0 && b[28] <= 1
    &&& img.width * img.height <= o.max_pixels
    &&& img.pixels@.len() == img.width * img.height
    &&& channels_of(b[25]) == Some(img.source_channels as int)
}

proof fn lemma_pass_coord(size: int, start: int, step: int, i: int)
    requires
        1 <= step,
        0 <= start,
        0 <= i < pass_len(size, start, step),
    ensures
        start + i * step < size,
{
    let n = size - start;
    let q = (n + step - 1) / step;
    assert(n > 0);
    vstd::arithmetic::div_mod::lemma_fundamental_div_mod(n + step - 1, step);
    assert((i + 1) * step <= q * step) by (nonlinear_arith)
        requires
            i + 1 <= q,
            step >= 1,
    ;
    assert(i * step + step <= n + step - 1) by (nonlinear_arith)
        requires
            (i + 1) * step <= q * step,
            q * step <= n + step - 1,
    ;
}

/// `b` holds, at `q`, a `PLTE` chunk whose data are the RGB triples `pal`.
pub open spec fn plte_chunk(b: Seq<u8>, q: int, pal: Seq<(u8, u8, u8)>) -> bool {
    &&& 8 <= q
    &&& q + 8 + 3 * pal.len() <= b.len()
    &&& be32(b, q) == 3 * pal.len()
    &&& b.subrange(q + 4, q + 8) == seq![0x50u8, 0x4c, 0x54, 0x45]
    &&& forall|i: int|
        0 <= i < pal.len() ==> #[trigger] pal[i] == (b[q + 8 + 3 * i], b[q + 9 + 3 * i], b[q + 10 + 3 * i])
}

/// `b` holds, at `q`, a `tRNS` chunk whose data are `t`.
pub open spec fn trns_chunk(b: Seq<u8>, q: int, t: Seq<u8>) -> bool {
    &&& 8 <= q
    &&& q + 8 + t.len() <= b.len()
    &&& be32(b, q) == t.len()
    &&& b.subrange(q + 4, q + 8) == seq![0x74u8, 0x52, 0x4e, 0x53]
    &&& b.subrange(q + 8, q + 8 + t.len()) == t
}

/// `pal` and `trns` are the palette and the transparency of `b`: each empty
/// or the data of a `PLTE` (resp. `tRNS`) chunk of `b`.
pub open spec fn palette_source(b: Seq<u8>, pal: Seq<(u8, u8, u8)>, trns: Seq<u8>) -> bool {
    &&& (pal.len() == 0 || exists|q: int| #[trigger] plte_chunk(b, q, pal))
    &&& (trns.len() == 0 || exists|q: int| #[trigger] trns_chunk(b, q, trns))
}

/// The 16-bit pixel of palette entry `k`: its red, green and blue bytes
/// widened by 257 in that order, and the entry's `tRNS` alpha (255 when the
/// `tRNS` data are shorter) widened likewise.
pub open spec fn palette_pixel(pal: Seq<(u8, u8, u8)>, trns: Seq<u8>, k: int) -> Pixel16 {
    Pixel16 {
        r: (pal[k].0 * 257) as u16,
        g: (pal[k].1 * 257) as u16,
        b: (pal[k].2 * 257) as u16,
        a: ((if k < trns.len() { trns[k] as int } else { 255int }) * 257) as u16,
    }
}

/// The pixel a decode starts every position with, before a pass writes it.
pub open spec fn blank_pixel() -> Pixel16 {
    Pixel16 { r: 0, g: 0, b: 0, a: 0 }
}

/// Every written pixel of `px` is the pixel of some entry of `pal`.
pub open spec fn from_palette(px: Seq<Pixel16>, pal: Seq<(u8, u8, u8)>, trns: Seq<u8>) -> bool {
    forall|i: int|
        0 <= i < px.len() ==> px[i] == blank_pixel() || exists|k: int|
            0 <= k < pal.len() && #[trigger] palette_pixel(pal, trns, k) == px[i]
}

/// In an indexed image that `decode` returns (`from_palette` over a
/// `palette_source` of the file), every written pixel holds the red, green
/// and blue bytes of one entry of a `PLTE` chunk of the file, in that order
/// and each times 257; without `tRNS` data it is opaque.
pub proof fn lemma_indexed_pixel(b: Seq<u8>, px: Seq<Pixel16>, pal: Seq<(u8, u8, u8)>, trns: Seq<u8>, i: int)
    requires
        palette_source(b, pal, trns),
        from_palette(px, pal, trns),
        0 <= i < px.len(),
        px[i] != blank_pixel(),
    ensures
        exists|q: int, k: int|
            #![trigger b[q + 8 + 3 * k]]
            8 <= q && 0 <= k && q + 11 + 3 * k <= b.len() && b.subrange(q + 4, q + 8) == seq![0x50u8, 0x4c, 0x54, 0x45]
                && px[i].r == b[q + 8 + 3 * k] * 257 && px[i].g == b[q + 9 + 3 * k] * 257 && px[i].b == b[q
                + 10 + 3 * k] * 257,
        trns.len() == 0 ==> px[i].a == 65535,
{
    let k = choose|k: int| 0 <= k < pal.len() && #[trigger] palette_pixel(pal, trns, k) == px[i];
    assert(pal.len() > 0);
    let q = choose|q: int| #[trigger] plte_chunk(b, q, pal);
    assert(pal[k] == (b[q + 8 + 3 * k], b[q + 9 + 3 * k], b[q + 10 + 3 * k]));
    assert(q + 11 + 3 * k <= b.len());
    assert(px[i].r == b[q + 8 + 3 * k] * 257);
}

/// The refusal that the first chunk after the PNG signature of `b` meets,
/// if any: a cut-short header, data or CRC, an invalid chunk type, a CRC
/// mismatch when `o.strict_crc`, a first chunk other than `IHDR`, or an
/// `IHDR` of other than 13 bytes.
pub open spec fn first_chunk_refusal(b: Seq<u8>, o: DecodeOptions) -> Option<Error> {
    let length = be32(b, 8);
    let alpha = |c: u8| (0x41 <= c <= 0x5a) || (0x61 <= c <= 0x7a);
    if b.len() <= 8 || b.subrange(0, 8) != signature() {
        None
    } else if b.len() < 16 {
        Some(Error::Truncated("chunk header"))
    } else if !(alpha(b[12]) && alpha(b[13]) && alpha(b[14]) && alpha(b[15])) || (0x61 <= b[14] <= 0x7a) {
        Some(Error::Invalid("chunk type"))
    } else if length > b.len() - 16 {
        Some(Error::Truncated("chunk data"))
    } else if b.len() - (16 + length) < 4 {
        Some(Error::Truncated("chunk CRC"))
    } else if o.strict_crc && crc32_spec(b.subrange(12, 16 + length)) != be32(b, 16 + length) {
        Some(Error::Invalid("chunk CRC"))
    } else if b.subrange(12, 16) != seq![0x49u8, 0x48, 0x44, 0x52] {
        Some(Error::Invalid("IHDR is not first"))
    } else if length != 13 {
        Some(Error::Invalid("IHDR"))
    } else {
        None
    }
}

/// Decodes a PNG into 16-bit RGBA pixels.
#[verifier::spinoff_prover]
pub fn decode(bytes: &[u8], options: &DecodeOptions) -> (r: Result<Image, Error>)
    ensures
        (bytes@.len() < 8 || bytes@.subrange(0, 8) != signature()) ==> r == Err::<Image, Error>(
            Error::Signature,
        ),
        r matches Ok(img) ==> header_of(bytes@, *options, img),
        first_chunk_refusal(bytes@, *options) matches Some(e) ==> r == Err::<Image, Error>(e),
        r matches Ok(img) ==> img.source_color_type == 3 ==> exists|pal: Seq<(u8, u8, u8)>, trns: Seq<u8>|
            #[trigger] palette_source(bytes@, pal, trns) && from_palette(img.pixels@, pal, trns),
{
    let len = bytes.len();
    if len < 8 {
        return Err(Error::Signature);
    }
    let mut k: usize = 0;
    while k < 8
        invariant
            k <= 8,
            len == bytes@.len(),
            len >= 8,
            forall|j: int| 0 <= j < k ==> bytes@[j] == signature()[j],
        decreases 8 - k,
    {
        if bytes[k] != SIGNATURE[k] {
            assert(bytes@.subrange(0, 8)[k as int] != signature()[k as int]);
            return Err(Error::Signature);
        }
        k = k + 1;
    }
    assert(bytes@.subrange(0, 8) =~= signature());
    let mut pos: usize = 8;
    let mut ihdr: Option<Vec<u8>> = None;
    let mut palette: Vec<(u8, u8, u8)> = Vec::new();
    let ghost mut plte_q: int = 0;
    let ghost mut trns_q: int = 0;
    let mut transparency: Vec<u8> = Vec::new();
    let mut idat: Vec<u8> = Vec::new();
    let mut saw_idat = false;
    let mut ended_idat = false;
    let mut saw_iend = false;
    let mut warnings: Vec<String> = Vec::new();
    while pos < len
        invariant
            8 <= pos <= len,
            len == bytes@.len(),
            bytes@.subrange(0, 8) == signature(),
            ihdr is None ==> pos == 8,
            ihdr matches Some(h) ==> {
                &&& h@ == bytes@.subrange(16, 29)
                &&& len >= 33
                &&& be32(bytes@, 8) == 13
                &&& bytes@.subrange(12, 16) == seq![0x49u8, 0x48, 0x44, 0x52]
            },
            palette@.len() <= 256,
            palette@.len() > 0 ==> plte_chunk(bytes@, plte_q, palette@),
            transparency@.len() > 0 ==> trns_chunk(bytes@, trns_q, transparency@),
            first_chunk_refusal(bytes@, *options) is Some ==> pos == 8,
        ensures
            first_chunk_refusal(bytes@, *options) is None,
        decreases len - pos,
    {
        let ghost p0 = pos as int;
        if len - pos < 8 {
            return Err(Error::Truncated("chunk header"));
        }
        let length = read_be32(bytes, pos) as usize;
        let k0 = bytes[pos + 4];
        let k1 = bytes[pos + 5];
        let k2 = bytes[pos + 6];
        let k3 = bytes[pos + 7];
        let kind: [u8; 4] = [k0, k1, k2, k3];
        let header_at = pos;
        proof {
            if p0 == 8 {
                assert(length == be32(bytes@, 8));
                assert(bytes@.subrange(12, 16) =~= seq![k0, k1, k2, k3]);
            }
        }
        pos = pos + 8;
        if !(is_alpha(k0) && is_alpha(k1) && is_alpha(k2) && is_alpha(k3)) || (0x61 <= k2 && k2
            <= 0x7a) {
            return Err(Error::Invalid("chunk type"));
        }
        if length > len - pos {
            return Err(Error::Truncated("chunk data"));
        }
        let data_at = pos;
        pos = pos + length;
        if len - pos < 4 {
            return Err(Error::Truncated("chunk CRC"));
        }
        let stored_crc = read_be32(bytes, pos);
        pos = pos + 4;
        if options.strict_crc {
            let mut crc_data: Vec<u8> = Vec::new();
            crc_data.extend_from_slice(&kind);
            crate::bytes::push_range(&mut crc_data, bytes, data_at, length);
            proof {
                if p0 == 8 {
                    assert(kind@ =~= bytes@.subrange(12, 16));
                    assert(crc_data@ =~= bytes@.subrange(12, 16 + length));
                }
            }
            if crc32(crc_data.as_slice()) != stored_crc {
                return Err(Error::Invalid("chunk CRC"));
            }
        }
        let is_ihdr = k0 == 0x49 && k1 == 0x48 && k2 == 0x44 && k3 == 0x52;
        let is_plte = k0 == 0x50 && k1 == 0x4c && k2 == 0x54 && k3 == 0x45;
        let is_trns = k0 == 0x74 && k1 == 0x52 && k2 == 0x4e && k3 == 0x53;
        let is_idat = k0 == 0x49 && k1 == 0x44 && k2 == 0x41 && k3 == 0x54;
        let is_iend = k0 == 0x49 && k1 == 0x45 && k2 == 0x4e && k3 == 0x44;
        if ihdr.is_none() && !is_ihdr {
            return Err(Error::Invalid("IHDR is not first"));
        }
        if saw_idat && !is_idat && !is_iend {
            ended_idat = true;
        }
        if is_ihdr {
            if ihdr.is_some() || length != 13 {
                return Err(Error::Invalid("IHDR"));
            }
            let mut h: Vec<u8> = Vec::new();
            crate::bytes::push_range(&mut h, bytes, data_at, 13);
            assert(bytes@.subrange(12, 16) =~= seq![0x49u8, 0x48, 0x44, 0x52]);
            ihdr = Some(h);
        } else if is_plte {
            if saw_idat || palette.len() != 0 || length == 0 || length % 3 != 0 || length > 768 {
                return Err(Error::Invalid("PLTE"));
            }
            let mut i: usize = 0;
            while i + 3 <= length
                invariant
                    first_chunk_refusal(bytes@, *options) is None,
                    data_at + length <= len,
                    len == bytes@.len(),
                    length <= 768,
                    palette@.len() == i / 3,
                    i % 3 == 0,
                    i <= length,
                    forall|j: int|
                        0 <= j < palette@.len() ==> #[trigger] palette@[j] == (bytes@[data_at + 3 * j], bytes@[data_at
                            + 3 * j + 1], bytes@[data_at + 3 * j + 2]),
                decreases length - i,
            {
                palette.push((bytes[data_at + i], bytes[data_at + i + 1], bytes[data_at + i + 2]));
                i = i + 3;
            }
            proof {
                plte_q = header_at as int;
                assert(bytes@.subrange(plte_q + 4, plte_q + 8) =~= seq![k0, k1, k2, k3]);
            }
        } else if is_trns {
            if saw_idat || transparency.len() != 0 {
                return Err(Error::Invalid("tRNS"));
            }
            crate::bytes::push_range(&mut transparency, bytes, data_at, length);
            proof {
                trns_q = header_at as int;
                assert(bytes@.subrange(trns_q + 4, trns_q + 8) =~= seq![k0, k1, k2, k3]);
                assert(transparency@ =~= bytes@.subrange(data_at as int, data_at + length));
            }
        } else if is_idat {
            if ended_idat {
                return Err(Error::Invalid("non-consecutive IDAT chunks"));
            }
            saw_idat = true;
            crate::bytes::push_range(&mut idat, bytes, data_at, length);
        } else if is_iend {
            if length != 0 || !saw_idat {
                return Err(Error::Invalid("IEND"));
            }
            saw_iend = true;
            break;
        } else if 0x41 <= k0 && k0 <= 0x5a {
            return Err(Error::Unsupported("unknown critical chunk"));
        } else {
            let mut w = String::from_str("ancillary chunk ");
            crate::text::push_char(&mut w, k0 as char);
            crate::text::push_char(&mut w, k1 as char);
            crate::text::push_char(&mut w, k2 as char);
            crate::text::push_char(&mut w, k3 as char);
            w.append(" discarded by canonical operations");
            warnings.push(w);
        }
    }
    if !saw_iend {
        return Err(Error::Truncated("IEND"));
    }
    if options.strict_trailing_data && pos != len {
        return Err(Error::Invalid("bytes after IEND"));
    }
    let h = match ihdr {
        Some(h) => h,
        None => return Err(Error::Invalid("missing IHDR")),
    };
    let width = read_be32(h.as_slice(), 0);
    let height = read_be32(h.as_slice(), 4);
    let depth = h[8];
    let color = h[9];
    let compression = h[10];
    let filter = h[11];
    let interlace = h[12];
    assert(h@[8] == bytes@[24] && h@[9] == bytes@[25] && h@[10] == bytes@[26]);
    assert(h@[11] == bytes@[27] && h@[12] == bytes@[28]);
    assert(be32(h@, 0) == be32(bytes@, 16) && be32(h@, 4) == be32(bytes@, 20));
    if width == 0 || height == 0 {
        return Err(Error::Invalid("zero dimensions"));
    }
    if !valid_depth(color, depth) {
        return Err(Error::Invalid("bit depth/color type combination"));
    }
    if compression != 0 || filter != 0 || interlace > 1 {
        return Err(Error::Unsupported("IHDR method"));
    }
    assert(width as int * height as int <= 0xFFFF_FFFF * 0xFFFF_FFFF) by (nonlinear_arith)
        requires
            width <= 0xFFFF_FFFF,
            height <= 0xFFFF_FFFF,
    ;
    let count64 = width as u64 * height as u64;
    if count64 > options.max_pixels {
        return Err(Error::Limit("pixel count"));
    }
    if count64 > usize::MAX as u64 {
        return Err(Error::Overflow("pixel allocation"));
    }
    let count = count64 as usize;
    if color == 3 {
        if palette.len() == 0 || palette.len() > pow2_small(depth as u32) as usize {
            return Err(Error::Invalid("indexed image palette"));
        }
        if transparency.len() > palette.len() {
            return Err(Error::Invalid("indexed tRNS length"));
        }
    } else if palette.len() != 0 && (color == 0 || color == 4) {
        return Err(Error::Invalid("PLTE forbidden for grayscale"));
    }
    if color == 0 && transparency.len() != 0 && transparency.len() != 2 {
        return Err(Error::Invalid("grayscale tRNS length"));
    }
    if color == 2 && transparency.len() != 0 && transparency.len() != 6 {
        return Err(Error::Invalid("truecolor tRNS length"));
    }
    if (color == 4 || color == 6) && transparency.len() != 0 {
        return Err(Error::Invalid("tRNS forbidden with alpha channel"));
    }
    let channel_count = match channels(color) {
        Ok(c) => c,
        Err(e) => return Err(e),
    };
    assert(1 <= channel_count <= 4 && 1 <= depth <= 16);
    assert(1 <= channel_count * depth <= 64) by (nonlinear_arith)
        requires
            1 <= channel_count <= 4,
            1 <= depth <= 16,
    ;
    let bits_per_pixel = channel_count * depth as usize;
    let interlaced = interlace == 1;
    let expected = match expected_inflate(width, height, bits_per_pixel, interlaced) {
        Ok(v) => v,
        Err(e) => return Err(e),
    };
    if expected as u64 > options.max_inflate_bytes {
        return Err(Error::Limit("inflated scanlines"));
    }
    let raw = match inflate_zlib(idat.as_slice(), expected) {
        Ok(v) => v,
        Err(e) => return Err(from_inflate(e)),
    };
    let mut pixels: Vec<Pixel16> = Vec::new();
    let mut i: usize = 0;
    while i < count
        invariant
            first_chunk_refusal(bytes@, *options) is None,
            palette@.len() > 0 ==> plte_chunk(bytes@, plte_q, palette@),
            transparency@.len() > 0 ==> trns_chunk(bytes@, trns_q, transparency@),
            color == 3 ==> from_palette(pixels@, palette@, transparency@),
            i <= count,
            pixels@.len() == i,
        decreases count - i,
    {
        pixels.push(Pixel16 { r: 0, g: 0, b: 0, a: 0 });
        i = i + 1;
    }
    let transparent_gray: Option<u16> = if color == 0 && transparency.len() == 2 {
        Some(transparency[0] as u16 * 256 + transparency[1] as u16)
    } else {
        None
    };
    let transparent_rgb: Option<(u16, u16, u16)> = if color == 2 && transparency.len() == 6 {
        Some(
            (
                transparency[0] as u16 * 256 + transparency[1] as u16,
                transparency[2] as u16 * 256 + transparency[3] as u16,
                transparency[4] as u16 * 256 + transparency[5] as u16,
            ),
        )
    } else {
        None
    };
    let passes: usize = if interlaced {
        7
    } else {
        1
    };
    let mut cursor: usize = 0;
    let mut p: usize = 0;
    while p < passes
        invariant
            first_chunk_refusal(bytes@, *options) is None,
            palette@.len() > 0 ==> plte_chunk(bytes@, plte_q, palette@),
            transparency@.len() > 0 ==> trns_chunk(bytes@, trns_q, transparency@),
            color == 3 ==> from_palette(pixels@, palette@, transparency@),
            p <= passes,
            pixels@.len() == count,
            count == width as int * height as int,
            cursor <= raw@.len(),
            depth_ok(color, depth),
            channels_of(color) == Some(channel_count as int),
            bits_per_pixel == channel_count * depth,
            1 <= channel_count <= 4,
            1 <= bits_per_pixel <= 64,
            bytes@.subrange(0, 8) == signature(),
            bytes@.len() >= 8,
            passes == pass_count(interlaced),
        decreases passes - p,
    {
        let (x0, y0, dx, dy) = pass(interlaced, p);
        let pass_width = pass_size(width, x0, dx);
        let pass_height = pass_size(height, y0, dy);
        if pass_width != 0 && pass_height != 0 {
            assert(pass_width as int * bits_per_pixel as int <= 0xFFFF_FFFF * 64) by (nonlinear_arith)
                requires
                    bits_per_pixel <= 64,
                    pass_width <= 0xFFFF_FFFF,
            ;
            let row_bytes64 = (pass_width as u64 * bits_per_pixel as u64 + 7) / 8;
            if row_bytes64 > raw.len() as u64 {
                return Err(Error::Truncated("scanline"));
            }
            let row_bytes = row_bytes64 as usize;
            let bpp: usize = if bits_per_pixel < 8 {
                1
            } else {
                (bits_per_pixel + 7) / 8
            };
            let mut prior: Vec<u8> = Vec::new();
            let mut z: usize = 0;
            while z < row_bytes
                invariant
                    first_chunk_refusal(bytes@, *options) is None,
                    palette@.len() > 0 ==> plte_chunk(bytes@, plte_q, palette@),
                    transparency@.len() > 0 ==> trns_chunk(bytes@, trns_q, transparency@),
                    color == 3 ==> from_palette(pixels@, palette@, transparency@),
                    z <= row_bytes,
                    prior@.len() == z,
                decreases row_bytes - z,
            {
                prior.push(0u8);
                z = z + 1;
            }
            let mut py: u32 = 0;
            while py < pass_height
                invariant
                    first_chunk_refusal(bytes@, *options) is None,
                    palette@.len() > 0 ==> plte_chunk(bytes@, plte_q, palette@),
                    transparency@.len() > 0 ==> trns_chunk(bytes@, trns_q, transparency@),
                    color == 3 ==> from_palette(pixels@, palette@, transparency@),
                    py <= pass_height,
                    prior@.len() == row_bytes,
                    pixels@.len() == count,
                    count == width as int * height as int,
                    cursor <= raw@.len(),
                    bpp >= 1,
                    pass_height as int == pass_len(height as int, y0 as int, dy as int),
                    pass_width as int == pass_len(width as int, x0 as int, dx as int),
                    1 <= dx <= 8,
                    1 <= dy <= 8,
                    x0 < 8,
                    y0 < 8,
                    depth_ok(color, depth),
                    1 <= channel_count <= 4,
                    bytes@.subrange(0, 8) == signature(),
                    bytes@.len() >= 8,
                decreases pass_height - py,
            {
                if cursor >= raw.len() {
                    return Err(Error::Truncated("filter byte"));
                }
                let kind = raw[cursor];
                cursor = cursor + 1;
                if row_bytes > raw.len() - cursor {
                    return Err(Error::Truncated("scanline"));
                }
                let mut row: Vec<u8> = Vec::new();
                crate::bytes::push_range(&mut row, raw.as_slice(), cursor, row_bytes);
                cursor = cursor + row_bytes;
                match unfilter(kind, &mut row, prior.as_slice(), bpp) {
                    Ok(()) => {},
                    Err(()) => return Err(Error::Invalid("scanline filter")),
                }
                let mut px: u32 = 0;
                while px < pass_width
                    invariant
                        first_chunk_refusal(bytes@, *options) is None,
                        palette@.len() > 0 ==> plte_chunk(bytes@, plte_q, palette@),
                        transparency@.len() > 0 ==> trns_chunk(bytes@, trns_q, transparency@),
                        color == 3 ==> from_palette(pixels@, palette@, transparency@),
                        px <= pass_width,
                        pixels@.len() == count,
                        count == width as int * height as int,
                        pass_height as int == pass_len(height as int, y0 as int, dy as int),
                        pass_width as int == pass_len(width as int, x0 as int, dx as int),
                        py < pass_height,
                        1 <= dx <= 8,
                        1 <= dy <= 8,
                        x0 < 8,
                        y0 < 8,
                        depth_ok(color, depth),
                        1 <= channel_count <= 4,
                        bytes@.subrange(0, 8) == signature(),
                        bytes@.len() >= 8,
                    decreases pass_width - px,
                {
                    assert(px as int * channel_count as int <= 0xFFFF_FFFF * 4) by (nonlinear_arith)
                        requires
                            channel_count <= 4,
                            px <= 0xFFFF_FFFF,
                    ;
                    let base = px as u64 * channel_count as u64;
                    let ghost mut pixel_index: int = 0;
                    let pixel = if color == 0 {
                        let g0 = match sample(&row, base, depth) {
                            Ok(v) => v,
                            Err(e) => return Err(e),
                        };
                        let g = scale_checked(g0, depth);
                        Pixel16 {
                            r: g,
                            g: g,
                            b: g,
                            a: if transparent_gray == Some(g0) {
                                0
                            } else {
                                65535
                            },
                        }
                    } else if color == 2 {
                        let r0 = match sample(&row, base, depth) {
                            Ok(v) => v,
                            Err(e) => return Err(e),
                        };
                        let g0 = match sample(&row, base + 1, depth) {
                            Ok(v) => v,
                            Err(e) => return Err(e),
                        };
                        let b0 = match sample(&row, base + 2, depth) {
                            Ok(v) => v,
                            Err(e) => return Err(e),
                        };
                        Pixel16 {
                            r: scale_checked(r0, depth),
                            g: scale_checked(g0, depth),
                            b: scale_checked(b0, depth),
                            a: if transparent_rgb == Some((r0, g0, b0)) {
                                0
                            } else {
                                65535
                            },
                        }
                    } else if color == 3 {
                        let index = match sample(&row, base, depth) {
                            Ok(v) => v as usize,
                            Err(e) => return Err(e),
                        };
                        if index >= palette.len() {
                            return Err(Error::Invalid("palette index"));
                        }
                        let (pr, pg, pb) = palette[index];
                        let alpha: u8 = if index < transparency.len() {
                            transparency[index]
                        } else {
                            255
                        };
                        proof {
                            pixel_index = index as int;
                        }
                        Pixel16 {
                            r: pr as u16 * 257,
                            g: pg as u16 * 257,
                            b: pb as u16 * 257,
                            a: alpha as u16 * 257,
                        }
                    } else if color == 4 {
                        let g0 = match sample(&row, base, depth) {
                            Ok(v) => v,
                            Err(e) => return Err(e),
                        };
                        let a0 = match sample(&row, base + 1, depth) {
                            Ok(v) => v,
                            Err(e) => return Err(e),
                        };
                        let g = scale_checked(g0, depth);
                        Pixel16 { r: g, g: g, b: g, a: scale_checked(a0, depth) }
                    } else {
                        let r0 = match sample(&row, base, depth) {
                            Ok(v) => v,
                            Err(e) => return Err(e),
                        };
                        let g0 = match sample(&row, base + 1, depth) {
                            Ok(v) => v,
                            Err(e) => return Err(e),
                        };
                        let b0 = match sample(&row, base + 2, depth) {
                            Ok(v) => v,
                            Err(e) => return Err(e),
                        };
                        let a0 = match sample(&row, base + 3, depth) {
                            Ok(v) => v,
                            Err(e) => return Err(e),
                        };
                        Pixel16 {
                            r: scale_checked(r0, depth),
                            g: scale_checked(g0, depth),
                            b: scale_checked(b0, depth),
                            a: scale_checked(a0, depth),
                        }
                    };
                    proof {
                        lemma_pass_coord(width as int, x0 as int, dx as int, px as int);
                        lemma_pass_coord(height as int, y0 as int, dy as int, py as int);
                    }
                    assert(color == 3 ==> 0 <= pixel_index < palette@.len() && pixel == palette_pixel(
                        palette@,
                        transparency@,
                        pixel_index,
                    ));
                    let x = x0 as usize + px as usize * dx as usize;
                    let y = y0 as usize + py as usize * dy as usize;
                    assert(y * width + x < width as int * height as int) by (nonlinear_arith)
                        requires
                            x < width,
                            y < height,
                    ;
                    let ghost before = pixels@;
                    let ghost set_at = y * width as usize + x;
                    pixels.set(y * width as usize + x, pixel);
                    proof {
                        if color == 3 {
                            assert forall|i: int| 0 <= i < pixels@.len() implies pixels@[i] == blank_pixel() || exists|k: int|
                                0 <= k < palette@.len() && #[trigger] palette_pixel(palette@, transparency@, k) == pixels@[i] by {
                                if i != set_at {
                                    assert(pixels@[i] == before[i]);
                                }
                            }
                        }
                    }
                    px = px + 1;
                }
                prior = row;
                py = py + 1;
            }
        }
        p = p + 1;
    }
    if cursor != raw.len() {
        return Err(Error::Invalid("unused inflated bytes"));
    }
    proof {
        if palette@.len() > 0 {
            assert(plte_chunk(bytes@, plte_q, palette@));
        }
        if transparency@.len() > 0 {
            assert(trns_chunk(bytes@, trns_q, transparency@));
        }
        assert(palette_source(bytes@, palette@, transparency@));
    }
    Ok(
        Image {
            width,
            height,
            source_channels: channel_count as u8,
            source_bit_depth: depth,
            source_color_type: color,
            interlaced,
            pixels,
            warnings,
        },
    )
}

/// A decoded sample rescaled to 16 bits.
fn scale_checked(value: u16, depth: u8) -> (r: u16)
    requires
        depth == 1 || depth == 2 || depth == 4 || depth == 8 || depth == 16,
    ensures
        depth == 16 || value < crate::extended::two_pow(depth as nat) ==> r as int == scale16_of(
            value as int,
            depth as int,
        ),
{
    if depth == 16 || (value as u32) < pow2_small(depth as u32) {
        scale16(value, depth)
    } else {
        value
    }
}

/// Some pixel is not fully opaque.
pub open spec fn has_alpha(px: Seq<Pixel16>) -> bool {
    exists|i: int| 0 <= i < px.len() && #[trigger] px[i].a != 65535
}

/// One sample as the encoder stores it: two big-endian bytes at 16 bits,
/// else rounded to eight bits.
pub open spec fn sample_bytes(v: u16, wide: bool) -> Seq<u8> {
    if wide {
        crate::bytes::be16_bytes(v as int)
    } else {
        seq![((v + 128) / 257) as u8]
    }
}

pub open spec fn pixel_bytes(p: Pixel16, alpha: bool, wide: bool) -> Seq<u8> {
    sample_bytes(p.r, wide) + sample_bytes(p.g, wide) + sample_bytes(p.b, wide) + if alpha {
        sample_bytes(p.a, wide)
    } else {
        Seq::empty()
    }
}

/// The unfiltered bytes of the `n` pixels starting at `px[start]`.
pub open spec fn row_bytes_of(px: Seq<Pixel16>, start: int, n: nat, alpha: bool, wide: bool) -> Seq<u8>
    decreases n,
{
    if n == 0 {
        Seq::empty()
    } else {
        row_bytes_of(px, start, (n - 1) as nat, alpha, wide) + pixel_bytes(
            px[start + n - 1],
            alpha,
            wide,
        )
    }
}

/// The adaptive choice among filters `0..n`: the first with the least score.
pub open spec fn best_upto(raw: Seq<u8>, prior: Seq<u8>, bpp: int, n: nat) -> u8
    decreases n,
{
    if n <= 1 {
        0
    } else {
        let b = best_upto(raw, prior, bpp, (n - 1) as nat);
        if score_of(filtered((n - 1) as u8, raw, prior, bpp)) < score_of(
            filtered(b, raw, prior, bpp),
        ) {
            (n - 1) as u8
        } else {
            b
        }
    }
}

pub open spec fn kind_for(f: Filter, raw: Seq<u8>, prior: Seq<u8>, bpp: int) -> u8 {
    match f {
        Filter::NoFilter => 0,
        Filter::Sub => 1,
        Filter::Up => 2,
        Filter::Average => 3,
        Filter::Paeth => 4,
        Filter::Adaptive => best_upto(raw, prior, bpp, 5),
    }
}

/// The unfiltered scanline `y` of `img` as the encoder lays it out.
pub open spec fn scanline(img: Image, y: int) -> Seq<u8> {
    row_bytes_of(
        img.pixels@,
        y * img.width,
        img.width as nat,
        has_alpha(img.pixels@),
        img.source_bit_depth == 16,
    )
}

pub open spec fn bytes_per_pixel(img: Image) -> int {
    (if has_alpha(img.pixels@) { 4int } else { 3int }) * (if img.source_bit_depth == 16 {
        2int
    } else {
        1int
    })
}

/// The scanline above `y` (zeros above the first).
pub open spec fn prior_of(img: Image, y: int) -> Seq<u8> {
    if y == 0 {
        Seq::new((img.width * bytes_per_pixel(img)) as nat, |_i: int| 0u8)
    } else {
        scanline(img, y - 1)
    }
}

/// The filtered scanlines `0..n` of `img`, each behind its filter byte.
pub open spec fn filtered_rows(img: Image, f: Filter, n: nat) -> Seq<u8>
    decreases n,
{
    if n == 0 {
        Seq::empty()
    } else {
        let y = n - 1;
        let k = kind_for(f, scanline(img, y), prior_of(img, y), bytes_per_pixel(img));
        filtered_rows(img, f, (n - 1) as nat) + seq![k] + filtered(
            k,
            scanline(img, y),
            prior_of(img, y),
            bytes_per_pixel(img),
        )
    }
}

/// `z` split into `IDAT` chunks of at most 64 KiB.
pub open spec fn idat_chunks(z: Seq<u8>) -> Seq<u8>
    decreases z.len(),
{
    if z.len() <= 65536 {
        chunk_bytes(seq![0x49u8, 0x44, 0x41, 0x54], z)
    } else {
        chunk_bytes(seq![0x49u8, 0x44, 0x41, 0x54], z.subrange(0, 65536)) + idat_chunks(
            z.subrange(65536, z.len() as int),
        )
    }
}

pub open spec fn ihdr_bytes(img: Image) -> Seq<u8> {
    be32_bytes(img.width as int) + be32_bytes(img.height as int) + seq![
        if img.source_bit_depth == 16 { 16u8 } else { 8u8 },
        if has_alpha(img.pixels@) { 6u8 } else { 2u8 },
        0u8,
        0u8,
        0u8,
    ]
}

/// The canonical PNG file for `img`.
pub open spec fn encoded(img: Image, f: Filter) -> Seq<u8> {
    signature() + chunk_bytes(seq![0x49u8, 0x48, 0x44, 0x52], ihdr_bytes(img)) + idat_chunks(
        zlib_stored(filtered_rows(img, f, img.height as nat)),
    ) + chunk_bytes(seq![0x49u8, 0x45, 0x4e, 0x44], Seq::empty())
}

/// The image dimensions agree with its pixels.
pub open spec fn encodable(img: Image) -> bool {
    &&& img.width >= 1
    &&& img.height >= 1
    &&& img.pixels@.len() == img.width * img.height
    &&& img.width * bytes_per_pixel(img) <= usize::MAX
}

fn push_sample(out: &mut Vec<u8>, v: u16, wide: bool)
    ensures
        final(out)@ == old(out)@ + sample_bytes(v, wide),
{
    if wide {
        crate::bytes::push_be16(out, v);
    } else {
        out.push(((v as u32 + 128) / 257) as u8);
        assert(out@ =~= old(out)@ + sample_bytes(v, wide));
    }
}

fn scan_alpha(pixels: &Vec<Pixel16>) -> (r: bool)
    ensures
        r == has_alpha(pixels@),
{
    let mut i: usize = 0;
    while i < pixels.len()
        invariant
            i <= pixels@.len(),
            forall|j: int| 0 <= j < i ==> #[trigger] pixels@[j].a == 65535,
        decreases pixels@.len() - i,
    {
        if pixels[i].a != 65535 {
            return true;
        }
        i = i + 1;
    }
    false
}

/// The unfiltered bytes of scanline `y`.
fn raw_row(img: &Image, y: usize, alpha: bool, wide: bool) -> (raw: Vec<u8>)
    requires
        encodable(*img),
        y < img.height,
    ensures
        raw@ == row_bytes_of(img.pixels@, y * img.width, img.width as nat, alpha, wide),
{
    let _n = img.pixels.len();
    let w = img.width as usize;
    assert(y * w + w <= img.width as int * img.height as int) by (nonlinear_arith)
        requires
            y < img.height,
            w == img.width,
    ;
    let start = y * w;
    let mut raw: Vec<u8> = Vec::new();
    let mut x: usize = 0;
    while x < w
        invariant
            x <= w,
            _n == img.pixels@.len(),
            w == img.width,
            start + w <= img.pixels@.len(),
            start == y * img.width,
            raw@ == row_bytes_of(img.pixels@, start as int, x as nat, alpha, wide),
        decreases w - x,
    {
        let p = img.pixels[start + x];
        let ghost before = raw@;
        push_sample(&mut raw, p.r, wide);
        push_sample(&mut raw, p.g, wide);
        push_sample(&mut raw, p.b, wide);
        if alpha {
            push_sample(&mut raw, p.a, wide);
        }
        assert(raw@ =~= before + pixel_bytes(p, alpha, wide));
        x = x + 1;
    }
    raw
}

proof fn lemma_row_len(px: Seq<Pixel16>, start: int, n: nat, alpha: bool, wide: bool)
    ensures
        row_bytes_of(px, start, n, alpha, wide).len() == n * ((if alpha { 4int } else { 3int })
            * (if wide { 2int } else { 1int })),
    decreases n,
{
    if n > 0 {
        lemma_row_len(px, start, (n - 1) as nat, alpha, wide);
        let c = (if alpha { 4int } else { 3int }) * (if wide { 2int } else { 1int });
        assert(n * c == (n - 1) * c + c) by (nonlinear_arith);
    } else {
        let c = (if alpha { 4int } else { 3int }) * (if wide { 2int } else { 1int });
        assert(n * c == 0) by (nonlinear_arith)
            requires
                n == 0,
        ;
    }
}

/// Filters one scanline with the strategy's filter (or the adaptive choice)
/// and appends the filter byte and the filtered bytes.
pub fn filter_row(f: Filter, raw: &Vec<u8>, prior: &Vec<u8>, bpp: usize, out: &mut Vec<u8>)
    requires
        raw@.len() == prior@.len(),
        bpp >= 1,
        raw@.len() < 0x0100_0000_0000_0000,
    ensures
        final(out)@ == old(out)@ + seq![kind_for(f, raw@, prior@, bpp as int)] + filtered(
            kind_for(f, raw@, prior@, bpp as int),
            raw@,
            prior@,
            bpp as int,
        ),
{
    let kind: u8 = match f {
        Filter::NoFilter => 0,
        Filter::Sub => 1,
        Filter::Up => 2,
        Filter::Average => 3,
        Filter::Paeth => 4,
        Filter::Adaptive => {
            let mut best: u8 = 0;
            let mut best_score: u64 = u64::MAX;
            let mut code: u8 = 0;
            while code <= 4
                invariant
                    code <= 5,
                    raw@.len() == prior@.len(),
                    bpp >= 1,
                    raw@.len() < 0x0100_0000_0000_0000,
                    code == 0 ==> best_score == u64::MAX && best == 0,
                    code >= 1 ==> best == best_upto(raw@, prior@, bpp as int, code as nat)
                        && best_score == score_of(filtered(best, raw@, prior@, bpp as int)),
                decreases 5 - code,
            {
                let mut candidate: Vec<u8> = Vec::new();
                apply_filter(code, raw, prior.as_slice(), bpp, &mut candidate);
                assert(candidate@.subrange(1, candidate@.len() as int) =~= filtered(
                    code,
                    raw@,
                    prior@,
                    bpp as int,
                ));
                let score = filter_score(&candidate);
                if score < best_score {
                    best_score = score;
                    best = code;
                }
                code = code + 1;
            }
            best
        },
    };
    apply_filter(kind, raw, prior.as_slice(), bpp, out);
}

/// Appends `z` as `IDAT` chunks of at most 64 KiB.
fn push_idat(out: &mut Vec<u8>, z: &Vec<u8>)
    ensures
        final(out)@ == old(out)@ + idat_chunks(z@),
{
    let len = z.len();
    let mut pos: usize = 0;
    assert(z@.subrange(0, len as int) =~= z@);
    loop
        invariant_except_break
            pos <= len,
            len == z@.len(),
            out@ + idat_chunks(z@.subrange(pos as int, len as int)) == old(out)@ + idat_chunks(z@),
        ensures
            out@ == old(out)@ + idat_chunks(z@),
        decreases len - pos,
    {
        let ghost rest = z@.subrange(pos as int, len as int);
        let n = if len - pos <= 65536 {
            len - pos
        } else {
            65536
        };
        let mut part: Vec<u8> = Vec::new();
        crate::bytes::push_range(&mut part, z.as_slice(), pos, n);
        let r = chunk(out, [0x49u8, 0x44, 0x41, 0x54], part.as_slice());
        assert([0x49u8, 0x44, 0x41, 0x54]@ =~= seq![0x49u8, 0x44, 0x41, 0x54]);
        if pos + n == len {
            assert(part@ =~= rest);
            break;
        }
        assert(rest.subrange(0, 65536) =~= part@);
        assert(rest.subrange(65536, rest.len() as int) =~= z@.subrange(pos + n, len as int));
        pos = pos + n;
    }
}

/// Encodes `img` as a canonical PNG with the given filter strategy.
pub fn encode(img: &Image, filter: Filter) -> (r: Result<Vec<u8>, Error>)
    ensures
        r is Ok <==> encodable(*img),
        r matches Ok(out) ==> out@ == encoded(*img, filter),
{
    let w = img.width as usize;
    let h = img.height as usize;
    assert(img.width as int * img.height as int <= 0xFFFF_FFFF * 0xFFFF_FFFF) by (nonlinear_arith)
        requires
            img.width <= 0xFFFF_FFFF,
            img.height <= 0xFFFF_FFFF,
    ;
    if img.width == 0 || img.height == 0 || img.pixels.len() as u64 != img.width as u64 * img.height as u64 {
        return Err(Error::Invalid("encoder image dimensions"));
    }
    let alpha = scan_alpha(&img.pixels);
    let wide = img.source_bit_depth == 16;
    let channels: usize = if alpha {
        4
    } else {
        3
    };
    let bpp = channels * if wide {
        2
    } else {
        1
    };
    assert(bpp as int == bytes_per_pixel(*img));
    assert(w as int * bpp as int <= img.pixels@.len() * 8 && w as int * bpp as int <= 0xFFFF_FFFF * 8) by (nonlinear_arith)
        requires
            bpp <= 8,
            h >= 1,
            w <= 0xFFFF_FFFF,
            img.pixels@.len() == w as int * h as int,
    ;
    if w as u64 * bpp as u64 > usize::MAX as u64 {
        return Err(Error::Overflow("row length"));
    }
    let row_len = w * bpp;
    let mut prior: Vec<u8> = Vec::new();
    let mut z: usize = 0;
    while z < row_len
        invariant
            z <= row_len,
            prior@.len() == z,
            forall|i: int| 0 <= i < z ==> prior@[i] == 0u8,
        decreases row_len - z,
    {
        prior.push(0u8);
        z = z + 1;
    }
    assert(prior@ =~= prior_of(*img, 0));
    let mut filtered_all: Vec<u8> = Vec::new();
    let mut y: usize = 0;
    while y < h
        invariant
            y <= h,
            h == img.height,
            w == img.width,
            encodable(*img),
            alpha == has_alpha(img.pixels@),
            wide == (img.source_bit_depth == 16),
            bpp as int == bytes_per_pixel(*img),
            1 <= bpp <= 8,
            row_len == w * bpp,
            row_len as int <= img.pixels@.len() * 8,
            row_len as int <= 0xFFFF_FFFF * 8,
            prior@ == prior_of(*img, y as int),
            filtered_all@ == filtered_rows(*img, filter, y as nat),
        decreases h - y,
    {
        let raw = raw_row(img, y, alpha, wide);
        proof {
            lemma_row_len(img.pixels@, y * img.width, img.width as nat, alpha, wide);
            if y > 0 {
                lemma_row_len(img.pixels@, (y - 1) * img.width, img.width as nat, alpha, wide);
            }
        }
        filter_row(filter, &raw, &prior, bpp, &mut filtered_all);
        prior = raw;
        y = y + 1;
    }
    let compressed = zlib_store(filtered_all.as_slice());
    let mut out: Vec<u8> = Vec::new();
    out.extend_from_slice(&SIGNATURE);
    let mut ihdr: Vec<u8> = Vec::new();
    push_be32(&mut ihdr, img.width);
    push_be32(&mut ihdr, img.height);
    ihdr.push(if wide { 16u8 } else { 8u8 });
    ihdr.push(if alpha { 6u8 } else { 2u8 });
    ihdr.push(0u8);
    ihdr.push(0u8);
    ihdr.push(0u8);
    assert(ihdr@ =~= ihdr_bytes(*img));
    let _ = chunk(&mut out, [0x49u8, 0x48, 0x44, 0x52], ihdr.as_slice());
    push_idat(&mut out, &compressed);
    let _ = chunk(&mut out, [0x49u8, 0x45, 0x4e, 0x44], &[]);
    assert([0x49u8, 0x48, 0x44, 0x52]@ =~= seq![0x49u8, 0x48, 0x44, 0x52]);
    assert([0x49u8, 0x45, 0x4e, 0x44]@ =~= seq![0x49u8, 0x45, 0x4e, 0x44]);
    assert(SIGNATURE@ =~= signature());
    assert(out@ =~= encoded(*img, filter));
    Ok(out)
}

} // verus!
