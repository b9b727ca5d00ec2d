//! Windows BMP parsing: headers, palettes, bit masks, RLE4/RLE8 and rows.
use vstd::prelude::*;
use crate::bytes::{le16, le32, read_le16, read_le32};
use super::{Error, Options, UnmarkedAlpha};

verus! {

#[derive(Debug, Clone, Copy, PartialEq, Eq, Structural)]
pub enum Compression {
    Rgb,
    Rle8,
    Rle4,
    Bitfields,
    AlphaBitfields,
}

/// The BMP header name of a compression method.
pub open spec fn compression_label(c: Compression) -> &'static str {
    match c {
        Compression::Rgb => "BI_RGB",
        Compression::Rle8 => "BI_RLE8",
        Compression::Rle4 => "BI_RLE4",
        Compression::Bitfields => "BI_BITFIELDS",
        Compression::AlphaBitfields => "BI_ALPHABITFIELDS",
    }
}

impl Compression {
    pub fn name(self) -> (r: &'static str)
        ensures
            r == compression_label(self),
    {
        match self {
            Compression::Rgb => "BI_RGB",
            Compression::Rle8 => "BI_RLE8",
            Compression::Rle4 => "BI_RLE4",
            Compression::Bitfields => "BI_BITFIELDS",
            Compression::AlphaBitfields => "BI_ALPHABITFIELDS",
        }
    }
}

#[derive(Debug, Clone, Copy)]
pub struct Masks {
    pub red: u32,
    pub green: u32,
    pub blue: u32,
    pub alpha: u32,
}

/// A parsed BMP, ready for row decoding.
pub struct BmpImage {
    pub file_size: u64,
    pub width: u32,
    pub height: u32,
    pub bits_per_pixel: u16,
    pub compression: Compression,
    pub top_down: bool,
    pub pixel_offset: u64,
    pub row_stride: u64,
    pub palette: Vec<[u8; 4]>,
    pub masks: Masks,
    pub preserve_unmarked_alpha: bool,
    pub output_channels: usize,
    pub rle_pixels: Option<Vec<u8>>,
    pub warnings: Vec<String>,
}

/// The signed little-endian 32-bit field at `i`.
pub open spec fn le_i32(b: Seq<u8>, i: int) -> int {
    if le32(b, i) >= 0x8000_0000 {
        le32(b, i) - 0x1_0000_0000
    } else {
        le32(b, i)
    }
}

fn read_le_i32(b: &[u8], i: usize) -> (r: i32)
    requires
        i + 4 <= b@.len(),
    ensures
        r as int == le_i32(b@, i as int),
{
    let v = read_le32(b, i);
    if v >= 0x8000_0000 {
        (v as i64 - 0x1_0000_0000i64) as i32
    } else {
        v as i32
    }
}

/// A non-empty run of contiguous one bits.
pub open spec fn mask_ok(mask: u32) -> bool {
    mask != 0 && {
        let shifted = mask >> mask.trailing_zeros();
        shifted & (shifted.wrapping_add(1)) == 0
    }
}

pub fn valid_mask(mask: u32) -> (r: bool)
    ensures
        r == mask_ok(mask),
{
    if mask == 0 {
        return false;
    }
    let shifted = mask >> mask.trailing_zeros();
    shifted & shifted.wrapping_add(1) == 0
}

/// The masks are contiguous, disjoint and fit the pixel word.
pub open spec fn masks_ok(m: Masks, bits: u16) -> bool {
    let allowed: u32 = if bits == 32 { u32::MAX } else { 0xFFFFu32 };
    &&& mask_ok(m.red) && mask_ok(m.green) && mask_ok(m.blue)
    &&& (m.alpha == 0 || mask_ok(m.alpha))
    &&& ((m.red & m.green) | (m.red & m.blue) | (m.green & m.blue) | (m.alpha & (m.red | m.green
        | m.blue))) == 0
    &&& (m.red | m.green | m.blue | m.alpha) & !allowed == 0
}

pub fn validate_masks(masks: Masks, bits_per_pixel: u16) -> (r: Result<(), Error>)
    requires
        bits_per_pixel == 16 || bits_per_pixel == 32,
    ensures
        r is Ok <==> masks_ok(masks, bits_per_pixel),
        match mask_refusal(masks, bits_per_pixel) {
            Some(e) => r == Err::<(), Error>(e),
            None => r is Ok,
        },
{
    if !valid_mask(masks.red) || !valid_mask(masks.green) || !valid_mask(masks.blue) {
        return Err(Error::InvalidBitfieldMasks("RGB masks must be non-zero contiguous bit ranges"));
    }
    if masks.alpha != 0 && !valid_mask(masks.alpha) {
        return Err(Error::InvalidBitfieldMasks("alpha mask must be a contiguous bit range"));
    }
    let overlap = (masks.red & masks.green) | (masks.red & masks.blue) | (masks.green & masks.blue)
        | (masks.alpha & (masks.red | masks.green | masks.blue));
    if overlap != 0 {
        return Err(Error::InvalidBitfieldMasks("channel masks overlap"));
    }
    let allowed: u32 = if bits_per_pixel == 32 {
        u32::MAX
    } else {
        0xFFFF
    };
    if (masks.red | masks.green | masks.blue | masks.alpha) & !allowed != 0 {
        return Err(Error::InvalidBitfieldMasks("mask uses bits outside the pixel word"));
    }
    Ok(())
}

/// The channel selected by `mask` in `value`, rescaled to eight bits;
/// 255 when the mask is empty.
pub open spec fn scaled(value: u32, mask: u32) -> u8 {
    if mask == 0 {
        255
    } else {
        let shift = mask.trailing_zeros();
        let maximum = mask >> shift;
        let channel = (value & mask) >> shift;
        ((channel as int * 255 + maximum as int / 2) / (maximum as int)) as u8
    }
}

pub fn scale_mask(value: u32, mask: u32) -> (r: u8)
    ensures
        r == scaled(value, mask),
{
    if mask == 0 {
        return 255;
    }
    let shift = mask.trailing_zeros();
    let maximum = mask >> shift;
    let channel = (value & mask) >> shift;
    proof {
        vstd::std_specs::bits::axiom_u32_trailing_zeros(mask);
    }
    assert((mask >> shift) & 1u32 == 1u32);
    assert(maximum != 0) by (bit_vector)
        requires
            maximum == mask >> shift,
            (mask >> shift) & 1u32 == 1u32,
    ;
    ((channel as u64 * 255 + maximum as u64 / 2) / maximum as u64) as u8
}

/// The palette index of pixel `x` in a packed row starting at `start`.
pub open spec fn packed_index(b: Seq<u8>, start: int, x: int, bits: u16) -> u8 {
    if bits == 1 {
        ((b[start + x / 8] as int / crate::extended::two_pow((7 - x % 8) as nat) as int) % 2) as u8
    } else if bits == 4 {
        if x % 2 == 0 {
            (b[start + x / 2] as int / 16) as u8
        } else {
            (b[start + x / 2] as int % 16) as u8
        }
    } else {
        b[start + x]
    }
}

/// The output bytes of a palette entry.
pub open spec fn entry_bytes(e: [u8; 4], channels: int, preserve: bool) -> Seq<u8> {
    seq![e[0], e[1], e[2]] + if channels == 4 {
        seq![if preserve { e[3] } else { 255u8 }]
    } else {
        Seq::empty()
    }
}

/// The output bytes of the indices `idx[0..n]`, or `None` when one is not in
/// the palette.
pub open spec fn palette_bytes(idx: Seq<u8>, palette: Seq<[u8; 4]>, channels: int, preserve: bool, n: nat) -> Option<Seq<u8>>
    decreases n,
{
    if n == 0 {
        Some(Seq::empty())
    } else {
        match palette_bytes(idx, palette, channels, preserve, (n - 1) as nat) {
            None => None,
            Some(s) => if idx[n - 1] < palette.len() {
                Some(s + entry_bytes(palette[idx[n - 1] as int], channels, preserve))
            } else {
                None
            },
        }
    }
}

/// The output bytes of a direct-colour pixel whose bytes start at `at`.
pub open spec fn direct_bytes(img: BmpImage, b: Seq<u8>, at: int) -> Seq<u8> {
    let four = img.output_channels == 4;
    if img.bits_per_pixel == 24 {
        seq![b[at + 2], b[at + 1], b[at]]
    } else {
        let value: u32 = if img.bits_per_pixel == 16 { le16(b, at) as u32 } else { le32(b, at) as u32 };
        let m = img.masks;
        seq![scaled(value, m.red), scaled(value, m.green), scaled(value, m.blue)] + if four {
            seq![
                if img.bits_per_pixel == 16 || m.alpha != 0 {
                    scaled(value, m.alpha)
                } else if img.preserve_unmarked_alpha {
                    b[at + 3]
                } else {
                    255u8
                },
            ]
        } else {
            Seq::empty()
        }
    }
}

pub open spec fn direct_row(img: BmpImage, b: Seq<u8>, start: int, n: nat) -> Seq<u8>
    decreases n,
{
    if n == 0 {
        Seq::empty()
    } else {
        direct_row(img, b, start, (n - 1) as nat) + direct_bytes(
            img,
            b,
            start + (n - 1) * (img.bits_per_pixel / 8),
        )
    }
}

/// Where source row `row` (counted from the top of the image) starts.
pub open spec fn row_start(img: BmpImage, row: int) -> int {
    let source = if img.top_down { row } else { img.height - 1 - row };
    img.pixel_offset + img.row_stride * source
}

/// The decoded output row `row` of `img` read from `b`, if its indices are
/// all in the palette.
pub open spec fn decoded_row(img: BmpImage, b: Seq<u8>, row: int) -> Option<Seq<u8>> {
    let w = img.width as int;
    let four = img.output_channels as int;
    let preserve = img.preserve_unmarked_alpha;
    match img.rle_pixels {
        Some(v) => palette_bytes(v@.subrange(row * w, row * w + w), img.palette@, four, preserve, w as nat),
        None => if img.bits_per_pixel <= 8 {
            let start = row_start(img, row);
            palette_bytes(
                Seq::new(w as nat, |x: int| packed_index(b, start, x, img.bits_per_pixel)),
                img.palette@,
                four,
                preserve,
                w as nat,
            )
        } else {
            Some(direct_row(img, b, row_start(img, row), w as nat))
        },
    }
}

impl BmpImage {
    /// The image is consistent with an input of `len` bytes.
    pub open spec fn wf(self, len: int) -> bool {
        &&& 1 <= self.width && 1 <= self.height
        &&& self.width <= 0x7FFF_FFFF && self.height <= 0x8000_0000
        &&& (self.bits_per_pixel == 1 || self.bits_per_pixel == 4 || self.bits_per_pixel == 8
            || self.bits_per_pixel == 16 || self.bits_per_pixel == 24 || self.bits_per_pixel == 32)
        &&& (self.output_channels == 3 || self.output_channels == 4)
        &&& self.row_stride == ((self.width * self.bits_per_pixel + 31) / 32) * 4
        &&& match self.rle_pixels {
            Some(v) => v@.len() == self.width * self.height && self.bits_per_pixel <= 8,
            None => self.pixel_offset + self.row_stride * self.height <= len,
        }
        &&& self.palette@.len() <= 256
        &&& (self.bits_per_pixel == 24 ==> self.output_channels == 3)
    }

    fn decode_palette_indices(&self, indices: &Vec<u8>, n: usize) -> (r: Result<Vec<u8>, Error>)
        requires
            n <= indices@.len(),
            self.output_channels == 3 || self.output_channels == 4,
        ensures
            match palette_bytes(indices@, self.palette@, self.output_channels as int, self.preserve_unmarked_alpha, n as nat) {
                Some(s) => r matches Ok(v) && v@ == s,
                None => r is Err,
            },
            r matches Err(e) ==> e is PaletteIndexOutOfRange,
    {
        let mut out: Vec<u8> = Vec::new();
        let mut x: usize = 0;
        while x < n
            invariant
                x <= n,
                n <= indices@.len(),
                self.output_channels == 3 || self.output_channels == 4,
                palette_bytes(indices@, self.palette@, self.output_channels as int, self.preserve_unmarked_alpha, x as nat) == Some(out@),
            decreases n - x,
        {
            let index = indices[x];
            if index as usize >= self.palette.len() {
                proof {
                    lemma_palette_none(indices@, self.palette@, self.output_channels as int, self.preserve_unmarked_alpha, (x + 1) as nat, n as nat);
                }
                return Err(Error::PaletteIndexOutOfRange { index, entries: self.palette.len() });
            }
            let e = self.palette[index as usize];
            out.push(e[0]);
            out.push(e[1]);
            out.push(e[2]);
            if self.output_channels == 4 {
                out.push(if self.preserve_unmarked_alpha { e[3] } else { 255u8 });
            }
            x = x + 1;
            assert(out@ =~= palette_bytes(indices@, self.palette@, self.output_channels as int, self.preserve_unmarked_alpha, (x - 1) as nat)->0 + entry_bytes(e, self.output_channels as int, self.preserve_unmarked_alpha));
        }
        Ok(out)
    }
}

proof fn lemma_stride(w: int, bits: int, stride: int)
    requires
        w >= 1,
        bits >= 1,
        stride == ((w * bits + 31) / 32) * 4,
    ensures
        stride * 8 >= w * bits,
        stride >= 0,
{
    let q = (w * bits + 31) / 32;
    vstd::arithmetic::div_mod::lemma_fundamental_div_mod(w * bits + 31, 32);
    assert(q * 32 >= w * bits);
}

proof fn lemma_row_fits(offset: int, stride: int, h: int, source: int, len: int)
    requires
        0 <= source < h,
        stride >= 0,
        offset >= 0,
        offset + stride * h <= len,
    ensures
        offset + stride * source + stride <= len,
        offset + stride * source >= 0,
{
    assert(stride * source + stride <= stride * h) by (nonlinear_arith)
        requires
            source < h,
            stride >= 0,
    ;
    assert(stride * source >= 0) by (nonlinear_arith)
        requires
            source >= 0,
            stride >= 0,
    ;
}

impl BmpImage {
    /// The decoded output row `row` (counted from the top), RGB or RGBA.
    pub fn decode_row(&self, input: &[u8], row: u32) -> (r: Result<Vec<u8>, Error>)
        requires
            self.wf(input@.len() as int),
            row < self.height,
        ensures
            match decoded_row(*self, input@, row as int) {
                Some(s) => r matches Ok(v) && v@ == s,
                None => r is Err,
            },
            r matches Err(e) ==> e is PaletteIndexOutOfRange,
    {
        let len = input.len();
        let w = self.width as usize;
        match &self.rle_pixels {
            Some(indices) => {
                let _n = indices.len();
                assert(row as int * w + w <= self.width as int * self.height as int) by (nonlinear_arith)
                    requires
                        row < self.height,
                        w == self.width,
                ;
                let start = row as usize * w;
                let mut line: Vec<u8> = Vec::new();
                let mut k: usize = 0;
                while k < w
                    invariant
                        k <= w,
                        _n == indices@.len(),
                        start + w <= indices@.len(),
                        line@ == indices@.subrange(start as int, start + k),
                    decreases w - k,
                {
                    line.push(indices[start + k]);
                    k = k + 1;
                    assert(line@ =~= indices@.subrange(start as int, start + k));
                }
                return self.decode_palette_indices(&line, w);
            },
            None => {},
        }
        let source: u64 = if self.top_down {
            row as u64
        } else {
            self.height as u64 - 1 - row as u64
        };
        proof {
            lemma_stride(self.width as int, self.bits_per_pixel as int, self.row_stride as int);
            lemma_row_fits(self.pixel_offset as int, self.row_stride as int, self.height as int, source as int, len as int);
        }
        let start = (self.pixel_offset + self.row_stride * source) as usize;
        let stride = self.row_stride as usize;
        assert(start as int == row_start(*self, row as int));
        let bits = self.bits_per_pixel;
        if bits <= 8 {
            let mut indices: Vec<u8> = Vec::new();
            let mut x: usize = 0;
            while x < w
                invariant
                    x <= w,
                    w == self.width,
                    start + stride <= len,
                    len == input@.len(),
                    stride * 8 >= w * bits,
                    bits == 1 || bits == 4 || bits == 8,
                    bits == self.bits_per_pixel,
                    indices@ == Seq::new(x as nat, |i: int| packed_index(input@, start as int, i, bits)),
                decreases w - x,
            {
                let v: u8 = if bits == 1 {
                    assert(x / 8 < stride) by (nonlinear_arith)
                        requires
                            x < w,
                            stride * 8 >= w,
                    ;
                    let d = crate::png_codec::pow2_small((7 - x % 8) as u32);
                    proof {
                        crate::extended::lemma_two_pow_pos((7 - x % 8) as nat);
                    }
                    ((input[start + x / 8] as u32 / d) % 2) as u8
                } else if bits == 4 {
                    assert(x / 2 < stride) by (nonlinear_arith)
                        requires
                            x < w,
                            stride * 8 >= w * 4,
                    ;
                    if x % 2 == 0 {
                        input[start + x / 2] / 16
                    } else {
                        input[start + x / 2] % 16
                    }
                } else {
                    assert(x < stride) by (nonlinear_arith)
                        requires
                            x < w,
                            stride * 8 >= w * 8,
                    ;
                    input[start + x]
                };
                indices.push(v);
                x = x + 1;
                assert(indices@ =~= Seq::new(x as nat, |i: int| packed_index(input@, start as int, i, bits)));
            }
            return self.decode_palette_indices(&indices, w);
        }
        let step: usize = (bits / 8) as usize;
        let mut out: Vec<u8> = Vec::new();
        let mut x: usize = 0;
        while x < w
            invariant
                x <= w,
                w == self.width,
                start + stride <= len,
                len == input@.len(),
                stride * 8 >= w * bits,
                bits == 16 || bits == 24 || bits == 32,
                bits == self.bits_per_pixel,
                step == bits / 8,
                self.output_channels == 3 || self.output_channels == 4,
                out@ == direct_row(*self, input@, start as int, x as nat),
            decreases w - x,
        {
            assert(x * step + step <= stride) by (nonlinear_arith)
                requires
                    x < w,
                    stride * 8 >= w * bits,
                    step * 8 == bits,
            ;
            let at = start + x * step;
            let ghost before = out@;
            if bits == 24 {
                out.push(input[at + 2]);
                out.push(input[at + 1]);
                out.push(input[at]);
            } else {
                let value: u32 = if bits == 16 {
                    read_le16(input, at) as u32
                } else {
                    read_le32(input, at)
                };
                out.push(scale_mask(value, self.masks.red));
                out.push(scale_mask(value, self.masks.green));
                out.push(scale_mask(value, self.masks.blue));
                if self.output_channels == 4 {
                    out.push(
                        if bits == 16 || self.masks.alpha != 0 {
                            scale_mask(value, self.masks.alpha)
                        } else if self.preserve_unmarked_alpha {
                            input[at + 3]
                        } else {
                            255u8
                        },
                    );
                }
            }
            assert(out@ =~= before + direct_bytes(*self, input@, at as int));
            x = x + 1;
        }
        Ok(out)
    }
}

/// Reads RLE command bytes from `input[pos..]`, at most `remaining` of them.
struct RleReader {
    pos: usize,
    remaining: u64,
}

impl RleReader {
    fn byte(&mut self, input: &[u8]) -> (r: Result<u8, Error>)
        ensures
            r is Ok <==> old(self).remaining > 0 && old(self).pos < input@.len(),
            r matches Ok(v) ==> v == input@[old(self).pos as int] && final(self).pos == old(self).pos
                + 1 && final(self).remaining == old(self).remaining - 1,
            r is Err ==> *final(self) == *old(self),
            r matches Err(e) ==> e == Error::Truncated("RLE command stream"),
    {
        if self.remaining == 0 || self.pos >= input.len() {
            return Err(Error::Truncated("RLE command stream"));
        }
        let v = input[self.pos];
        self.pos = self.pos + 1;
        self.remaining = self.remaining - 1;
        Ok(v)
    }
}

/// Where an RLE stream of `length` bytes at `offset` of a `len`-byte input
/// stops being readable.
pub open spec fn rle_limit(len: int, offset: int, length: int) -> int {
    if offset + length < len {
        offset + length
    } else {
        len
    }
}

/// `px` with `src` written over it from index `start` on.
pub open spec fn fill(px: Seq<u8>, start: int, src: Seq<u8>) -> Seq<u8> {
    Seq::new(px.len(), |j: int| if start <= j < start + src.len() { src[j - start] } else { px[j] })
}

/// The `n` indices of an encoded run of the byte `v`.
pub open spec fn encoded_run(v: u8, n: nat, rle8: bool) -> Seq<u8> {
    Seq::new(n, |k: int| if rle8 { v } else if k % 2 == 0 { v / 16 } else { v % 16 })
}

/// The `n` indices of an absolute run whose bytes start at `at`.
pub open spec fn absolute_run(b: Seq<u8>, at: int, n: nat, rle8: bool) -> Seq<u8> {
    Seq::new(
        n,
        |k: int|
            if rle8 {
                b[at + k]
            } else if k % 2 == 0 {
                b[at + k / 2] / 16
            } else {
                b[at + k / 2] % 16
            },
    )
}

/// The index, in the top-down array, of column `x` of the row `y` rows above
/// the bottom.
pub open spec fn rle_slot(w: int, h: int, x: int, y: int) -> int {
    (h - 1 - y) * w + x
}

/// The RLE4 (`rle8` false) or RLE8 decoding of the commands of `b` from `pos`
/// up to `lim`, with the cursor at column `x` of the row `y` rows above the
/// bottom of a `w` by `h` image and the indices so far `px`: the indices when
/// an end-of-bitmap command comes, else the error met first.
pub open spec fn rle_decode(
    b: Seq<u8>,
    lim: int,
    pos: int,
    x: int,
    y: int,
    px: Seq<u8>,
    w: int,
    h: int,
    rle8: bool,
) -> Result<Seq<u8>, Error>
    decreases lim - pos,
{
    if pos + 2 > lim {
        Err(Error::Truncated("RLE command stream"))
    } else {
        let n = b[pos] as int;
        let v = b[pos + 1] as int;
        if n != 0 {
            if y >= h || x + n > w {
                Err(Error::InvalidRle("pixel run exceeds image bounds"))
            } else {
                rle_decode(
                    b,
                    lim,
                    pos + 2,
                    x + n,
                    y,
                    fill(px, rle_slot(w, h, x, y), encoded_run(b[pos + 1], n as nat, rle8)),
                    w,
                    h,
                    rle8,
                )
            }
        } else if v == 0 {
            if y + 1 > h {
                Err(Error::InvalidRle("too many end-of-line commands"))
            } else {
                rle_decode(b, lim, pos + 2, 0, y + 1, px, w, h, rle8)
            }
        } else if v == 1 {
            Ok(px)
        } else if v == 2 {
            if pos + 4 > lim {
                Err(Error::Truncated("RLE command stream"))
            } else if x + b[pos + 2] > w || y + b[pos + 3] >= h {
                Err(Error::InvalidRle("delta command leaves image bounds"))
            } else {
                rle_decode(b, lim, pos + 4, x + b[pos + 2], y + b[pos + 3], px, w, h, rle8)
            }
        } else if y >= h {
            Err(Error::InvalidRle("absolute run follows final row"))
        } else {
            let stored = absolute_stored(v, rle8);
            match absolute_refusal(lim, pos + 2, x, w, v, rle8) {
                Some(e) => Err(e),
                None => rle_decode(
                    b,
                    lim,
                    pos + 2 + stored + stored % 2,
                    x + v,
                    y,
                    fill(px, rle_slot(w, h, x, y), absolute_run(b, pos + 2, v as nat, rle8)),
                    w,
                    h,
                    rle8,
                ),
            }
        }
    }
}

/// How many stream bytes an absolute run of `v` indices holds.
pub open spec fn absolute_stored(v: int, rle8: bool) -> int {
    if rle8 {
        v
    } else {
        (v + 1) / 2
    }
}

/// The error met first by an absolute run of `v` indices whose bytes start
/// at `q`, with the cursor at column `x` of a `w`-wide row; `None` when the
/// run and its padding fit.
pub open spec fn absolute_refusal(lim: int, q: int, x: int, w: int, v: int, rle8: bool) -> Option<Error> {
    let stored = absolute_stored(v, rle8);
    let avail = lim - q;
    if (rle8 && avail < v && avail <= w - x) || (!rle8 && avail < stored) {
        Some(Error::Truncated("RLE command stream"))
    } else if x + v > w {
        Some(Error::InvalidRle("pixel run exceeds image bounds"))
    } else if stored % 2 != 0 && q + stored >= lim {
        Some(Error::Truncated("RLE command stream"))
    } else {
        None
    }
}

/// An RLE decoding fails only for a truncated stream or a command that
/// leaves the image.
pub proof fn lemma_rle_refusals(
    b: Seq<u8>,
    lim: int,
    pos: int,
    x: int,
    y: int,
    px: Seq<u8>,
    w: int,
    h: int,
    rle8: bool,
)
    ensures
        rle_decode(b, lim, pos, x, y, px, w, h, rle8) matches Err(e) ==> e is Truncated
            || e is InvalidRle,
    decreases lim - pos,
{
    if pos + 2 <= lim {
        let n = b[pos] as int;
        let v = b[pos + 1] as int;
        if n != 0 {
            if !(y >= h || x + n > w) {
                lemma_rle_refusals(
                    b,
                    lim,
                    pos + 2,
                    x + n,
                    y,
                    fill(px, rle_slot(w, h, x, y), encoded_run(b[pos + 1], n as nat, rle8)),
                    w,
                    h,
                    rle8,
                );
            }
        } else if v == 0 {
            if y + 1 <= h {
                lemma_rle_refusals(b, lim, pos + 2, 0, y + 1, px, w, h, rle8);
            }
        } else if v == 2 {
            if pos + 4 <= lim && !(x + b[pos + 2] > w || y + b[pos + 3] >= h) {
                lemma_rle_refusals(b, lim, pos + 4, x + b[pos + 2], y + b[pos + 3], px, w, h, rle8);
            }
        } else if v != 1 && y < h {
            let stored = absolute_stored(v, rle8);
            if absolute_refusal(lim, pos + 2, x, w, v, rle8) is None {
                lemma_rle_refusals(
                    b,
                    lim,
                    pos + 2 + stored + stored % 2,
                    x + v,
                    y,
                    fill(px, rle_slot(w, h, x, y), absolute_run(b, pos + 2, v as nat, rle8)),
                    w,
                    h,
                    rle8,
                );
            }
        }
    }
}

/// Writes `value` at column `x` of the row `y` rows above the bottom.
fn set_index(pixels: &mut Vec<u8>, width: u32, height: u32, x: &mut u32, y: u32, value: u8) -> (r: Result<(), Error>)
    requires
        old(pixels)@.len() == width * height,
    ensures
        final(pixels)@.len() == old(pixels)@.len(),
        r is Ok <==> *old(x) < width && y < height,
        r is Ok ==> *final(x) == *old(x) + 1,
        r is Ok ==> 0 <= rle_slot(width as int, height as int, *old(x) as int, y as int) < old(pixels)@.len(),
        r is Ok ==> final(pixels)@ == old(pixels)@.update(
            rle_slot(width as int, height as int, *old(x) as int, y as int),
            value,
        ),
        r is Err ==> final(pixels)@ == old(pixels)@ && *final(x) == *old(x),
        r matches Err(e) ==> e == Error::InvalidRle("pixel run exceeds image bounds"),
{
    if *x >= width || y >= height {
        return Err(Error::InvalidRle("pixel run exceeds image bounds"));
    }
    let top_row = height - 1 - y;
    assert(top_row as int * width + *x < width as int * height as int) by (nonlinear_arith)
        requires
            top_row < height,
            *x < width,
    ;
    let _n = pixels.len();
    let index = top_row as usize * width as usize + *x as usize;
    pixels.set(index, value);
    *x = *x + 1;
    Ok(())
}

/// Writes an encoded run of `n` indices taken from `value` at column `x` of
/// the row `y` rows above the bottom.
#[verifier::loop_isolation(false)]
fn write_encoded(
    pixels: &mut Vec<u8>,
    width: u32,
    height: u32,
    x: &mut u32,
    y: u32,
    value: u8,
    n: u8,
    compression: Compression,
) -> (r: Result<(), Error>)
    requires
        old(pixels)@.len() == width * height,
        *old(x) <= width,
        n > 0,
    ensures
        final(pixels)@.len() == old(pixels)@.len(),
        *final(x) <= width,
        r is Ok <==> y < height && *old(x) + n <= width,
        r is Ok ==> *final(x) == *old(x) + n && final(pixels)@ == fill(
            old(pixels)@,
            rle_slot(width as int, height as int, *old(x) as int, y as int),
            encoded_run(value, n as nat, compression == Compression::Rle8),
        ),
        r matches Err(e) ==> e == Error::InvalidRle("pixel run exceeds image bounds"),
{
    let ghost px0 = pixels@;
    let ghost x0 = *x as int;
    let ghost slot = rle_slot(width as int, height as int, x0, y as int);
    let ghost rle8 = compression == Compression::Rle8;
    let mut index: u8 = 0;
    while index < n
        invariant
            pixels@.len() == width * height,
            index <= n,
            *x == x0 + index,
            *x <= width,
            index > 0 ==> y < height,
            pixels@ == fill(px0, slot, encoded_run(value, index as nat, rle8)),
        decreases n - index,
    {
        let palette_index = if compression == Compression::Rle8 {
            value
        } else if index % 2 == 0 {
            value / 16
        } else {
            value % 16
        };
        match set_index(pixels, width, height, x, y, palette_index) {
            Ok(()) => {},
            Err(e) => return Err(e),
        }
        assert(pixels@ =~= fill(px0, slot, encoded_run(value, (index + 1) as nat, rle8)));
        index = index + 1;
    }
    Ok(())
}

/// Reads an absolute run of `count` indices, with its padding byte, and
/// writes it at column `x` of the row `y` rows above the bottom.
#[verifier::loop_isolation(false)]
fn write_absolute(
    reader: &mut RleReader,
    input: &[u8],
    pixels: &mut Vec<u8>,
    width: u32,
    height: u32,
    x: &mut u32,
    y: u32,
    count: u8,
    compression: Compression,
) -> (r: Result<(), Error>)
    requires
        old(pixels)@.len() == width * height,
        *old(x) <= width,
        y < height,
        count >= 3,
    ensures
        final(pixels)@.len() == old(pixels)@.len(),
        *final(x) <= width,
        final(reader).pos + final(reader).remaining == old(reader).pos + old(reader).remaining,
        final(reader).pos >= old(reader).pos,
        match absolute_refusal(
            rle_limit(input@.len() as int, old(reader).pos as int, old(reader).remaining as int),
            old(reader).pos as int,
            *old(x) as int,
            width as int,
            count as int,
            compression == Compression::Rle8,
        ) {
            Some(e) => r == Err::<(), Error>(e),
            None => {
                let stored = absolute_stored(count as int, compression == Compression::Rle8);
                &&& r is Ok
                &&& *final(x) == *old(x) + count
                &&& final(pixels)@ == fill(
                    old(pixels)@,
                    rle_slot(width as int, height as int, *old(x) as int, y as int),
                    absolute_run(input@, old(reader).pos as int, count as nat, compression == Compression::Rle8),
                )
                &&& final(reader).pos == old(reader).pos + stored + stored % 2
            },
        },
{
    let ghost b = input@;
    let ghost px0 = pixels@;
    let ghost x0 = *x as int;
    let ghost q = reader.pos as int;
    let ghost total = reader.pos as int + reader.remaining as int;
    let ghost lim = rle_limit(input@.len() as int, reader.pos as int, reader.remaining as int);
    let ghost slot = rle_slot(width as int, height as int, x0, y as int);
    if compression == Compression::Rle8 {
        let mut k: u8 = 0;
        while k < count
            invariant
                pixels@.len() == width * height,
                k <= count,
                *x == x0 + k,
                *x <= width,
                reader.pos == q + k,
                k > 0 ==> reader.pos <= lim,
                reader.pos + reader.remaining == total,
                pixels@ == fill(px0, slot, absolute_run(b, q, k as nat, true)),
            decreases count - k,
        {
            let index = match reader.byte(input) {
                Ok(v) => v,
                Err(e) => return Err(e),
            };
            match set_index(pixels, width, height, x, y, index) {
                Ok(()) => {},
                Err(e) => return Err(e),
            }
            assert(pixels@ =~= fill(px0, slot, absolute_run(b, q, (k + 1) as nat, true)));
            k = k + 1;
        }
        if count % 2 != 0 {
            match reader.byte(input) {
                Ok(_) => {},
                Err(e) => return Err(e),
            }
        }
    } else {
        let encoded_bytes = (count as usize + 1) / 2;
        let mut packed: Vec<u8> = Vec::new();
        let mut k: usize = 0;
        while k < encoded_bytes
            invariant
                k <= encoded_bytes,
                packed@.len() == k,
                forall|i: int| 0 <= i < k ==> packed@[i] == b[q + i],
                reader.pos == q + k,
                k > 0 ==> reader.pos <= lim,
                reader.pos + reader.remaining == total,
            decreases encoded_bytes - k,
        {
            let v = match reader.byte(input) {
                Ok(v) => v,
                Err(e) => return Err(e),
            };
            packed.push(v);
            k = k + 1;
        }
        let mut p: usize = 0;
        while p < count as usize
            invariant
                pixels@.len() == width * height,
                p <= count,
                *x == x0 + p,
                *x <= width,
                packed@.len() == encoded_bytes,
                forall|i: int| 0 <= i < encoded_bytes ==> packed@[i] == b[q + i],
                pixels@ == fill(px0, slot, absolute_run(b, q, p as nat, false)),
            decreases count - p,
        {
            let source = packed[p / 2];
            assert(source == b[q + p / 2]);
            let v = if p % 2 == 0 {
                source / 16
            } else {
                source % 16
            };
            match set_index(pixels, width, height, x, y, v) {
                Ok(()) => {},
                Err(e) => return Err(e),
            }
            assert(pixels@ =~= fill(px0, slot, absolute_run(b, q, (p + 1) as nat, false)));
            p = p + 1;
        }
        if encoded_bytes % 2 != 0 {
            match reader.byte(input) {
                Ok(_) => {},
                Err(e) => return Err(e),
            }
        }
    }
    Ok(())
}

/// Decodes an RLE4/RLE8 stream into top-down palette indices.
#[verifier::loop_isolation(false)]
fn decode_rle(input: &[u8], offset: usize, length: u64, width: u32, height: u32, compression: Compression) -> (r: Result<Vec<u8>, Error>)
    requires
        width * height <= usize::MAX,
        width <= 0x7FFF_FFFF,
        height <= 0x8000_0000,
    ensures
        match rle_decode(
            input@,
            rle_limit(input@.len() as int, offset as int, length as int),
            offset as int,
            0,
            0,
            Seq::new((width * height) as nat, |i: int| 0u8),
            width as int,
            height as int,
            compression == Compression::Rle8,
        ) {
            Ok(s) => r matches Ok(v) && v@ == s,
            Err(e) => r == Err::<Vec<u8>, Error>(e),
        },
        r matches Ok(v) ==> v@.len() == width * height,
{
    let ghost b = input@;
    let ghost w = width as int;
    let ghost h = height as int;
    let ghost rle8 = compression == Compression::Rle8;
    let ghost lim = rle_limit(input@.len() as int, offset as int, length as int);
    let count = width as usize * height as usize;
    let mut pixels: Vec<u8> = Vec::new();
    let mut i: usize = 0;
    while i < count
        invariant
            i <= count,
            pixels@ == Seq::new(i as nat, |j: int| 0u8),
        decreases count - i,
    {
        pixels.push(0u8);
        i = i + 1;
        assert(pixels@ =~= Seq::new(i as nat, |j: int| 0u8));
    }
    assert(pixels@ =~= Seq::new((width * height) as nat, |j: int| 0u8));
    let ghost goal = rle_decode(b, lim, offset as int, 0, 0, pixels@, w, h, rle8);
    let mut reader = RleReader { pos: offset, remaining: length };
    let mut x: u32 = 0;
    let mut y: u32 = 0;
    loop
        invariant
            pixels@.len() == width * height,
            offset <= reader.pos <= offset + length,
            reader.remaining == length - (reader.pos - offset),
            x <= width,
            y <= height,
            goal == rle_decode(b, lim, reader.pos as int, x as int, y as int, pixels@, w, h, rle8),
        decreases offset as int + length as int - reader.pos as int,
    {
        let ghost p0 = reader.pos as int;
        let n = match reader.byte(input) {
            Ok(v) => v,
            Err(e) => return Err(e),
        };
        let value = match reader.byte(input) {
            Ok(v) => v,
            Err(e) => return Err(e),
        };
        if n != 0 {
            match write_encoded(&mut pixels, width, height, &mut x, y, value, n, compression) {
                Ok(()) => {},
                Err(e) => return Err(e),
            }
        } else if value == 0 {
            x = 0;
            if y == u32::MAX {
                return Err(Error::IntegerOverflow("RLE row"));
            }
            y = y + 1;
            if y > height {
                return Err(Error::InvalidRle("too many end-of-line commands"));
            }
        } else if value == 1 {
            return Ok(pixels);
        } else if value == 2 {
            let dx = match reader.byte(input) {
                Ok(v) => v as u32,
                Err(e) => return Err(e),
            };
            let dy = match reader.byte(input) {
                Ok(v) => v as u32,
                Err(e) => return Err(e),
            };
            if x > u32::MAX - dx {
                return Err(Error::IntegerOverflow("RLE x delta"));
            }
            x = x + dx;
            if y > u32::MAX - dy {
                return Err(Error::IntegerOverflow("RLE y delta"));
            }
            y = y + dy;
            if x > width || y >= height {
                return Err(Error::InvalidRle("delta command leaves image bounds"));
            }
        } else {
            if y >= height {
                return Err(Error::InvalidRle("absolute run follows final row"));
            }
            match write_absolute(&mut reader, input, &mut pixels, width, height, &mut x, y, value, compression) {
                Ok(()) => {},
                Err(e) => return Err(e),
            }
        }
    }
}

/// The compression that the raw header value `raw` names at `bits` bits per
/// pixel, if that pairing is supported.
pub open spec fn compression_of(raw: int, bits: int) -> Option<Compression> {
    if raw == 0 {
        Some(Compression::Rgb)
    } else if raw == 1 && bits == 8 {
        Some(Compression::Rle8)
    } else if raw == 2 && bits == 4 {
        Some(Compression::Rle4)
    } else if raw == 3 && (bits == 16 || bits == 32) {
        Some(Compression::Bitfields)
    } else if raw == 6 && (bits == 16 || bits == 32) {
        Some(Compression::AlphaBitfields)
    } else {
        None
    }
}

pub open spec fn is_rle(c: Compression) -> bool {
    c == Compression::Rle4 || c == Compression::Rle8
}

pub open spec fn has_bitfields(c: Compression) -> bool {
    c == Compression::Bitfields || c == Compression::AlphaBitfields
}

/// The channel masks of a BMP with compression `c`: the defaults of 16- and
/// 32-bit `BI_RGB`, or the masks stored in the DIB header or right after it.
pub open spec fn masks_of(b: Seq<u8>, c: Compression, bits: int) -> Masks {
    let dib = le32(b, 14);
    let at = 14 + dib;
    if has_bitfields(c) {
        if dib >= 52 {
            Masks {
                red: le32(b, 54) as u32,
                green: le32(b, 58) as u32,
                blue: le32(b, 62) as u32,
                alpha: if dib >= 56 { le32(b, 66) as u32 } else { 0u32 },
            }
        } else {
            Masks {
                red: le32(b, at) as u32,
                green: le32(b, at + 4) as u32,
                blue: le32(b, at + 8) as u32,
                alpha: if c == Compression::AlphaBitfields { le32(b, at + 12) as u32 } else { 0u32 },
            }
        }
    } else if c == Compression::Rgb && bits == 16 {
        Masks { red: 0x7C00, green: 0x03E0, blue: 0x001F, alpha: 0 }
    } else if c == Compression::Rgb && bits == 32 {
        Masks { red: 0x00FF0000, green: 0x0000FF00, blue: 0x000000FF, alpha: 0 }
    } else {
        Masks { red: 0, green: 0, blue: 0, alpha: 0 }
    }
}

/// Where the palette starts: after the DIB header and any masks stored
/// after it.
pub open spec fn palette_start(b: Seq<u8>, c: Compression) -> int {
    let dib = le32(b, 14);
    if has_bitfields(c) && dib < 52 {
        14 + dib + if c == Compression::AlphaBitfields { 16int } else { 12int }
    } else {
        14 + dib
    }
}

/// The number of palette entries at `bits` bits per pixel, or `None` when
/// `colors_used` is over the limit of that depth.
pub open spec fn palette_count(bits: int, colors_used: int) -> Option<int> {
    let limit: int = if bits == 1 {
        2
    } else if bits == 4 {
        16
    } else if bits == 8 {
        256
    } else {
        0
    };
    if limit == 0 {
        Some(0)
    } else if colors_used == 0 {
        Some(limit)
    } else if colors_used <= limit {
        Some(colors_used)
    } else {
        None
    }
}

/// `p` holds the BGRX entries stored at `at`, as RGBX.
pub open spec fn palette_read(b: Seq<u8>, at: int, p: Seq<[u8; 4]>) -> bool {
    forall|i: int|
        0 <= i < p.len() ==> (#[trigger] p[i])[0] == b[at + 4 * i + 2] && p[i][1] == b[at + 4 * i
            + 1] && p[i][2] == b[at + 4 * i] && p[i][3] == b[at + 4 * i + 3]
}

/// The first refusal of `validate_masks`, if any.
pub open spec fn mask_refusal(m: Masks, bits: u16) -> Option<Error> {
    let allowed: u32 = if bits == 32 { u32::MAX } else { 0xFFFFu32 };
    if !mask_ok(m.red) || !mask_ok(m.green) || !mask_ok(m.blue) {
        Some(Error::InvalidBitfieldMasks("RGB masks must be non-zero contiguous bit ranges"))
    } else if m.alpha != 0 && !mask_ok(m.alpha) {
        Some(Error::InvalidBitfieldMasks("alpha mask must be a contiguous bit range"))
    } else if ((m.red & m.green) | (m.red & m.blue) | (m.green & m.blue) | (m.alpha & (m.red
        | m.green | m.blue))) != 0 {
        Some(Error::InvalidBitfieldMasks("channel masks overlap"))
    } else if (m.red | m.green | m.blue | m.alpha) & !allowed != 0 {
        Some(Error::InvalidBitfieldMasks("mask uses bits outside the pixel word"))
    } else {
        None
    }
}

/// The image height named by the signed header field `sh`.
pub open spec fn magnitude(sh: int) -> int {
    if sh < 0 {
        -sh
    } else {
        sh
    }
}

/// Bytes per stored row of `w` pixels at `bits` bits per pixel.
pub open spec fn stride_of(w: int, bits: int) -> int {
    ((w * bits + 31) / 32) * 4
}

/// How many bytes an RLE stream at `po` spans: the header's image size, or
/// the rest of the input when that is zero.
pub open spec fn rle_length(b: Seq<u8>) -> int {
    if le32(b, 34) == 0 {
        b.len() - le32(b, 10)
    } else {
        le32(b, 34)
    }
}

/// The RLE decoding of the pixel stream of `b`, a BMP with compression `c`.
pub open spec fn rle_of(b: Seq<u8>, c: Compression) -> Result<Seq<u8>, Error> {
    let w = le_i32(b, 18);
    let h = magnitude(le_i32(b, 22));
    let po = le32(b, 10);
    rle_decode(
        b,
        rle_limit(b.len() as int, po, rle_length(b)),
        po,
        0,
        0,
        Seq::new((w * h) as nat, |i: int| 0u8),
        w,
        h,
        c == Compression::Rle8,
    )
}

/// The first refusal met by the header, mask, palette and offset checks of
/// the BMP `b` (an RLE pixel stream is decoded after them).
pub open spec fn header_refusal(b: Seq<u8>, o: Options) -> Option<Error> {
    let len = b.len() as int;
    let declared = le32(b, 2);
    let po = le32(b, 10);
    let dib = le32(b, 14);
    let sw = le_i32(b, 18);
    let sh = le_i32(b, 22);
    let h = magnitude(sh);
    let planes = le16(b, 26);
    let bits = le16(b, 28);
    let raw = le32(b, 30);
    let c = compression_of(raw, bits)->0;
    let n = palette_count(bits, le32(b, 46))->0;
    let start = palette_start(b, c);
    if len < 14 {
        Some(Error::Truncated("file header"))
    } else if !(b[0] == 0x42 && b[1] == 0x4d) {
        Some(Error::InvalidSignature)
    } else if o.strict_declared_file_size && declared != 0 && declared > len {
        Some(Error::DeclaredFileSizeExceedsInput { declared: declared as u32, actual: len as u64 })
    } else if len < 18 {
        Some(Error::Truncated("DIB header"))
    } else if dib < 40 || dib > 4096 {
        Some(Error::UnsupportedDibHeader(dib as u32))
    } else if len - 14 < dib {
        Some(Error::Truncated("DIB header"))
    } else if sw <= 0 || sh == 0 || sh == -0x8000_0000 {
        Some(Error::InvalidDimensions { width: sw as i32, height: sh as i32 })
    } else if sw * h > o.max_pixels {
        Some(Error::PixelLimitExceeded { pixels: (sw * h) as u64, limit: o.max_pixels })
    } else if planes != 1 {
        Some(Error::UnsupportedPlanes(planes as u16))
    } else if !(bits == 1 || bits == 4 || bits == 8 || bits == 16 || bits == 24 || bits == 32) {
        Some(Error::UnsupportedBitDepth(bits as u16))
    } else if compression_of(raw, bits) is None {
        Some(Error::UnsupportedCompression { compression: raw as u32, bits_per_pixel: bits as u16 })
    } else if sh < 0 && is_rle(c) {
        Some(Error::InvalidRle("top-down RLE BMP is not defined"))
    } else if has_bitfields(c) && dib < 52 && len < start {
        Some(Error::Truncated("external bitfield masks"))
    } else if has_bitfields(c) && mask_refusal(masks_of(b, c, bits), bits as u16) is Some {
        mask_refusal(masks_of(b, c, bits), bits as u16)
    } else if palette_count(bits, le32(b, 46)) is None {
        Some(Error::InvalidPalette("colors_used exceeds the bit-depth palette limit"))
    } else if start + 4 * n > po {
        Some(Error::InvalidPixelOffset(po as u32))
    } else if start + 4 * n > len {
        Some(Error::Truncated("palette"))
    } else if po >= len {
        Some(Error::InvalidPixelOffset(po as u32))
    } else if !is_rle(c) && po + stride_of(sw, bits) * h > len {
        Some(Error::Truncated("pixel array"))
    } else if is_rle(c) && le32(b, 34) != 0 && po + le32(b, 34) > len {
        Some(Error::Truncated("RLE pixel array"))
    } else if is_rle(c) && sw * h > usize::MAX {
        Some(Error::IntegerOverflow("RLE image allocation"))
    } else {
        None
    }
}

/// The warnings a successful parse of `b` reports: a declared file size
/// that differs from the input's, and 32-bit alpha that was normalized.
pub open spec fn bmp_warnings(b: Seq<u8>, o: Options, m: Masks) -> Seq<Seq<char>> {
    let declared = le32(b, 2);
    let size: Seq<Seq<char>> = if declared != 0 && declared != b.len() {
        seq![
            "declared BMP file size "@ + crate::text::decimal(declared as nat)
                + " differs from actual size "@ + crate::text::decimal(b.len()),
        ]
    } else {
        Seq::empty()
    };
    let alpha: Seq<Seq<char>> = if le16(b, 28) == 32 && m.alpha == 0 && o.unmarked_alpha != UnmarkedAlpha::Preserve {
        seq!["unmarked 32-bit BMP alpha byte was normalized to opaque"@]
    } else {
        Seq::empty()
    };
    size + alpha
}

/// What a successful parse of `b` has read from it.
pub open spec fn header_of(b: Seq<u8>, o: Options, img: BmpImage) -> bool {
    let c = img.compression;
    let n = palette_count(le16(b, 28), le32(b, 46))->0;
    &&& header_refusal(b, o) is None
    &&& b[0] == 0x42 && b[1] == 0x4d
    &&& img.file_size == b.len()
    &&& img.width == le_i32(b, 18)
    &&& le_i32(b, 22) != 0
    &&& img.height == magnitude(le_i32(b, 22))
    &&& img.top_down == (le_i32(b, 22) < 0)
    &&& img.bits_per_pixel == le16(b, 28)
    &&& img.width * img.height <= o.max_pixels
    &&& img.pixel_offset == le32(b, 10)
    &&& img.pixel_offset < b.len()
    &&& img.preserve_unmarked_alpha == (o.unmarked_alpha == UnmarkedAlpha::Preserve)
    &&& compression_of(le32(b, 30), le16(b, 28)) == Some(c)
    &&& img.masks == masks_of(b, c, le16(b, 28))
    &&& img.palette@.len() == n
    &&& palette_read(b, palette_start(b, c), img.palette@)
    &&& img.output_channels == if img.masks.alpha != 0 || (img.preserve_unmarked_alpha && (
        img.bits_per_pixel == 32 || n != 0)) {
        4usize
    } else {
        3usize
    }
    &&& match img.rle_pixels {
        Some(v) => is_rle(c) && rle_of(b, c) == Ok::<Seq<u8>, Error>(v@),
        None => !is_rle(c),
    }
    &&& img.warnings@.map_values(|w: String| w@) == bmp_warnings(b, o, img.masks)
    &&& img.wf(b.len() as int)
}

/// Parses the headers, palette and masks of the BMP `input` (and decodes
/// an RLE pixel stream).
#[verifier::spinoff_prover]
#[verifier::loop_isolation(false)]
#[verifier::rlimit(80)]
pub fn inspect(input: &[u8], options: &Options) -> (r: Result<BmpImage, Error>)
    ensures
        match header_refusal(input@, *options) {
            Some(e) => r == Err::<BmpImage, Error>(e),
            None => {
                let c = compression_of(le32(input@, 30), le16(input@, 28))->0;
                if is_rle(c) && rle_of(input@, c) is Err {
                    r == Err::<BmpImage, Error>(rle_of(input@, c)->Err_0)
                } else {
                    r is Ok
                }
            },
        },
        r matches Ok(img) ==> header_of(input@, *options, img),
        r matches Err(e) ==> !(e is InvalidOptions),
{
    let len = input.len();
    let file_size = len as u64;
    if len < 14 {
        return Err(Error::Truncated("file header"));
    }
    if input[0] != 0x42 || input[1] != 0x4d {
        return Err(Error::InvalidSignature);
    }
    let declared_file_size = read_le32(input, 2);
    let pixel_offset = read_le32(input, 10);
    if options.strict_declared_file_size && declared_file_size != 0 && declared_file_size as u64
        > file_size {
        return Err(Error::DeclaredFileSizeExceedsInput { declared: declared_file_size, actual: file_size });
    }
    if len < 18 {
        return Err(Error::Truncated("DIB header"));
    }
    let dib_size = read_le32(input, 14);
    if dib_size < 40 || dib_size > 4096 {
        return Err(Error::UnsupportedDibHeader(dib_size));
    }
    if len - 14 < dib_size as usize {
        return Err(Error::Truncated("DIB header"));
    }
    let signed_width = read_le_i32(input, 18);
    let signed_height = read_le_i32(input, 22);
    if signed_width <= 0 || signed_height == 0 || signed_height == i32::MIN {
        return Err(Error::InvalidDimensions { width: signed_width, height: signed_height });
    }
    let width = signed_width as u32;
    let height: u32 = if signed_height < 0 {
        (-(signed_height as i64)) as u32
    } else {
        signed_height as u32
    };
    assert(width as int * height as int <= 0x7FFF_FFFF * 0x8000_0000) by (nonlinear_arith)
        requires
            width <= 0x7FFF_FFFF,
            height <= 0x8000_0000,
    ;
    let pixels = width as u64 * height as u64;
    if pixels > options.max_pixels {
        return Err(Error::PixelLimitExceeded { pixels, limit: options.max_pixels });
    }
    let planes = read_le16(input, 26);
    if planes != 1 {
        return Err(Error::UnsupportedPlanes(planes));
    }
    let bits_per_pixel = read_le16(input, 28);
    if !(bits_per_pixel == 1 || bits_per_pixel == 4 || bits_per_pixel == 8 || bits_per_pixel == 16
        || bits_per_pixel == 24 || bits_per_pixel == 32) {
        return Err(Error::UnsupportedBitDepth(bits_per_pixel));
    }
    let compression_raw = read_le32(input, 30);
    let compression = if compression_raw == 0 {
        Compression::Rgb
    } else if compression_raw == 1 && bits_per_pixel == 8 {
        Compression::Rle8
    } else if compression_raw == 2 && bits_per_pixel == 4 {
        Compression::Rle4
    } else if compression_raw == 3 && (bits_per_pixel == 16 || bits_per_pixel == 32) {
        Compression::Bitfields
    } else if compression_raw == 6 && (bits_per_pixel == 16 || bits_per_pixel == 32) {
        Compression::AlphaBitfields
    } else {
        return Err(Error::UnsupportedCompression { compression: compression_raw, bits_per_pixel });
    };
    let is_rle = compression == Compression::Rle4 || compression == Compression::Rle8;
    let top_down = signed_height < 0;
    if top_down && is_rle {
        return Err(Error::InvalidRle("top-down RLE BMP is not defined"));
    }
    let image_size = read_le32(input, 34);
    let colors_used = read_le32(input, 46);
    let mut masks = if compression == Compression::Rgb && bits_per_pixel == 16 {
        Masks { red: 0x7C00, green: 0x03E0, blue: 0x001F, alpha: 0 }
    } else if compression == Compression::Rgb && bits_per_pixel == 32 {
        Masks { red: 0x00FF0000, green: 0x0000FF00, blue: 0x000000FF, alpha: 0 }
    } else {
        Masks { red: 0, green: 0, blue: 0, alpha: 0 }
    };
    let mut position: usize = 14 + dib_size as usize;
    if compression == Compression::Bitfields || compression == Compression::AlphaBitfields {
        if dib_size >= 52 {
            masks.red = read_le32(input, 54);
            masks.green = read_le32(input, 58);
            masks.blue = read_le32(input, 62);
            if dib_size >= 56 {
                masks.alpha = read_le32(input, 66);
            }
        } else {
            let mask_count: usize = if compression == Compression::AlphaBitfields {
                4
            } else {
                3
            };
            if len - position < mask_count * 4 {
                return Err(Error::Truncated("external bitfield masks"));
            }
            masks.red = read_le32(input, position);
            masks.green = read_le32(input, position + 4);
            masks.blue = read_le32(input, position + 8);
            if mask_count == 4 {
                masks.alpha = read_le32(input, position + 12);
            }
            position = position + mask_count * 4;
        }
        match validate_masks(masks, bits_per_pixel) {
            Ok(()) => {},
            Err(e) => return Err(e),
        }
    }
    let palette_limit: u32 = if bits_per_pixel == 1 {
        2
    } else if bits_per_pixel == 4 {
        16
    } else if bits_per_pixel == 8 {
        256
    } else {
        0
    };
    let palette_count: u32 = if palette_limit == 0 {
        0
    } else if colors_used == 0 {
        palette_limit
    } else if colors_used <= palette_limit {
        colors_used
    } else {
        return Err(Error::InvalidPalette("colors_used exceeds the bit-depth palette limit"));
    };
    let palette_bytes = palette_count as usize * 4;
    if position as u64 + palette_bytes as u64 > pixel_offset as u64 {
        return Err(Error::InvalidPixelOffset(pixel_offset));
    }
    let ghost start = position as int;
    assert(start == palette_start(input@, compression));
    let mut palette: Vec<[u8; 4]> = Vec::new();
    let mut k: u32 = 0;
    while k < palette_count
        invariant
            k <= palette_count,
            palette_count <= 256,
            palette@.len() == k,
            position == start + 4 * k,
            position <= len,
            palette_read(input@, start, palette@),
        decreases palette_count - k,
    {
        if position > len || len - position < 4 {
            return Err(Error::Truncated("palette"));
        }
        let entry: [u8; 4] = [input[position + 2], input[position + 1], input[position], input[position + 3]];
        assert(entry[0] == input@[position + 2] && entry[1] == input@[position + 1] && entry[2]
            == input@[position as int] && entry[3] == input@[position + 3]);
        palette.push(entry);
        position = position + 4;
        k = k + 1;
    }
    assert(width as int * bits_per_pixel as int <= 0x7FFF_FFFF * 32) by (nonlinear_arith)
        requires
            width <= 0x7FFF_FFFF,
            bits_per_pixel <= 32,
    ;
    let row_bits = width as u64 * bits_per_pixel as u64;
    let row_stride = ((row_bits + 31) / 32) * 4;
    if pixel_offset as u64 >= file_size {
        return Err(Error::InvalidPixelOffset(pixel_offset));
    }
    if !is_rle {
        assert(row_stride as int * height as int <= 0x1_FFFF_FFFC * 0x8000_0000) by (nonlinear_arith)
            requires
                row_stride <= 0x1_FFFF_FFFC,
                height <= 0x8000_0000,
        ;
        let size = row_stride * height as u64;
        let pixel_end = pixel_offset as u64 + size;
        if pixel_end > file_size {
            return Err(Error::Truncated("pixel array"));
        }
    } else if image_size != 0 && pixel_offset as u64 + image_size as u64 > file_size {
        return Err(Error::Truncated("RLE pixel array"));
    }
    let preserve_unmarked_alpha = options.unmarked_alpha == UnmarkedAlpha::Preserve;
    let output_channels: usize = if masks.alpha != 0 || (preserve_unmarked_alpha && (bits_per_pixel
        == 32 || palette.len() != 0)) {
        4
    } else {
        3
    };
    let mut warnings: Vec<String> = Vec::new();
    if declared_file_size != 0 && declared_file_size as u64 != file_size {
        let mut w = crate::text::message("declared BMP file size ", declared_file_size as u64, " differs from actual size ");
        crate::text::push_decimal(&mut w, file_size);
        warnings.push(w);
    }
    let ghost first = warnings@.map_values(|w: String| w@);
    if bits_per_pixel == 32 && masks.alpha == 0 && !preserve_unmarked_alpha {
        warnings.push(crate::text::note("unmarked 32-bit BMP alpha byte was normalized to opaque"));
    }
    assert(warnings@.map_values(|w: String| w@) =~= bmp_warnings(input@, *options, masks));
    let rle_pixels: Option<Vec<u8>> = if is_rle {
        if pixels > usize::MAX as u64 {
            return Err(Error::IntegerOverflow("RLE image allocation"));
        }
        let length: u64 = if image_size == 0 {
            file_size - pixel_offset as u64
        } else {
            image_size as u64
        };
        proof {
            lemma_rle_refusals(
                input@,
                rle_limit(input@.len() as int, pixel_offset as int, length as int),
                pixel_offset as int,
                0,
                0,
                Seq::new((width * height) as nat, |i: int| 0u8),
                width as int,
                height as int,
                compression == Compression::Rle8,
            );
        }
        match decode_rle(input, pixel_offset as usize, length, width, height, compression) {
            Ok(v) => Some(v),
            Err(e) => return Err(e),
        }
    } else {
        None
    };
    Ok(
        BmpImage {
            file_size,
            width,
            height,
            bits_per_pixel,
            compression,
            top_down,
            pixel_offset: pixel_offset as u64,
            row_stride,
            palette,
            masks,
            preserve_unmarked_alpha,
            output_channels,
            rle_pixels,
            warnings,
        },
    )
}

pub proof fn lemma_palette_len(idx: Seq<u8>, palette: Seq<[u8; 4]>, channels: int, preserve: bool, n: nat)
    requires
        channels == 3 || channels == 4,
        palette_bytes(idx, palette, channels, preserve, n) is Some,
    ensures
        palette_bytes(idx, palette, channels, preserve, n)->0.len() == n * channels,
    decreases n,
{
    if n > 0 {
        lemma_palette_len(idx, palette, channels, preserve, (n - 1) as nat);
        assert(n * channels == (n - 1) * channels + channels) by (nonlinear_arith);
    } else {
        assert(n * channels == 0) by (nonlinear_arith)
            requires
                n == 0,
        ;
    }
}

pub proof fn lemma_direct_len(img: BmpImage, b: Seq<u8>, start: int, n: nat)
    requires
        img.output_channels == 3 || img.output_channels == 4,
    ensures
        direct_row(img, b, start, n).len() == n * (if img.bits_per_pixel == 24 {
            3int
        } else {
            img.output_channels as int
        }),
    decreases n,
{
    let c = if img.bits_per_pixel == 24 {
        3int
    } else {
        img.output_channels as int
    };
    if n > 0 {
        lemma_direct_len(img, b, start, (n - 1) as nat);
        assert(n * c == (n - 1) * c + c) by (nonlinear_arith);
    } else {
        assert(n * c == 0) by (nonlinear_arith)
            requires
                n == 0,
        ;
    }
}

proof fn lemma_palette_none(idx: Seq<u8>, palette: Seq<[u8; 4]>, channels: int, preserve: bool, k: nat, n: nat)
    requires
        k <= n,
        palette_bytes(idx, palette, channels, preserve, k) is None,
    ensures
        palette_bytes(idx, palette, channels, preserve, n) is None,
    decreases n - k,
{
    if k < n {
        lemma_palette_none(idx, palette, channels, preserve, (k + 1) as nat, n);
    }
}

} // verus!
