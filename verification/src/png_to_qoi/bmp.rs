//! The uncompressed BMP profile: 24-bit BGR and 32-bit BGRA rows.
use vstd::prelude::*;
use crate::bytes::{le16, le32, le32_bytes, push_le16, push_le32, read_le16, read_le32};
use super::{checked_pixels, Encoded, Error, Image, Options, Pixel};
use super::qoi::{any_alpha, has_alpha};

verus! {

pub open spec fn le_i32(b: Seq<u8>, i: int) -> int {
    if le32(b, i) >= 0x8000_0000 { le32(b, i) - 0x1_0000_0000 } else { le32(b, i) }
}

/// The bytes of one pixel as stored: blue, green, red (and alpha).
pub open spec fn stored_pixel(p: Pixel, alpha: bool) -> Seq<u8> {
    seq![p.b, p.g, p.r] + if alpha { seq![p.a] } else { Seq::empty() }
}

/// Stored rows `0..n`, top row first, each padded to `stride` bytes.
pub open spec fn stored_rows(px: Seq<Pixel>, w: int, alpha: bool, stride: int, n: nat) -> Seq<u8>
    decreases n,
{
    if n == 0 {
        Seq::empty()
    } else {
        stored_rows(px, w, alpha, stride, (n - 1) as nat) + stored_row(px, (n - 1) * w, w as nat, alpha)
            + Seq::new((stride - w * (if alpha { 4int } else { 3int })) as nat, |_i: int| 0u8)
    }
}

pub open spec fn stored_row(px: Seq<Pixel>, start: int, n: nat, alpha: bool) -> Seq<u8>
    decreases n,
{
    if n == 0 {
        Seq::empty()
    } else {
        stored_row(px, start, (n - 1) as nat, alpha) + stored_pixel(px[start + n - 1], alpha)
    }
}

pub open spec fn stride_of(w: int, alpha: bool) -> int {
    let row = w * (if alpha { 4int } else { 3int });
    ((row + 3) / 4) * 4
}

/// The BMP file for `img`: a top-down BITMAPINFOHEADER (or BITMAPV4HEADER
/// with BGRA masks when some pixel is translucent).
pub open spec fn bmp_file(img: Image) -> Seq<u8> {
    let alpha = has_alpha(img.pixels@);
    let dib: int = if alpha { 108 } else { 40 };
    let offset = 14 + dib;
    let stride = stride_of(img.width as int, alpha);
    let raster = stride * img.height;
    seq![0x42u8, 0x4d] + le32_bytes(offset + raster) + le32_bytes(0) + le32_bytes(offset)
        + le32_bytes(dib) + le32_bytes(img.width as int) + le32_bytes((0x1_0000_0000 - img.height) % 0x1_0000_0000)
        + crate::bytes::le16_bytes(1) + crate::bytes::le16_bytes(if alpha { 32 } else { 24 })
        + le32_bytes(if alpha { 3 } else { 0 }) + le32_bytes(raster) + Seq::new(16, |_i: int| 0u8)
        + (if alpha {
        le32_bytes(0x00ff0000) + le32_bytes(0x0000ff00) + le32_bytes(0x000000ff) + le32_bytes(
            0xff000000,
        ) + le32_bytes(0x73524742) + Seq::new(48, |_i: int| 0u8)
    } else {
        Seq::empty()
    }) + stored_rows(img.pixels@, img.width as int, alpha, stride, img.height as nat)
}

fn push_row(out: &mut Vec<u8>, px: &Vec<Pixel>, start: usize, n: usize, alpha: bool)
    requires
        start + n <= px@.len(),
    ensures
        final(out)@ == old(out)@ + stored_row(px@, start as int, n as nat, alpha),
{
    let _l = px.len();
    let mut k: usize = 0;
    while k < n
        invariant
            k <= n,
            _l == px@.len(),
            start + n <= px@.len(),
            out@ == old(out)@ + stored_row(px@, start as int, k as nat, alpha),
        decreases n - k,
    {
        let p = px[start + k];
        let ghost before = out@;
        out.push(p.b);
        out.push(p.g);
        out.push(p.r);
        if alpha {
            out.push(p.a);
        }
        assert(out@ =~= before + stored_pixel(p, alpha));
        k = k + 1;
    }
}

/// Encodes `image` as an uncompressed top-down BMP.
#[verifier::rlimit(80)]
pub fn encode_bmp(image: &Image) -> (r: Result<Encoded, Error>)
    requires
        image.pixels@.len() == image.width * image.height,
    ensures
        r matches Ok(e) ==> e.bytes@ == bmp_file(*image),
        r is Ok <==> (image.height <= 0x7FFF_FFFF && 14 + (if has_alpha(image.pixels@) { 108int } else { 40int })
            + stride_of(image.width as int, has_alpha(image.pixels@)) * image.height <= u32::MAX),
{
    let alpha = any_alpha(&image.pixels);
    let bpp: u64 = if alpha { 32 } else { 24 };
    let dib: u64 = if alpha { 108 } else { 40 };
    let offset: u64 = 14 + dib;
    let pixel_bytes: u64 = bpp / 8;
    let row_bytes = image.width as u64 * pixel_bytes;
    let stride = (row_bytes + 3) / 4 * 4;
    assert(stride as int == stride_of(image.width as int, alpha));
    if image.height != 0 && stride > u64::MAX / image.height as u64 {
        assert(stride as int * image.height as int > u32::MAX) by (nonlinear_arith)
            requires
                image.height >= 1,
                stride > u64::MAX as int / image.height as int,
        ;
        return Err(Error::IntegerOverflow("BMP raster"));
    }
    assert(stride as int * image.height as int <= u64::MAX) by (nonlinear_arith)
        requires
            image.height == 0 || stride <= u64::MAX as int / image.height as int,
    ;
    let raster = stride * image.height as u64;
    if raster > u64::MAX - offset {
        return Err(Error::IntegerOverflow("BMP size"));
    }
    let total = offset + raster;
    if total > 0xFFFF_FFFF {
        return Err(Error::Unsupported("BMP output exceeds 4 GiB"));
    }
    if image.height > 0x7FFF_FFFF {
        return Err(Error::Unsupported("BMP height exceeds i32"));
    }
    let mut out: Vec<u8> = Vec::new();
    out.push(0x42u8);
    out.push(0x4du8);
    push_le32(&mut out, total as u32);
    push_le32(&mut out, 0);
    push_le32(&mut out, offset as u32);
    push_le32(&mut out, dib as u32);
    push_le32(&mut out, image.width);
    let neg_height: u32 = if image.height == 0 {
        0
    } else {
        (0x1_0000_0000u64 - image.height as u64) as u32
    };
    push_le32(&mut out, neg_height);
    push_le16(&mut out, 1);
    push_le16(&mut out, bpp as u16);
    push_le32(&mut out, if alpha { 3 } else { 0 });
    push_le32(&mut out, raster as u32);
    crate::bytes::push_zeros(&mut out, 16);
    if alpha {
        push_le32(&mut out, 0x00ff0000);
        push_le32(&mut out, 0x0000ff00);
        push_le32(&mut out, 0x000000ff);
        push_le32(&mut out, 0xff000000);
        push_le32(&mut out, 0x73524742);
        crate::bytes::push_zeros(&mut out, 48);
    }
    let ghost head = out@;
    proof {
        let a = has_alpha(image.pixels@);
        let dib_s: int = if a { 108 } else { 40 };
        let hdr = seq![0x42u8, 0x4d] + le32_bytes(14 + dib_s + raster) + le32_bytes(0) + le32_bytes(14 + dib_s)
            + le32_bytes(dib_s) + le32_bytes(image.width as int) + le32_bytes((0x1_0000_0000 - image.height) % 0x1_0000_0000)
            + crate::bytes::le16_bytes(1) + crate::bytes::le16_bytes(if a { 32 } else { 24 })
            + le32_bytes(if a { 3 } else { 0 }) + le32_bytes(raster as int) + Seq::new(16, |_i: int| 0u8)
            + (if a {
            le32_bytes(0x00ff0000) + le32_bytes(0x0000ff00) + le32_bytes(0x000000ff) + le32_bytes(
                0xff000000,
            ) + le32_bytes(0x73524742) + Seq::new(48, |_i: int| 0u8)
        } else {
            Seq::empty()
        });
        assert(head =~= hdr);
    }
    let w = image.width as usize;
    let pad = (stride - row_bytes) as usize;
    let _n = image.pixels.len();
    let mut y: usize = 0;
    while y < image.height as usize
        invariant
            y <= image.height,
            w == image.width,
            _n == image.pixels@.len(),
            image.pixels@.len() == image.width * image.height,
            pad as int == stride - w * (if alpha { 4int } else { 3int }),
            out@ == head + stored_rows(image.pixels@, w as int, alpha, stride as int, y as nat),
        decreases image.height - y,
    {
        assert(y * w + w <= image.width as int * image.height as int) by (nonlinear_arith)
            requires
                y < image.height,
                w == image.width,
        ;
        let ghost before = out@;
        push_row(&mut out, &image.pixels, y * w, w, alpha);
        crate::bytes::push_zeros(&mut out, pad);
        y = y + 1;
    }
    assert(out@ =~= bmp_file(*image));
    Ok(Encoded { bytes: out, channels: if alpha { 4 } else { 3 }, alpha_action: "preserved" })
}

/// The pixel stored at `pos`.
pub open spec fn read_pixel(b: Seq<u8>, pos: int, keep_alpha: bool) -> Pixel {
    Pixel { r: b[pos + 2], g: b[pos + 1], b: b[pos], a: if keep_alpha { b[pos + 3] } else { 255u8 } }
}

/// Output rows `0..n` (top first) of a stored raster.
pub open spec fn read_rows(
    b: Seq<u8>,
    offset: int,
    stride: int,
    step: int,
    w: int,
    h: int,
    top_down: bool,
    keep_alpha: bool,
    n: nat,
) -> Seq<Pixel>
    decreases n,
{
    if n == 0 {
        Seq::empty()
    } else {
        let y = n - 1;
        let stored = if top_down { y } else { h - 1 - y };
        read_rows(b, offset, stride, step, w, h, top_down, keep_alpha, (n - 1) as nat) + Seq::new(
            w as nat,
            |x: int| read_pixel(b, offset + stored * stride + x * step, keep_alpha),
        )
    }
}

fn read_i32(b: &[u8], i: usize) -> (r: i32)
    requires
        i + 4 <= b@.len(),
    ensures
        r as int == le_i32(b@, i as int),
{
    let v = read_le32(b, i);
    if v >= 0x8000_0000 {
        (v as i64 - 0x1_0000_0000i64) as i32
    } else {
        v as i32
    }
}

/// Decodes a 24-bit BI_RGB or 32-bit BI_RGB/BGRA-bitfield BMP.
/// Whether `b` is a BMP that decodes: the `BM` signature, a DIB header of
/// at least 40 bytes, positive width and non-zero height, one plane, 24-bit
/// `BI_RGB` or 32-bit `BI_RGB`/BGRA8 bitfields, at most `max_pixels` pixels,
/// the whole raster inside the file, and (when `strict`) nothing after the
/// declared or raster end.
pub open spec fn bmp_accepts(b: Seq<u8>, max_pixels: int, strict: bool) -> bool {
    let len = b.len() as int;
    let declared = le32(b, 2);
    let offset = le32(b, 10);
    let dib = le32(b, 14);
    let w = le_i32(b, 18);
    let hi = le_i32(b, 22);
    let bpp = le16(b, 28);
    let compression = le32(b, 30);
    let explicit_alpha = bpp == 32 && (compression == 3 || compression == 6);
    let h = if hi < 0 {
        -hi
    } else {
        hi
    };
    let stride = (w * (bpp / 8) + 3) / 4 * 4;
    let raster = stride * h;
    &&& len >= 54 && b[0] == 0x42 && b[1] == 0x4d
    &&& 40 <= dib <= len - 14
    &&& w > 0 && hi != 0 && hi != i32::MIN
    &&& le16(b, 26) == 1
    &&& explicit_alpha ==> (dib >= 56 && len >= 70 && le32(b, 54) == 0x00ff0000 && le32(b, 58) == 0x0000ff00
        && le32(b, 62) == 0x000000ff && le32(b, 66) == 0xff000000)
    &&& ((bpp == 24 && compression == 0) || (bpp == 32 && compression == 0) || explicit_alpha)
    &&& w * h <= max_pixels && w * h <= usize::MAX
    &&& raster <= u64::MAX && offset + raster <= usize::MAX
    &&& offset + raster <= len
    &&& declared != 0 ==> declared <= len && !(strict && declared < len)
    &&& declared == 0 ==> !(strict && offset + raster < len)
}

pub proof fn lemma_div_bound(a: int, m: int, h: int)
    requires
        a >= 0,
        m >= 0,
        h >= 1,
    ensures
        a > m / h <==> a * h > m,
{
    vstd::arithmetic::div_mod::lemma_fundamental_div_mod(m, h);
    let q = m / h;
    assert(0 <= m % h < h);
    if a > q {
        assert(a * h >= (q + 1) * h) by (nonlinear_arith)
            requires
                a >= q + 1,
                h >= 1,
        ;
        assert((q + 1) * h == h * q + h) by (nonlinear_arith);
    } else {
        assert(a * h <= q * h) by (nonlinear_arith)
            requires
                a <= q,
                h >= 1,
        ;
        assert(q * h == h * q) by (nonlinear_arith);
    }
}

pub fn decode_bmp(bytes: &[u8], options: &Options) -> (r: Result<Image, Error>)
    ensures
        r is Ok <==> bmp_accepts(bytes@, options.max_pixels as int, options.strict_trailing_data),
        r matches Ok(img) ==> {
            &&& bytes@.len() >= 54
            &&& img.width == le_i32(bytes@, 18)
            &&& img.height == (if le_i32(bytes@, 22) < 0 { -le_i32(bytes@, 22) } else { le_i32(bytes@, 22) })
            &&& img.pixels@.len() == img.width * img.height
            &&& img.width * img.height <= options.max_pixels
            &&& read_rows(
                bytes@,
                le32(bytes@, 10),
                ((img.width * (le16(bytes@, 28) / 8) + 3) / 4) * 4,
                le16(bytes@, 28) / 8,
                img.width as int,
                img.height as int,
                le_i32(bytes@, 22) < 0,
                le16(bytes@, 28) == 32 && (le32(bytes@, 30) == 3 || le32(bytes@, 30) == 6
                    || options.preserve_unmarked_bmp_alpha),
                img.height as nat,
            ) == img.pixels@
        },
{
    let len = bytes.len();
    if len < 2 || bytes[0] != 0x42 || bytes[1] != 0x4d {
        return Err(Error::InvalidSignature("BMP"));
    }
    if len < 54 {
        return Err(Error::Truncated("BMP headers"));
    }
    let declared = read_le32(bytes, 2) as usize;
    let offset = read_le32(bytes, 10) as usize;
    let dib = read_le32(bytes, 14) as usize;
    if dib < 40 {
        return Err(Error::Unsupported("BMP DIB headers smaller than BITMAPINFOHEADER"));
    }
    if dib > len - 14 {
        return Err(Error::Truncated("BMP DIB header"));
    }
    let width_i = read_i32(bytes, 18);
    let height_i = read_i32(bytes, 22);
    if width_i <= 0 || height_i == 0 || height_i == i32::MIN {
        return Err(Error::InvalidHeader("invalid BMP dimensions"));
    }
    if read_le16(bytes, 26) != 1 {
        return Err(Error::InvalidHeader("BMP planes must equal one"));
    }
    let bpp = read_le16(bytes, 28);
    let compression = read_le32(bytes, 30);
    let explicit_alpha = if bpp == 32 && (compression == 3 || compression == 6) {
        if dib < 56 {
            return Err(Error::Unsupported("external BMP bitfield masks"));
        }
        if len < 70 {
            return Err(Error::Truncated("BMP channel masks"));
        }
        if !(read_le32(bytes, 54) == 0x00ff0000 && read_le32(bytes, 58) == 0x0000ff00
            && read_le32(bytes, 62) == 0x000000ff && read_le32(bytes, 66) == 0xff000000) {
            return Err(Error::Unsupported("BMP 32-bit masks other than BGRA8"));
        }
        true
    } else {
        false
    };
    if !((bpp == 24 && compression == 0) || (bpp == 32 && compression == 0) || explicit_alpha) {
        return Err(Error::Unsupported("BMP Wave A accepts 24-bit BI_RGB and 32-bit BI_RGB/BGRA8 bitfields"));
    }
    let width = width_i as u32;
    let height: u32 = if height_i < 0 {
        (-(height_i as i64)) as u32
    } else {
        height_i as u32
    };
    let count = match checked_pixels(width, height, options) {
        Ok(c) => c,
        Err(e) => return Err(e),
    };
    let step = (bpp / 8) as usize;
    assert(step == 3 || step == 4);
    assert(width as int * step as int <= 0xFFFF_FFFF * 4) by (nonlinear_arith)
        requires
            width <= 0xFFFF_FFFF,
            step <= 4,
    ;
    let row_bytes = width as u64 * step as u64;
    let stride64 = (row_bytes + 3) / 4 * 4;
    proof {
        lemma_div_bound(stride64 as int, u64::MAX as int, height as int);
    }
    if height as u64 > 0 && stride64 > u64::MAX / height as u64 {
        return Err(Error::IntegerOverflow("BMP raster"));
    }
    assert(stride64 as int * height as int <= u64::MAX) by (nonlinear_arith)
        requires
            stride64 <= u64::MAX as int / height as int,
            height >= 1,
    ;
    let raster64 = stride64 * height as u64;
    assert(stride64 <= raster64) by (nonlinear_arith)
        requires
            raster64 == stride64 * height,
            height >= 1,
    ;
    assert(stride64 >= row_bytes) by {
        vstd::arithmetic::div_mod::lemma_fundamental_div_mod(row_bytes + 3, 4);
    }
    if raster64 > usize::MAX as u64 || raster64 > usize::MAX as u64 - offset as u64 {
        return Err(Error::IntegerOverflow("BMP raster"));
    }
    if offset as u64 + raster64 > len as u64 {
        return Err(Error::Truncated("BMP raster"));
    }
    let stride = stride64 as usize;
    let raster_bytes = raster64 as usize;
    if declared != 0 {
        if declared > len {
            return Err(Error::Truncated("declared BMP file"));
        }
        if options.strict_trailing_data && declared < len {
            return Err(Error::TrailingData { bytes: len - declared });
        }
    } else if options.strict_trailing_data && offset + raster_bytes < len {
        return Err(Error::TrailingData { bytes: len - offset - raster_bytes });
    }
    let top_down = height_i < 0;
    let keep_alpha = bpp == 32 && (explicit_alpha || options.preserve_unmarked_bmp_alpha);
    let w = width as usize;
    let h = height as usize;
    assert(stride as int * h as int == raster_bytes as int);
    assert(stride as int >= w as int * step as int);
    let mut pixels: Vec<Pixel> = Vec::new();
    let mut y: usize = 0;
    while y < h
        invariant
            y <= h,
            h == height,
            w == width,
            len == bytes@.len(),
            offset + stride * h <= len,
            stride >= w * step,
            step == 3 || step == 4,
            keep_alpha ==> step == 4,
            pixels@ == read_rows(bytes@, offset as int, stride as int, step as int, w as int, h as int, top_down, keep_alpha, y as nat),
            pixels@.len() == y * w,
        decreases h - y,
    {
        let stored = if top_down {
            y
        } else {
            h - 1 - y
        };
        assert(offset + stored * stride + stride <= len) by (nonlinear_arith)
            requires
                stored < h,
                offset + stride * h <= len,
        ;
        let row = offset + stored * stride;
        let ghost before = pixels@;
        let mut x: usize = 0;
        while x < w
            invariant
                x <= w,
                row + stride <= len,
                len == bytes@.len(),
                stride >= w * step,
                step == 3 || step == 4,
                keep_alpha ==> step == 4,
                pixels@ == before + Seq::new(x as nat, |i: int| read_pixel(bytes@, row + i * step, keep_alpha)),
            decreases w - x,
        {
            assert(x * step + step <= stride) by (nonlinear_arith)
                requires
                    x < w,
                    stride >= w * step,
            ;
            let pos = row + x * step;
            let a = if keep_alpha { bytes[pos + 3] } else { 255u8 };
            pixels.push(Pixel { r: bytes[pos + 2], g: bytes[pos + 1], b: bytes[pos], a });
            x = x + 1;
            assert(pixels@ =~= before + Seq::new(x as nat, |i: int| read_pixel(bytes@, row + i * step, keep_alpha)));
        }
        assert(pixels@.len() == y * w + w);
        y = y + 1;
        assert(y * w == (y - 1) * w + w) by (nonlinear_arith);
    }
    assert(pixels@.len() == count) by {
        assert(y == h);
        assert(h as int * w as int == w as int * h as int) by (nonlinear_arith);
    }
    let mut warnings: Vec<String> = Vec::new();
    if bpp == 32 && compression == 0 && !options.preserve_unmarked_bmp_alpha {
        warnings.push(crate::text::note("unmarked BI_RGB fourth byte normalized to opaque"));
    }
    Ok(
        Image {
            width,
            height,
            source_channels: if explicit_alpha || options.preserve_unmarked_bmp_alpha {
                4
            } else {
                3
            },
            pixels,
            warnings,
        },
    )
}

} // verus!
